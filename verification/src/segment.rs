//! A segment: one immutable sorted run of records, as found in one segment
//! file.  Built once by a single linear scan that feeds every record's key
//! into the membership filter and every Nth line's key and offset into the
//! sparse index.  Point lookup asks the filter first (a negative answer is
//! authoritative), narrows to the byte range the sparse index yields, and
//! scans only that range.

use vstd::prelude::*;
use vstd::string::*;
use core::cmp::Ordering;
use crate::codec::{Assignment, decodable, decoded_key, decoded_value};
use crate::config::Config;
use crate::filter::{filter_new, filter_insert, filter_contains, filter_keys, filter_bits};
use crate::lines::{
    split_lines, split_into_lines, line_start, lines_sorted, records_of_lines, record_lines,
    lemma_split_lines_size, lemma_split_lines_no_nl, lemma_record_lines, lemma_line_start_mono,
    lemma_lines_sorted_records,
};
use crate::order::{
    lex_lt, lex_le, str_cmp, str_lt, lemma_lex_trichotomy, lemma_lex_transitive,
    lemma_lex_le_lt_trans,
};
use crate::records::{lookup, entries_sorted, lemma_lookup_absent, lemma_lookup_index};
use crate::sparse_index::{SparseIndex, sample_idx, lemma_sample_idx_bounds};

verus! {

/// Report of a segment file whose records are not in strictly ascending
/// key order: such a file is treated as corrupt rather than indexed.
#[derive(Clone, Copy, PartialEq, Eq, Structural, Debug)]
pub enum SegmentError {
    OutOfOrder,
}

/// An index entry `(k, off)` honestly describes some decodable line of
/// `ls`: the line at character offset `off` carries the key `k`.
pub open spec fn entry_from_line(ls: Seq<Seq<char>>, j: int, k: Seq<char>, off: int) -> bool {
    &&& 0 <= j < ls.len()
    &&& decodable(ls[j])
    &&& k == decoded_key(ls[j])
    &&& off == line_start(ls, j)
}

/// Some decodable line of `ls` at offset `o` carries the key `k`.
pub open spec fn has_entry_line(ls: Seq<Seq<char>>, k: Seq<char>, o: u64) -> bool {
    exists|j: int| entry_from_line(ls, j, k, o as int)
}

/// Every sparse-index entry honestly describes some decodable line.
pub open spec fn index_honest(ls: Seq<Seq<char>>, ks: Seq<Seq<char>>, os: Seq<u64>) -> bool {
    forall|i: int| #![trigger ks[i]] 0 <= i < ks.len() ==> has_entry_line(ls, ks[i], os[i])
}

/// The index holds a sample with key `k` at offset `o`.
pub open spec fn sample_in_index(ks: Seq<Seq<char>>, os: Seq<u64>, k: Seq<char>, o: int) -> bool {
    exists|i: int| 0 <= i < ks.len() && i < os.len() && ks[i] == k && os[i] as int == o
}

/// Line `j` is one the scan samples: its index is a multiple of the
/// configured stride.
#[verifier::opaque]
pub open spec fn is_sampled_line(j: int, stride: int) -> bool {
    j % stride == 0
}

/// Every stride-th decodable line is sampled, so the byte range a lookup
/// yields spans roughly one stride of the segment.
pub open spec fn index_complete(
    ls: Seq<Seq<char>>,
    ks: Seq<Seq<char>>,
    os: Seq<u64>,
    stride: int,
) -> bool {
    forall|j: int|
        0 <= j < ls.len() && is_sampled_line(j, stride) && decodable(#[trigger] ls[j])
            ==> sample_in_index(ks, os, decoded_key(ls[j]), line_start(ls, j))
}

/// Appending an entry keeps every existing sample in the index.
proof fn lemma_sample_in_index_push(ks: Seq<Seq<char>>, os: Seq<u64>, k2: Seq<char>, o2: u64)
    ensures
        forall|k: Seq<char>, o: int|
            #[trigger] sample_in_index(ks, os, k, o) ==> sample_in_index(
                ks.push(k2),
                os.push(o2),
                k,
                o,
            ),
{
    assert forall|k: Seq<char>, o: int| #[trigger] sample_in_index(ks, os, k, o) implies
        sample_in_index(ks.push(k2), os.push(o2), k, o) by {
        let i = choose|i: int|
            0 <= i < ks.len() && i < os.len() && ks[i] == k && os[i] as int == o;
        assert(ks.push(k2)[i] == k);
        assert(os.push(o2)[i] as int == o);
    }
}

/// One sampled line extends both honesty and completeness of the index.
proof fn lemma_index_step_sampled(
    ls: Seq<Seq<char>>,
    ks: Seq<Seq<char>>,
    os: Seq<u64>,
    k: Seq<char>,
    o: u64,
    j: int,
    stride: int,
)
    requires
        ks.len() == os.len(),
        entry_from_line(ls, j, k, o as int),
        index_honest(ls, ks, os),
        forall|jj: int|
            0 <= jj < j && is_sampled_line(jj, stride) && decodable(#[trigger] ls[jj])
                ==> sample_in_index(ks, os, decoded_key(ls[jj]), line_start(ls, jj)),
    ensures
        index_honest(ls, ks.push(k), os.push(o)),
        forall|jj: int|
            0 <= jj <= j && is_sampled_line(jj, stride) && decodable(#[trigger] ls[jj])
                ==> sample_in_index(ks.push(k), os.push(o), decoded_key(ls[jj]), line_start(ls, jj)),
{
    lemma_index_honest_push(ls, ks, os, k, o, j);
    lemma_sample_in_index_push(ks, os, k, o);
    let ks2 = ks.push(k);
    let os2 = os.push(o);
    assert forall|jj: int|
        0 <= jj <= j && is_sampled_line(jj, stride) && decodable(#[trigger] ls[jj]) implies
        sample_in_index(ks2, os2, decoded_key(ls[jj]), line_start(ls, jj)) by {
        if jj < j {
            assert(sample_in_index(ks, os, decoded_key(ls[jj]), line_start(ls, jj)));
        } else {
            assert(ks2[ks.len() as int] == k);
            assert(os2[ks.len() as int] == o);
            assert(sample_in_index(ks2, os2, k, o as int));
        }
    }
}

/// Appending one honest entry keeps an index honest.
proof fn lemma_index_honest_push(
    ls: Seq<Seq<char>>,
    ks: Seq<Seq<char>>,
    os: Seq<u64>,
    k: Seq<char>,
    o: u64,
    j: int,
)
    requires
        index_honest(ls, ks, os),
        ks.len() == os.len(),
        entry_from_line(ls, j, k, o as int),
    ensures
        index_honest(ls, ks.push(k), os.push(o)),
{
    let ks2 = ks.push(k);
    let os2 = os.push(o);
    assert forall|i: int| #![trigger ks2[i]] 0 <= i < ks2.len() implies has_entry_line(
        ls,
        ks2[i],
        os2[i],
    ) by {
        if i < ks.len() {
            assert(ks2[i] == ks[i]);
            assert(os2[i] == os[i]);
            assert(has_entry_line(ls, ks[i], os[i]));
        } else {
            assert(ks2[i] == k);
            assert(os2[i] == o);
            assert(entry_from_line(ls, j, k, o as int));
            assert(has_entry_line(ls, ks2[i], os2[i]));
        }
    }
}

/// One immutable sorted run of records.
pub struct Segment {
    lines: Vec<String>,
    starts: Vec<u64>,
    filter: bloom::BloomFilter,
    index: SparseIndex,
    generation: u64,
}

impl Segment {
    /// The lines of the segment file, in file order.
    pub closed spec fn line_seq(self) -> Seq<Seq<char>> {
        self.lines.deep_view()
    }

    /// The records of the segment, in ascending key order.
    pub open spec fn records(self) -> Seq<(Seq<char>, Seq<char>)> {
        records_of_lines(self.line_seq())
    }

    /// The generation number the segment's file name encodes.
    pub closed spec fn generation_spec(self) -> u64 {
        self.generation
    }

    /// The set of keys recorded in the membership filter.
    pub closed spec fn filter_key_set(self) -> Set<Seq<char>> {
        filter_keys(self.filter)
    }

    /// The sampled keys of the sparse index.
    pub closed spec fn index_keys(self) -> Seq<Seq<char>> {
        self.index.key_seq()
    }

    /// The sampled offsets of the sparse index.
    pub closed spec fn index_offsets(self) -> Seq<u64> {
        self.index.offset_seq()
    }

    /// The character offset at which the record at position `p` begins.
    pub open spec fn record_offset(self, p: int) -> int {
        line_start(self.line_seq(), record_lines(self.line_seq())[p])
    }

    pub closed spec fn wf(self) -> bool {
        let ls = self.line_seq();
        &&& self.starts@.len() == ls.len()
        &&& forall|j: int| 0 <= j < ls.len() ==> (#[trigger] self.starts@[j]) as int == line_start(
            ls,
            j,
        )
        &&& forall|j: int, p: int|
            0 <= j < ls.len() && 0 <= p < ls[j].len() ==> #[trigger] ls[j][p] != '\n'
        &&& lines_sorted(ls)
        &&& forall|j: int|
            0 <= j < ls.len() && decodable(#[trigger] ls[j]) ==> filter_keys(
                self.filter,
            ).contains(decoded_key(ls[j]))
        &&& filter_bits(self.filter) >= 1
        &&& self.index.wf()
        &&& index_honest(ls, self.index.key_seq(), self.index.offset_seq())
    }

    /// Build a segment from the text of its file.  One scan builds the
    /// membership filter and the sparse index while checking that the
    /// records ascend strictly by key; a file out of order is reported as
    /// corrupt.  Lines that do not decode are skipped but still counted
    /// toward offsets.
    #[verifier::rlimit(100)]
    pub fn new(text: String, generation: u64, config: &Config) -> (r: Result<Segment, SegmentError>)
        requires
            config.valid(),
        ensures
            r is Ok <==> lines_sorted(split_lines(text@)),
            r matches Ok(seg) ==> seg.wf() && seg.line_seq() == split_lines(text@)
                && seg.generation_spec() == generation,
            r matches Ok(seg) ==> index_complete(
                seg.line_seq(),
                seg.index_keys(),
                seg.index_offsets(),
                config.sparse_index_range_size as int,
            ),
    {
        let total = text.as_str().unicode_len();
        let lines = split_into_lines(text.as_str());
        let ghost ls = lines.deep_view();
        proof {
            lemma_split_lines_size(text@);
            lemma_split_lines_no_nl(text@);
        }
        let m = lines.len();
        let num_bits = match m.checked_mul(config.bloom_filter_bits_per_record) {
            Some(b) => if b == 0 {
                1
            } else {
                b
            },
            None => usize::MAX,
        };
        let mut filter = filter_new(num_bits, config.bloom_filter_num_hashes);
        let mut index = SparseIndex::new();
        let mut starts: Vec<u64> = Vec::new();
        let mut offset: u64 = 0;
        let mut last_key: String = String::new();
        let mut have_last = false;
        let mut j: usize = 0;
        loop
            invariant
                0 <= j <= m,
                m == ls.len(),
                config.valid(),
                ls == lines.deep_view(),
                ls == split_lines(text@),
                total == text@.len(),
                forall|jj: int|
                    0 <= jj < m ==> line_start(ls, jj) + (#[trigger] ls[jj]).len() <= total,
                forall|jj: int, p: int|
                    0 <= jj < m && 0 <= p < ls[jj].len() ==> #[trigger] ls[jj][p] != '\n',
                starts@.len() == j,
                forall|p: int| 0 <= p < j ==> (#[trigger] starts@[p]) as int == line_start(ls, p),
                j < m ==> offset as int == line_start(ls, j as int),
                forall|j1: int, j2: int|
                    0 <= j1 < j2 < j && decodable(#[trigger] ls[j1]) && decodable(
                        #[trigger] ls[j2],
                    ) ==> lex_lt(decoded_key(ls[j1]), decoded_key(ls[j2])),
                have_last ==> exists|jl: int|
                    0 <= jl < j && decodable(#[trigger] ls[jl]) && last_key@ == decoded_key(
                        ls[jl],
                    ),
                forall|jj: int|
                    0 <= jj < j && decodable(#[trigger] ls[jj]) ==> have_last && lex_le(
                        decoded_key(ls[jj]),
                        last_key@,
                    ),
                forall|jj: int|
                    0 <= jj < j && decodable(#[trigger] ls[jj]) ==> filter_keys(filter).contains(
                        decoded_key(ls[jj]),
                    ),
                filter_bits(filter) >= 1,
                index.wf(),
                index.key_seq().len() == index.offset_seq().len(),
                index_honest(ls, index.key_seq(), index.offset_seq()),
                forall|jj: int|
                    0 <= jj < j && is_sampled_line(jj, config.sparse_index_range_size as int)
                        && decodable(#[trigger] ls[jj]) ==> sample_in_index(
                        index.key_seq(),
                        index.offset_seq(),
                        decoded_key(ls[jj]),
                        line_start(ls, jj),
                    ),
                index.key_seq().len() > 0 ==> have_last && lex_le(
                    index.key_seq().last(),
                    last_key@,
                ),
            ensures
                j == m,
                starts@.len() == m,
                forall|p: int| 0 <= p < m ==> (#[trigger] starts@[p]) as int == line_start(ls, p),
                lines_sorted(ls),
                forall|jj: int|
                    0 <= jj < m && decodable(#[trigger] ls[jj]) ==> filter_keys(filter).contains(
                        decoded_key(ls[jj]),
                    ),
                filter_bits(filter) >= 1,
                index.wf(),
                index_honest(ls, index.key_seq(), index.offset_seq()),
                index_complete(
                    ls,
                    index.key_seq(),
                    index.offset_seq(),
                    config.sparse_index_range_size as int,
                ),
                ls == lines.deep_view(),
            decreases m - j,
        {
            if j == m {
                break ;
            }
            starts.push(offset);
            let ghost line_view = ls[j as int];
            proof {
                assert(lines.deep_view()[j as int] == lines@[j as int]@);
            }
            match Assignment::from_str(lines[j].as_str()) {
                Ok(a) => {
                    if have_last {
                        if !str_lt(last_key.as_str(), a.key.as_str()) {
                            proof {
                                let jl = choose|jl: int|
                                    0 <= jl < j && decodable(#[trigger] ls[jl]) && last_key@
                                        == decoded_key(ls[jl]);
                                assert(decodable(ls[j as int]));
                                assert(!lex_lt(decoded_key(ls[jl]), decoded_key(ls[j as int])));
                                assert(!lines_sorted(ls));
                            }
                            return Err(SegmentError::OutOfOrder);
                        }
                    }
                    filter_insert(&mut filter, a.key.as_str());
                    let sampled = j % config.sparse_index_range_size == 0;
                    proof {
                        reveal(is_sampled_line);
                        assert(sampled == is_sampled_line(
                            j as int,
                            config.sparse_index_range_size as int,
                        ));
                    }
                    if sampled {
                        let ghost old_ks = index.key_seq();
                        let ghost old_os = index.offset_seq();
                        proof {
                            if index.key_seq().len() > 0 {
                                lemma_lex_le_lt_trans(index.key_seq().last(), last_key@, a.key@);
                            }
                        }
                        index.insert(a.key.as_str(), offset);
                        proof {
                            assert(entry_from_line(ls, j as int, a.key@, offset as int));
                            lemma_index_step_sampled(
                                ls,
                                old_ks,
                                old_os,
                                a.key@,
                                offset,
                                j as int,
                                config.sparse_index_range_size as int,
                            );
                        }
                    } else {
                        proof {
                            if index.key_seq().len() > 0 {
                                lemma_lex_le_lt_trans(index.key_seq().last(), last_key@, a.key@);
                            }
                        }
                    }
                    proof {
                        assert forall|jj: int|
                            0 <= jj < j + 1 && decodable(#[trigger] ls[jj]) implies lex_le(
                            decoded_key(ls[jj]),
                            a.key@,
                        ) by {
                            if jj < j {
                                lemma_lex_le_lt_trans(decoded_key(ls[jj]), last_key@, a.key@);
                            }
                        }
                        assert forall|j1: int, j2: int|
                            0 <= j1 < j2 < j + 1 && decodable(#[trigger] ls[j1]) && decodable(
                                #[trigger] ls[j2],
                            ) implies lex_lt(decoded_key(ls[j1]), decoded_key(ls[j2])) by {
                            if j2 == j {
                                lemma_lex_le_lt_trans(decoded_key(ls[j1]), last_key@, a.key@);
                            }
                        }
                    }
                    last_key = a.key;
                    have_last = true;
                },
                Err(_) => {},
            }
            let llen = lines[j].as_str().unicode_len();
            if j + 1 < m {
                proof {
                    assert(line_start(ls, j + 1) == line_start(ls, j as int) + ls[j as int].len()
                        + 1);
                    assert(line_start(ls, j + 1) + ls[j + 1].len() <= total);
                }
                offset = offset + llen as u64 + 1;
            }
            j = j + 1;
        }
        let seg = Segment { lines, starts, filter, index, generation };
        Ok(seg)
    }

    /// The range the sparse index yields for a key covers the offset of
    /// that key's record, when the segment holds one.
    proof fn lemma_range_covers(self, j: int)
        requires
            self.wf(),
            0 <= j < self.line_seq().len(),
            decodable(self.line_seq()[j]),
        ensures
            ({
                let ls = self.line_seq();
                let k = decoded_key(ls[j]);
                let i = sample_idx(self.index_keys(), k);
                &&& (if i >= 0 {
                    self.index_offsets()[i] as int
                } else {
                    0
                }) <= line_start(ls, j)
                &&& i + 1 < self.index_keys().len() ==> line_start(ls, j) < self.index_offsets()[i
                    + 1] as int
            }),
    {
        let ls = self.line_seq();
        let k = decoded_key(ls[j]);
        let ks = self.index.key_seq();
        assert(ks == self.index_keys());
        let i = sample_idx(ks, k);
        lemma_sample_idx_bounds(ks, k);
        lemma_line_start_mono(ls, 0, j);
        assert(index_honest(ls, self.index.key_seq(), self.index.offset_seq()));
        if i >= 0 {
            let k0 = self.index.key_seq()[i];
            let o0 = self.index.offset_seq()[i] as int;
            assert(has_entry_line(ls, k0, self.index.offset_seq()[i]));
            let ji = choose|ji: int| entry_from_line(ls, ji, k0, o0);
            assert(lex_le(ks[i], k));
            if ji > j {
                assert(lex_lt(decoded_key(ls[j]), decoded_key(ls[ji])));
                lemma_lex_le_lt_trans(decoded_key(ls[ji]), k, decoded_key(ls[ji]));
                lemma_lex_trichotomy(decoded_key(ls[ji]), decoded_key(ls[ji]));
            }
            lemma_line_start_mono(ls, ji, j);
        }
        if i + 1 < ks.len() {
            let k1 = self.index.key_seq()[i + 1];
            let o1 = self.index.offset_seq()[i + 1] as int;
            assert(has_entry_line(ls, k1, self.index.offset_seq()[i + 1]));
            let jn = choose|jn: int| entry_from_line(ls, jn, k1, o1);
            assert(lex_lt(k, ks[i + 1]));
            if jn < j {
                assert(lex_lt(decoded_key(ls[jn]), decoded_key(ls[j])));
                lemma_lex_transitive(k, decoded_key(ls[jn]), k);
                lemma_lex_trichotomy(k, k);
            }
            if jn == j {
                lemma_lex_trichotomy(k, k);
            }
            lemma_line_start_mono(ls, j, jn);
        }
    }

    /// Point lookup: the value the segment binds to the key, if any.  The
    /// answer is exact even though the filter may report false positives,
    /// since a positive answer is always verified against the records.
    pub fn get(&self, key: &str) -> (r: Option<String>)
        requires
            self.wf(),
        ensures
            r matches Some(v) ==> lookup(self.records(), key@) == Some(v@),
            r is None ==> lookup(self.records(), key@) is None,
    {
        let ghost ls = self.line_seq();
        let ghost recs = self.records();
        proof {
            lemma_record_lines(ls);
            lemma_lines_sorted_records(ls);
        }
        if !filter_contains(&self.filter, key) {
            proof {
                assert forall|p: int| 0 <= p < recs.len() implies (#[trigger] recs[p]).0
                    != key@ by {
                    let jr = record_lines(ls)[p];
                    assert(filter_keys(self.filter).contains(decoded_key(ls[jr])));
                }
                lemma_lookup_absent(recs, key@);
            }
            return None;
        }
        let key_string = key.to_owned();
        let rng = self.index.get_byte_range(&key_string);
        let m = self.lines.len();
        let mut j: usize = 0;
        loop
            invariant
                0 <= j <= m,
                m == ls.len(),
                self.wf(),
                ls == self.line_seq(),
                forall|p: int| 0 <= p < j ==> (#[trigger] self.starts@[p]) < rng.start,
            ensures
                0 <= j <= m,
                forall|p: int| 0 <= p < j ==> (#[trigger] self.starts@[p]) < rng.start,
                j < m ==> self.starts@[j as int] >= rng.start,
            decreases m - j,
        {
            if j == m {
                break ;
            }
            if self.starts[j] >= rng.start {
                break ;
            }
            j = j + 1;
        }
        let ghost j_skip = j as int;
        loop
            invariant
                j_skip <= j <= m,
                m == ls.len(),
                self.wf(),
                ls == self.line_seq(),
                recs == self.records(),
                forall|p: int| 0 <= p < j_skip ==> (#[trigger] self.starts@[p]) < rng.start,
                forall|p: int|
                    j_skip <= p < j && decodable(#[trigger] ls[p]) ==> decoded_key(ls[p]) != key@,
            ensures
                j_skip <= j <= m,
                forall|p: int|
                    j_skip <= p < j && decodable(#[trigger] ls[p]) ==> decoded_key(ls[p]) != key@,
                j < m ==> (rng.end matches Some(e) && self.starts@[j as int] >= e),
            decreases m - j,
        {
            if j == m {
                break ;
            }
            let stop = match rng.end {
                Some(e) => self.starts[j] >= e,
                None => false,
            };
            if stop {
                break ;
            }
            match Assignment::from_str(self.lines[j].as_str()) {
                Ok(a) => {
                    proof {
                        assert(ls[j as int] == self.lines@[j as int]@);
                    }
                    match str_cmp(a.key.as_str(), key) {
                        Ordering::Equal => {
                            proof {
                                lemma_record_lines(ls);
                                lemma_lines_sorted_records(ls);
                                assert(decodable(ls[j as int]));
                                assert(decoded_key(ls[j as int]) == key@);
                                let p = choose|p: int|
                                    0 <= p < record_lines(ls).len() && record_lines(ls)[p]
                                        == j as int;
                                assert(recs[p] == (key@, a.value@));
                                lemma_lookup_index(recs, p);
                            }
                            return Some(a.value);
                        },
                        _ => {
                            proof {
                                lemma_lex_trichotomy(a.key@, key@);
                            }
                        },
                    }
                },
                Err(_) => {},
            }
            j = j + 1;
        }
        proof {
            let ghost j_end = j as int;
            assert forall|p: int| 0 <= p < recs.len() implies (#[trigger] recs[p]).0 != key@ by {
                let jr = record_lines(ls)[p];
                if recs[p].0 == key@ {
                    assert(decodable(ls[jr]) && decoded_key(ls[jr]) == key@);
                    self.lemma_range_covers(jr);
                    assert(self.starts@[jr] as int == line_start(ls, jr));
                    if jr < j_skip {
                        let i = sample_idx(self.index_keys(), key@);
                        assert(self.starts@[jr] < rng.start);
                        assert(rng.start as int <= line_start(ls, jr));
                    } else if jr >= j_end {
                        assert(j_end < m);
                        match rng.end {
                            Some(e) => {
                                assert(self.starts@[j_end] >= e);
                                lemma_line_start_mono(ls, j_end, jr);
                                assert(self.starts@[jr] as int >= e);
                                let i = sample_idx(self.index_keys(), key@);
                                assert(i + 1 < self.index_keys().len());
                                assert(line_start(ls, jr) < self.index_offsets()[i + 1] as int);
                            },
                            None => {},
                        }
                    }
                }
            }
            lemma_lookup_absent(recs, key@);
        }
        None
    }

    /// The generation number the segment's file name encodes.
    pub fn generation(&self) -> (r: u64)
        ensures
            r == self.generation_spec(),
    {
        self.generation
    }

    /// The records of the segment as owned values, in ascending key order.
    pub fn records_vec(&self) -> (r: Vec<(String, String)>)
        requires
            self.wf(),
        ensures
            r.deep_view() == self.records(),
    {
        let ghost ls = self.line_seq();
        let m = self.lines.len();
        let mut recs: Vec<(String, String)> = Vec::new();
        let mut j: usize = 0;
        proof {
            assert(ls.subrange(0, 0) =~= Seq::<Seq<char>>::empty());
            assert(recs.deep_view() =~= Seq::<(Seq<char>, Seq<char>)>::empty());
        }
        while j < m
            invariant
                0 <= j <= m,
                m == ls.len(),
                ls == self.line_seq(),
                recs.deep_view() == records_of_lines(ls.subrange(0, j as int)),
            decreases m - j,
        {
            let ghost prefix = ls.subrange(0, j as int);
            let ghost prev = recs.deep_view();
            match Assignment::from_str(self.lines[j].as_str()) {
                Ok(a) => {
                    proof {
                        assert(ls[j as int] == self.lines@[j as int]@);
                    }
                    recs.push((a.key, a.value));
                },
                Err(_) => {
                    proof {
                        assert(ls[j as int] == self.lines@[j as int]@);
                    }
                },
            }
            proof {
                let next = ls.subrange(0, j + 1);
                assert(next.drop_last() =~= prefix);
                assert(next.last() == ls[j as int]);
                if decodable(ls[j as int]) {
                    assert(recs.deep_view() =~= prev.push(
                        (decoded_key(ls[j as int]), decoded_value(ls[j as int])),
                    ));
                }
            }
            j = j + 1;
        }
        proof {
            assert(ls.subrange(0, m as int) =~= ls);
        }
        recs
    }
}

/// The records of a well-formed segment ascend strictly by key and can
/// stand in encoded lines again.
pub proof fn lemma_segment_records(seg: Segment)
    requires
        seg.wf(),
    ensures
        entries_sorted(seg.records()),
        crate::records::entries_valid(seg.records()),
{
    lemma_lines_sorted_records(seg.line_seq());
    crate::lines::lemma_records_valid(seg.line_seq());
}

/// Every key present in a segment is reported present by the membership
/// filter: a negative filter answer is authoritative.
pub proof fn lemma_no_false_negatives(seg: Segment, p: int)
    requires
        seg.wf(),
        0 <= p < seg.records().len(),
    ensures
        seg.filter_key_set().contains(seg.records()[p].0),
{
    lemma_record_lines(seg.line_seq());
    let ls = seg.line_seq();
    let j = record_lines(ls)[p];
    assert(decodable(ls[j]));
    assert(seg.records()[p] == (decoded_key(ls[j]), decoded_value(ls[j])));
}

/// For every key present in a segment, the byte range the sparse index
/// yields for that key contains the offset of the key's record.
pub proof fn lemma_range_soundness(seg: Segment, p: int)
    requires
        seg.wf(),
        0 <= p < seg.records().len(),
    ensures
        ({
            let k = seg.records()[p].0;
            let i = sample_idx(seg.index_keys(), k);
            &&& (if i >= 0 {
                seg.index_offsets()[i] as int
            } else {
                0
            }) <= seg.record_offset(p)
            &&& i + 1 < seg.index_keys().len() ==> seg.record_offset(p) < seg.index_offsets()[i
                + 1] as int
        }),
{
    lemma_record_lines(seg.line_seq());
    let j = record_lines(seg.line_seq())[p];
    seg.lemma_range_covers(j);
}

} // verus!
