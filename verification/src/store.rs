//! The store: the ordered list of segments, oldest first.  Reads scan the
//! segments newest to oldest, so the most recently flushed value for a key
//! wins.  The list changes in two ways only: a flush appends a new segment,
//! and one compaction cycle replaces the two oldest segments with their
//! merge.  At startup the segments are ordered by their embedded generation
//! numbers, never by the order in which their files were found.

use vstd::prelude::*;
use vstd::multiset::Multiset;
use vstd::pervasive::unreached;
use crate::compaction::{merged, merge_records, lemma_merge_correct, lemma_merge_valid};
use crate::config::Config;
use crate::lines::{
    split_lines, lines_sorted, encode_all, encode_records, lemma_encode_all_records,
};
use crate::memtable::Memtable;
use crate::records::lookup;
use crate::segment::{Segment, SegmentError, lemma_segment_records};

verus! {

/// The contents of one segment file, as read from or written to disk: the
/// generation number its name encodes, and its full text.
pub struct SegmentFile {
    pub generation: u64,
    pub text: String,
}

/// What one compaction cycle produced: the generations of the two merged
/// segments (the newer one names the merged file) and the merged text.
pub struct CompactionOutcome {
    pub older_generation: u64,
    pub newer_generation: u64,
    pub text: String,
}

/// Construction arguments for the store's background compaction.
pub struct StoreArgs {
    pub compaction_enabled: bool,
    pub compaction_interval_seconds: u64,
}

impl Default for StoreArgs {
    fn default() -> (r: Self)
        ensures
            r.compaction_enabled == true,
            r.compaction_interval_seconds == 600,
    {
        Self { compaction_enabled: true, compaction_interval_seconds: 600 }
    }
}

/// The value the segments bind to `k`, scanning newest to oldest.
pub open spec fn segs_lookup(segs: Seq<Segment>, k: Seq<char>) -> Option<Seq<char>>
    decreases segs.len(),
{
    if segs.len() == 0 {
        None
    } else {
        match lookup(segs.last().records(), k) {
            Some(v) => Some(v),
            None => segs_lookup(segs.drop_last(), k),
        }
    }
}

/// What a segment looks like on disk: its generation and its lines.
pub open spec fn seg_view(s: Segment) -> (u64, Seq<Seq<char>>) {
    (s.generation_spec(), s.line_seq())
}

pub open spec fn seg_views(segs: Seq<Segment>) -> Seq<(u64, Seq<Seq<char>>)> {
    segs.map_values(|s: Segment| seg_view(s))
}

/// The ordered segment list.
pub struct Store {
    segments: Vec<Segment>,
    next_generation: u64,
    config: Config,
    compaction_enabled: bool,
    compaction_interval_seconds: u64,
}

/// Order a segment list by embedded generation number, preserving the
/// multiset of segment contents.
fn sort_segments(src: Vec<Segment>) -> (r: Vec<Segment>)
    requires
        forall|i: int| 0 <= i < src@.len() ==> (#[trigger] src@[i]).wf(),
    ensures
        r@.len() == src@.len(),
        forall|i: int| 0 <= i < r@.len() ==> (#[trigger] r@[i]).wf(),
        forall|i: int, j: int|
            0 <= i < j < r@.len() ==> r@[i].generation_spec() <= r@[j].generation_spec(),
        seg_views(r@).to_multiset() == seg_views(src@).to_multiset(),
        forall|i: int| 0 <= i < r@.len() ==> seg_views(src@).contains(seg_view(#[trigger] r@[i])),
{
    let ghost orig = seg_views(src@).to_multiset();
    let ghost srcv = seg_views(src@);
    let mut rest = src;
    let mut out: Vec<Segment> = Vec::new();
    proof {
        broadcast use vstd::seq_lib::group_to_multiset_ensures;

        assert(seg_views(out@) =~= Seq::<(u64, Seq<Seq<char>>)>::empty());
        assert(seg_views(out@).to_multiset().add(seg_views(rest@).to_multiset()) =~= orig);
        assert forall|p: int| 0 <= p < rest@.len() implies srcv.contains(
            seg_view(#[trigger] rest@[p]),
        ) by {
            assert(srcv[p] == seg_view(rest@[p]));
        }
    }
    loop
        invariant
            srcv == seg_views(src@),
            forall|i: int| 0 <= i < rest@.len() ==> (#[trigger] rest@[i]).wf(),
            forall|i: int| 0 <= i < out@.len() ==> (#[trigger] out@[i]).wf(),
            forall|p: int| 0 <= p < rest@.len() ==> srcv.contains(seg_view(#[trigger] rest@[p])),
            forall|p: int| 0 <= p < out@.len() ==> srcv.contains(seg_view(#[trigger] out@[p])),
            forall|i: int, j: int|
                0 <= i < j < out@.len() ==> out@[i].generation_spec() <= out@[j].generation_spec(),
            forall|i: int, j: int|
                0 <= i < out@.len() && 0 <= j < rest@.len() ==> out@[i].generation_spec()
                    <= rest@[j].generation_spec(),
            seg_views(out@).to_multiset().add(seg_views(rest@).to_multiset()) == orig,
            out@.len() + rest@.len() == orig.len(),
        ensures
            rest@.len() == 0,
            forall|i: int| 0 <= i < out@.len() ==> (#[trigger] out@[i]).wf(),
            forall|p: int| 0 <= p < out@.len() ==> srcv.contains(seg_view(#[trigger] out@[p])),
            forall|i: int, j: int|
                0 <= i < j < out@.len() ==> out@[i].generation_spec() <= out@[j].generation_spec(),
            seg_views(out@).to_multiset() == orig,
            out@.len() == orig.len(),
        decreases rest@.len(),
    {
        if rest.len() == 0 {
            proof {
                broadcast use vstd::seq_lib::group_to_multiset_ensures;

                assert(seg_views(rest@).len() == 0);
                vstd::multiset::lemma_multiset_empty_len(seg_views(rest@).to_multiset());
                assert(seg_views(rest@).to_multiset() =~= Multiset::<(u64, Seq<Seq<char>>)>::empty());
                assert(seg_views(out@).to_multiset().add(seg_views(rest@).to_multiset())
                    =~= seg_views(out@).to_multiset());
            }
            break ;
        }
        let mut min: usize = 0;
        let mut i: usize = 1;
        while i < rest.len()
            invariant
                0 <= min < i <= rest@.len(),
                forall|j: int|
                    0 <= j < i ==> rest@[min as int].generation_spec() <= (
                    #[trigger] rest@[j]).generation_spec(),
            decreases rest@.len() - i,
        {
            if rest[i].generation() < rest[min].generation() {
                min = i;
            }
            i = i + 1;
        }
        let ghost old_rest = rest@;
        let ghost old_out = out@;
        let picked = rest.remove(min);
        out.push(picked);
        proof {
            broadcast use vstd::seq_lib::group_to_multiset_ensures;

            assert(seg_views(rest@) =~= seg_views(old_rest).remove(min as int));
            assert(seg_views(out@) =~= seg_views(old_out).push(seg_view(picked)));
            assert(seg_views(old_rest)[min as int] == seg_view(picked));
            assert(seg_views(rest@).to_multiset() =~= seg_views(old_rest).to_multiset().remove(
                seg_view(picked),
            ));
            assert(seg_views(out@).to_multiset() =~= seg_views(old_out).to_multiset().insert(
                seg_view(picked),
            ));
            assert(seg_views(old_rest).to_multiset().count(seg_view(picked)) > 0);
            assert(seg_views(out@).to_multiset().add(seg_views(rest@).to_multiset()) =~= orig);
            assert forall|p: int| 0 <= p < rest@.len() implies srcv.contains(
                seg_view(#[trigger] rest@[p]),
            ) by {
                if p < min {
                    assert(rest@[p] == old_rest[p]);
                } else {
                    assert(rest@[p] == old_rest[p + 1]);
                }
            }
            assert(srcv.contains(seg_view(picked)));
        }
    }
    out
}

impl Store {
    /// The segments, oldest first.
    pub closed spec fn seg_seq(self) -> Seq<Segment> {
        self.segments@
    }

    /// The generation number the next flushed segment will carry.
    pub closed spec fn next_gen_spec(self) -> u64 {
        self.next_generation
    }

    pub closed spec fn config_spec(self) -> Config {
        self.config
    }

    /// Whether a background compaction loop should run, as given at
    /// construction.
    pub closed spec fn compaction_enabled_spec(self) -> bool {
        self.compaction_enabled
    }

    /// The configured compaction period in seconds, as given at
    /// construction.
    pub closed spec fn compaction_interval_spec(self) -> u64 {
        self.compaction_interval_seconds
    }

    pub open spec fn wf(self) -> bool {
        &&& forall|i: int| 0 <= i < self.seg_seq().len() ==> (#[trigger] self.seg_seq()[i]).wf()
        &&& self.config_spec().valid()
        &&& self.next_gen_spec() == u64::MAX || (forall|i: int|
            0 <= i < self.seg_seq().len() ==> (#[trigger] self.seg_seq()[i]).generation_spec()
                < self.next_gen_spec())
    }

    /// Build a store from the segment files found at startup.  The
    /// segments are ordered by their embedded generation numbers, and a
    /// file whose records are out of order is reported as corrupt.
    pub fn new(args: StoreArgs, config: Config, loaded: Vec<SegmentFile>) -> (r: Result<
        Store,
        SegmentError,
    >)
        requires
            config.valid(),
        ensures
            r is Ok <==> (forall|i: int|
                0 <= i < loaded@.len() ==> lines_sorted(
                    split_lines((#[trigger] loaded@[i]).text@),
                )),
            r matches Ok(store) ==> {
                &&& store.wf()
                &&& store.seg_seq().len() == loaded@.len()
                &&& forall|i: int, j: int|
                    0 <= i < j < store.seg_seq().len() ==> store.seg_seq()[i].generation_spec()
                        <= store.seg_seq()[j].generation_spec()
                &&& seg_views(store.seg_seq()).to_multiset() == loaded@.map_values(
                    |f: SegmentFile| (f.generation, split_lines(f.text@)),
                ).to_multiset()
                &&& store.config_spec() == config
                &&& store.compaction_enabled_spec() == args.compaction_enabled
                &&& store.compaction_interval_spec() == args.compaction_interval_seconds
            },
    {
        let n = loaded.len();
        let mut built: Vec<Segment> = Vec::new();
        let mut next_generation: u64 = 0;
        let mut idx: usize = 0;
        let ghost lv = loaded@;
        while idx < n
            invariant
                0 <= idx <= n,
                n == lv.len(),
                lv == loaded@,
                config.valid(),
                built@.len() == idx,
                forall|i: int|
                    0 <= i < idx ==> (#[trigger] built@[i]).wf() && seg_view(built@[i]) == (
                    lv[i].generation, split_lines(lv[i].text@)),
                forall|i: int| 0 <= i < idx ==> lines_sorted(split_lines(lv[i].text@)),
                next_generation == u64::MAX || (forall|i: int|
                    0 <= i < idx ==> (#[trigger] lv[i]).generation < next_generation),
            decreases n - idx,
        {
            let file = &loaded[idx];
            let generation = file.generation;
            match Segment::new(file.text.clone(), generation, &config) {
                Ok(seg) => {
                    built.push(seg);
                },
                Err(e) => {
                    return Err(e);
                },
            }
            if generation >= next_generation {
                if generation == u64::MAX {
                    next_generation = u64::MAX;
                } else {
                    next_generation = generation + 1;
                }
            }
            idx = idx + 1;
        }
        let segments = sort_segments(built);
        proof {
            assert(seg_views(built@) =~= lv.map_values(
                |f: SegmentFile| (f.generation, split_lines(f.text@)),
            ));
            if next_generation != u64::MAX {
                assert forall|i: int| 0 <= i < segments@.len() implies (
                #[trigger] segments@[i]).generation_spec() < next_generation by {
                    assert(seg_views(built@).contains(seg_view(segments@[i])));
                    let p = choose|p: int|
                        0 <= p < seg_views(built@).len() && seg_views(built@)[p] == seg_view(
                            segments@[i],
                        );
                    assert(seg_views(built@)[p] == seg_view(built@[p]));
                    assert(built@[p].generation_spec() == lv[p].generation);
                }
            }
        }
        Ok(
            Store {
                segments,
                next_generation,
                config,
                compaction_enabled: args.compaction_enabled,
                compaction_interval_seconds: args.compaction_interval_seconds,
            },
        )
    }

    /// Whether a background compaction loop should run for this store.
    pub fn compaction_enabled(&self) -> (r: bool)
        ensures
            r == self.compaction_enabled_spec(),
    {
        self.compaction_enabled
    }

    /// How often the background compaction loop should run, in seconds.
    pub fn compaction_interval_seconds(&self) -> (r: u64)
        ensures
            r == self.compaction_interval_spec(),
    {
        self.compaction_interval_seconds
    }

    /// The value the store binds to the key, newest segment first.
    pub fn get(&self, key: &str) -> (r: Option<String>)
        requires
            self.wf(),
        ensures
            r matches Some(v) ==> segs_lookup(self.seg_seq(), key@) == Some(v@),
            r is None ==> segs_lookup(self.seg_seq(), key@) is None,
    {
        let ghost segs = self.seg_seq();
        let n = self.segments.len();
        let mut i: usize = n;
        proof {
            assert(segs.take(n as int) =~= segs);
        }
        while i > 0
            invariant
                0 <= i <= n,
                n == segs.len(),
                segs == self.seg_seq(),
                self.wf(),
                segs_lookup(segs, key@) == segs_lookup(segs.take(i as int), key@),
            decreases i,
        {
            let r = self.segments[i - 1].get(key);
            proof {
                assert(segs.take(i as int).last() == segs[i - 1]);
                assert(segs.take(i as int).drop_last() =~= segs.take(i - 1));
            }
            match r {
                Some(v) => {
                    return Some(v);
                },
                None => {},
            }
            i = i - 1;
        }
        proof {
            assert(segs.take(0) =~= Seq::<Segment>::empty());
        }
        None
    }

    /// Flush: write every memtable entry, already in ascending order, as a
    /// new segment appended to the list.  The returned file is what the
    /// caller persists.
    pub fn write_memtable(&mut self, memtable: &Memtable) -> (r: SegmentFile)
        requires
            old(self).wf(),
            memtable.wf(),
        ensures
            final(self).wf(),
            final(self).seg_seq().len() == old(self).seg_seq().len() + 1,
            forall|i: int|
                0 <= i < old(self).seg_seq().len() ==> #[trigger] final(self).seg_seq()[i] == old(
                    self,
                ).seg_seq()[i],
            final(self).seg_seq().last().records() == memtable.entry_seq(),
            final(self).seg_seq().last().line_seq() == split_lines(r.text@),
            final(self).seg_seq().last().generation_spec() == old(self).next_gen_spec(),
            final(self).next_gen_spec() >= old(self).next_gen_spec(),
            final(self).config_spec() == old(self).config_spec(),
            final(self).compaction_enabled_spec() == old(self).compaction_enabled_spec(),
            final(self).compaction_interval_spec() == old(self).compaction_interval_spec(),
            r.generation == old(self).next_gen_spec(),
            old(self).next_gen_spec() < u64::MAX ==> (forall|i: int|
                0 <= i < old(self).seg_seq().len() ==> (
                #[trigger] old(self).seg_seq()[i]).generation_spec() < r.generation),
            r.text@ == encode_all(memtable.entry_seq()),
            forall|k: Seq<char>|
                #[trigger] segs_lookup(final(self).seg_seq(), k) == (match lookup(
                    memtable.entry_seq(),
                    k,
                ) {
                    Some(v) => Some(v),
                    None => segs_lookup(old(self).seg_seq(), k),
                }),
    {
        let ghost old_segs = self.seg_seq();
        let entries = memtable.iter();
        let text = encode_records(entries);
        proof {
            lemma_encode_all_records(memtable.entry_seq());
        }
        let generation = self.next_generation;
        let seg = match Segment::new(text.clone(), generation, &self.config) {
            Ok(s) => s,
            Err(_) => unreached(),
        };
        self.segments.push(seg);
        if self.next_generation < u64::MAX {
            self.next_generation = self.next_generation + 1;
        }
        proof {
            assert(self.seg_seq().last().records() == memtable.entry_seq());
            assert(self.seg_seq().drop_last() =~= old_segs);
        }
        SegmentFile { generation, text }
    }

    /// One compaction cycle: merge the two oldest segments into one, which
    /// takes the newer one's generation, and splice it in their place.
    /// What any key resolves to is unchanged.  Returns what the caller
    /// must do on disk, or nothing when fewer than two segments exist.
    pub fn compact(&mut self) -> (r: Option<CompactionOutcome>)
        requires
            old(self).wf(),
        ensures
            final(self).wf(),
            final(self).config_spec() == old(self).config_spec(),
            final(self).next_gen_spec() == old(self).next_gen_spec(),
            final(self).compaction_enabled_spec() == old(self).compaction_enabled_spec(),
            final(self).compaction_interval_spec() == old(self).compaction_interval_spec(),
            old(self).seg_seq().len() < 2 ==> r is None && *final(self) == *old(self),
            old(self).seg_seq().len() >= 2 ==> {
                let a = old(self).seg_seq()[0];
                let b = old(self).seg_seq()[1];
                &&& final(self).seg_seq().len() == old(self).seg_seq().len() - 1
                &&& final(self).seg_seq()[0].records() == merged(a.records(), b.records())
                &&& final(self).seg_seq()[0].generation_spec() == b.generation_spec()
                &&& forall|i: int|
                    1 <= i < final(self).seg_seq().len() ==> #[trigger] final(self).seg_seq()[i]
                        == old(self).seg_seq()[i + 1]
                &&& r matches Some(out) && out.older_generation == a.generation_spec()
                    && out.newer_generation == b.generation_spec() && out.text@ == encode_all(
                    merged(a.records(), b.records()),
                )
            },
            forall|k: Seq<char>|
                #[trigger] segs_lookup(final(self).seg_seq(), k) == segs_lookup(
                    old(self).seg_seq(),
                    k,
                ),
    {
        if self.segments.len() < 2 {
            return None;
        }
        let ghost old_segs = self.seg_seq();
        let a_records = self.segments[0].records_vec();
        let b_records = self.segments[1].records_vec();
        proof {
            lemma_segment_records(old_segs[0]);
            lemma_segment_records(old_segs[1]);
            lemma_merge_correct(old_segs[0].records(), old_segs[1].records());
            lemma_merge_valid(old_segs[0].records(), old_segs[1].records());
        }
        let merged_records = merge_records(&a_records, &b_records);
        let text = encode_records(&merged_records);
        proof {
            lemma_encode_all_records(merged(old_segs[0].records(), old_segs[1].records()));
        }
        let older_generation = self.segments[0].generation();
        let newer_generation = self.segments[1].generation();
        let seg = match Segment::new(text.clone(), newer_generation, &self.config) {
            Ok(s) => s,
            Err(_) => unreached(),
        };
        self.segments.remove(0);
        self.segments.remove(0);
        self.segments.insert(0, seg);
        proof {
            assert(self.seg_seq().len() == old_segs.len() - 1);
            assert(forall|i: int|
                1 <= i < self.seg_seq().len() ==> #[trigger] self.seg_seq()[i] == old_segs[i + 1]);
            assert forall|k: Seq<char>|
                #[trigger] segs_lookup(self.seg_seq(), k) == segs_lookup(old_segs, k) by {
                lemma_segs_lookup_splice(old_segs, self.seg_seq(), k);
            }
        }
        Some(CompactionOutcome { older_generation, newer_generation, text })
    }
}

/// Replacing the two oldest segments by one that resolves keys the same
/// way leaves every lookup unchanged.
proof fn lemma_segs_lookup_splice(olds: Seq<Segment>, news: Seq<Segment>, k: Seq<char>)
    requires
        olds.len() >= 2,
        news.len() == olds.len() - 1,
        forall|i: int| 1 <= i < news.len() ==> #[trigger] news[i] == olds[i + 1],
        forall|kk: Seq<char>|
            #[trigger] lookup(news[0].records(), kk) == (match lookup(olds[1].records(), kk) {
                Some(v) => Some(v),
                None => lookup(olds[0].records(), kk),
            }),
    ensures
        segs_lookup(news, k) == segs_lookup(olds, k),
    decreases news.len(),
{
    if news.len() == 1 {
        assert(news.last() == news[0]);
        assert(news.drop_last() =~= Seq::<Segment>::empty());
        assert(olds.last() == olds[1]);
        assert(olds.drop_last() =~= seq![olds[0]]);
        assert(olds.drop_last().last() == olds[0]);
        assert(olds.drop_last().drop_last() =~= Seq::<Segment>::empty());
    } else {
        assert(news.last() == olds.last());
        let news1 = news.drop_last();
        let olds1 = olds.drop_last();
        assert(forall|i: int| 1 <= i < news1.len() ==> #[trigger] news1[i] == olds1[i + 1]);
        assert(news1[0] == news[0]);
        assert(olds1[0] == olds[0]);
        assert(olds1[1] == olds[1]);
        lemma_segs_lookup_splice(olds1, news1, k);
    }
}

} // verus!
