//! Splitting a segment file's text into lines, and reading the lines as
//! records.  A segment file holds one record per line; a line that does not
//! decode is skipped rather than surfacing an error (tolerant scanning).
//! Offsets into the file are counted in characters, one character per line
//! break.

use vstd::prelude::*;
use vstd::string::*;
use crate::codec::{decodable, decoded_key, decoded_value};
use crate::order::lex_lt;
use crate::records::entries_sorted;

verus! {

/// The index of the first line break in `t`, or `t.len()` when there is
/// none.
pub open spec fn first_nl(t: Seq<char>) -> int
    decreases t.len(),
{
    if t.len() == 0 {
        0
    } else if t[0] == '\n' {
        0
    } else {
        1 + first_nl(t.drop_first())
    }
}

pub proof fn lemma_first_nl(t: Seq<char>)
    ensures
        0 <= first_nl(t) <= t.len(),
        first_nl(t) < t.len() ==> t[first_nl(t)] == '\n',
        forall|j: int| 0 <= j < first_nl(t) ==> t[j] != '\n',
    decreases t.len(),
{
    if t.len() > 0 && t[0] != '\n' {
        lemma_first_nl(t.drop_first());
        assert forall|j: int| 0 <= j < first_nl(t) implies t[j] != '\n' by {
            if j > 0 {
                assert(t.drop_first()[j - 1] == t[j]);
            }
        }
    }
}

/// `first_nl` is pinned down by its characteristics.
pub proof fn lemma_first_nl_is(t: Seq<char>, k: int)
    requires
        0 <= k <= t.len(),
        forall|j: int| 0 <= j < k ==> t[j] != '\n',
        k < t.len() ==> t[k] == '\n',
    ensures
        first_nl(t) == k,
    decreases t.len(),
{
    if t.len() > 0 && t[0] != '\n' {
        let s = t.drop_first();
        assert(forall|j: int| 0 <= j < k - 1 ==> s[j] == t[j + 1]);
        lemma_first_nl_is(s, k - 1);
    }
}

/// The lines of `t`: maximal runs free of line breaks.  Text after the last
/// line break forms a final line only when it is non-empty, so a file whose
/// every line is terminated splits into exactly its lines.
pub open spec fn split_lines(t: Seq<char>) -> Seq<Seq<char>>
    decreases t.len(),
{
    if t.len() == 0 {
        Seq::<Seq<char>>::empty()
    } else {
        proof {
            lemma_first_nl(t);
        }
        let i = first_nl(t);
        if i == t.len() {
            seq![t]
        } else {
            seq![t.subrange(0, i)] + split_lines(t.subrange(i + 1, t.len() as int))
        }
    }
}

/// The character offset at which line `j` begins: every earlier line
/// contributes its length and one character for the line break.
pub open spec fn line_start(ls: Seq<Seq<char>>, j: int) -> int
    decreases j,
{
    if j <= 0 {
        0
    } else {
        line_start(ls, j - 1) + ls[j - 1].len() + 1
    }
}

/// Line starts grow strictly with the line index.
pub proof fn lemma_line_start_mono(ls: Seq<Seq<char>>, j1: int, j2: int)
    requires
        0 <= j1 <= j2,
    ensures
        line_start(ls, j1) <= line_start(ls, j2),
        j1 < j2 ==> line_start(ls, j1) < line_start(ls, j2),
    decreases j2 - j1,
{
    if j1 < j2 {
        lemma_line_start_mono(ls, j1, j2 - 1);
    }
}

proof fn lemma_line_start_shift(l0: Seq<char>, rest: Seq<Seq<char>>, j: int)
    requires
        0 <= j <= rest.len(),
    ensures
        line_start(seq![l0] + rest, j + 1) == l0.len() + 1 + line_start(rest, j),
    decreases j,
{
    let ls = seq![l0] + rest;
    assert(line_start(ls, j + 1) == line_start(ls, j) + ls[j].len() + 1);
    if j == 0 {
        assert(ls[0] == l0);
        assert(line_start(ls, 0) == 0);
        assert(line_start(rest, 0) == 0);
    } else {
        lemma_line_start_shift(l0, rest, j - 1);
        assert(ls[j] == rest[j - 1]);
        assert(line_start(rest, j) == line_start(rest, j - 1) + rest[j - 1].len() + 1);
    }
}

/// Every line lies inside its text: its start offset plus its length stays
/// within the text's length.
pub proof fn lemma_split_lines_size(t: Seq<char>)
    ensures
        forall|j: int|
            0 <= j < split_lines(t).len() ==> line_start(split_lines(t), j) + (
            #[trigger] split_lines(t)[j]).len() <= t.len(),
    decreases t.len(),
{
    if t.len() > 0 {
        lemma_first_nl(t);
        let i = first_nl(t);
        if i < t.len() {
            let l0 = t.subrange(0, i);
            let rest_t = t.subrange(i + 1, t.len() as int);
            let rest = split_lines(rest_t);
            lemma_split_lines_size(rest_t);
            assert forall|j: int|
                0 <= j < split_lines(t).len() implies line_start(split_lines(t), j) + (
            #[trigger] split_lines(t)[j]).len() <= t.len() by {
                if j == 0 {
                    assert(split_lines(t)[0] == l0);
                } else {
                    lemma_line_start_shift(l0, rest, j - 1);
                    assert(split_lines(t)[j] == rest[j - 1]);
                    assert(line_start(rest, j - 1) + rest[j - 1].len() <= rest_t.len());
                }
            }
        }
    }
}

/// No line holds a line break.
pub proof fn lemma_split_lines_no_nl(t: Seq<char>)
    ensures
        forall|j: int, p: int|
            0 <= j < split_lines(t).len() && 0 <= p < split_lines(t)[j].len()
                ==> #[trigger] split_lines(t)[j][p] != '\n',
    decreases t.len(),
{
    if t.len() > 0 {
        lemma_first_nl(t);
        let i = first_nl(t);
        if i == t.len() {
            assert(split_lines(t)[0] == t);
        } else {
            let rest_t = t.subrange(i + 1, t.len() as int);
            lemma_split_lines_no_nl(rest_t);
            assert forall|j: int, p: int|
                0 <= j < split_lines(t).len() && 0 <= p < split_lines(t)[j].len()
                    implies #[trigger] split_lines(t)[j][p] != '\n' by {
                if j == 0 {
                    assert(split_lines(t)[0] == t.subrange(0, i));
                    assert(t.subrange(0, i)[p] == t[p]);
                } else {
                    assert(split_lines(t)[j] == split_lines(rest_t)[j - 1]);
                }
            }
        }
    }
}

/// The records carried by a sequence of lines, in line order; lines that do
/// not decode contribute nothing.
pub open spec fn records_of_lines(ls: Seq<Seq<char>>) -> Seq<(Seq<char>, Seq<char>)>
    decreases ls.len(),
{
    if ls.len() == 0 {
        Seq::<(Seq<char>, Seq<char>)>::empty()
    } else if decodable(ls.last()) {
        records_of_lines(ls.drop_last()).push(
            (decoded_key(ls.last()), decoded_value(ls.last())),
        )
    } else {
        records_of_lines(ls.drop_last())
    }
}

/// The line index each record comes from, in line order.
pub open spec fn record_lines(ls: Seq<Seq<char>>) -> Seq<int>
    decreases ls.len(),
{
    if ls.len() == 0 {
        Seq::<int>::empty()
    } else if decodable(ls.last()) {
        record_lines(ls.drop_last()).push(ls.len() - 1)
    } else {
        record_lines(ls.drop_last())
    }
}

/// The records and the decodable lines correspond one to one, in order.
pub proof fn lemma_record_lines(ls: Seq<Seq<char>>)
    ensures
        record_lines(ls).len() == records_of_lines(ls).len(),
        forall|p: int|
            0 <= p < record_lines(ls).len() ==> {
                let j = #[trigger] record_lines(ls)[p];
                &&& 0 <= j < ls.len()
                &&& decodable(ls[j])
                &&& records_of_lines(ls)[p] == (decoded_key(ls[j]), decoded_value(ls[j]))
            },
        forall|p: int, q: int|
            0 <= p < q < record_lines(ls).len() ==> record_lines(ls)[p] < record_lines(ls)[q],
        forall|j: int|
            0 <= j < ls.len() && decodable(#[trigger] ls[j]) ==> exists|p: int|
                0 <= p < record_lines(ls).len() && record_lines(ls)[p] == j,
    decreases ls.len(),
{
    if ls.len() > 0 {
        let t = ls.drop_last();
        lemma_record_lines(t);
        assert(forall|j: int| 0 <= j < t.len() ==> t[j] == ls[j]);
        assert forall|j: int|
            0 <= j < ls.len() && decodable(#[trigger] ls[j]) implies exists|p: int|
            0 <= p < record_lines(ls).len() && record_lines(ls)[p] == j by {
            if j < ls.len() - 1 {
                let p = choose|p: int|
                    0 <= p < record_lines(t).len() && record_lines(t)[p] == j;
                assert(record_lines(ls)[p] == j);
            } else {
                assert(decodable(ls.last()));
                assert(record_lines(ls).last() == j);
            }
        }
    }
}

/// Decodable lines carry strictly ascending keys.
pub open spec fn lines_sorted(ls: Seq<Seq<char>>) -> bool {
    forall|j1: int, j2: int|
        0 <= j1 < j2 < ls.len() && decodable(#[trigger] ls[j1]) && decodable(#[trigger] ls[j2])
            ==> lex_lt(decoded_key(ls[j1]), decoded_key(ls[j2]))
}

/// Lines with ascending keys yield a sorted record sequence.
pub proof fn lemma_lines_sorted_records(ls: Seq<Seq<char>>)
    requires
        lines_sorted(ls),
    ensures
        entries_sorted(records_of_lines(ls)),
{
    lemma_record_lines(ls);
    let recs = records_of_lines(ls);
    let rl = record_lines(ls);
    assert forall|p: int, q: int| 0 <= p < q < recs.len() implies lex_lt(
        recs[p].0,
        recs[q].0,
    ) by {
        assert(rl[p] < rl[q]);
        assert(decodable(ls[rl[p]]));
        assert(decodable(ls[rl[q]]));
    }
}

/// Lines free of line breaks yield valid records.
pub proof fn lemma_records_valid(ls: Seq<Seq<char>>)
    requires
        forall|j: int, p: int|
            0 <= j < ls.len() && 0 <= p < ls[j].len() ==> #[trigger] ls[j][p] != '\n',
    ensures
        crate::records::entries_valid(records_of_lines(ls)),
{
    lemma_record_lines(ls);
    let recs = records_of_lines(ls);
    let rl = record_lines(ls);
    assert forall|p: int| 0 <= p < recs.len() implies crate::codec::valid_part(
        (#[trigger] recs[p]).0,
    ) && crate::codec::valid_part(recs[p].1) by {
        let j = rl[p];
        crate::codec::lemma_decoded_parts_valid(ls[j]);
    }
}

/// When every line decodes, the records are the decoded lines, one each.
pub proof fn lemma_records_all_decodable(ls: Seq<Seq<char>>)
    requires
        forall|j: int| 0 <= j < ls.len() ==> decodable(#[trigger] ls[j]),
    ensures
        records_of_lines(ls) == Seq::new(
            ls.len(),
            |j: int| (decoded_key(ls[j]), decoded_value(ls[j])),
        ),
    decreases ls.len(),
{
    if ls.len() > 0 {
        let t = ls.drop_last();
        lemma_records_all_decodable(t);
        assert(records_of_lines(ls) =~= Seq::new(
            ls.len(),
            |j: int| (decoded_key(ls[j]), decoded_value(ls[j])),
        ));
    } else {
        assert(records_of_lines(ls) =~= Seq::new(
            ls.len(),
            |j: int| (decoded_key(ls[j]), decoded_value(ls[j])),
        ));
    }
}

/// The text of a segment file holding the given records: one encoded line
/// per record, in order.
pub open spec fn encode_all(entries: Seq<(Seq<char>, Seq<char>)>) -> Seq<char>
    decreases entries.len(),
{
    if entries.len() == 0 {
        Seq::<char>::empty()
    } else {
        crate::codec::encode_spec(entries[0].0, entries[0].1) + encode_all(entries.drop_first())
    }
}

pub proof fn lemma_encode_all_push(entries: Seq<(Seq<char>, Seq<char>)>, e: (Seq<char>, Seq<char>))
    ensures
        encode_all(entries.push(e)) == encode_all(entries) + crate::codec::encode_spec(e.0, e.1),
    decreases entries.len(),
{
    if entries.len() == 0 {
        assert(entries.push(e)[0] == e);
        assert(entries.push(e).drop_first() =~= Seq::<(Seq<char>, Seq<char>)>::empty());
        assert(encode_all(entries.push(e)) == crate::codec::encode_spec(e.0, e.1) + encode_all(
            entries.push(e).drop_first(),
        ));
        assert(encode_all(entries.push(e).drop_first()) == Seq::<char>::empty());
        assert(crate::codec::encode_spec(e.0, e.1) + Seq::<char>::empty()
            =~= crate::codec::encode_spec(e.0, e.1));
        assert(encode_all(entries) + crate::codec::encode_spec(e.0, e.1)
            =~= crate::codec::encode_spec(e.0, e.1));
    } else {
        let s = entries;
        assert(s.push(e)[0] == s[0]);
        assert(s.push(e).drop_first() =~= s.drop_first().push(e));
        lemma_encode_all_push(s.drop_first(), e);
        assert(crate::codec::encode_spec(s[0].0, s[0].1) + (encode_all(s.drop_first())
            + crate::codec::encode_spec(e.0, e.1)) =~= (crate::codec::encode_spec(s[0].0, s[0].1)
            + encode_all(s.drop_first())) + crate::codec::encode_spec(e.0, e.1));
    }
}

/// The encoded text of a valid record sequence splits back into one line
/// per record, and each line decodes to its record.
pub proof fn lemma_encode_all_lines(entries: Seq<(Seq<char>, Seq<char>)>)
    requires
        crate::records::entries_valid(entries),
    ensures
        split_lines(encode_all(entries)).len() == entries.len(),
        forall|i: int|
            0 <= i < entries.len() ==> #[trigger] split_lines(encode_all(entries))[i]
                == (#[trigger] entries[i]).0 + seq!['='] + entries[i].1,
        forall|i: int|
            0 <= i < entries.len() ==> decodable(#[trigger] split_lines(encode_all(entries))[i])
                && decoded_key(split_lines(encode_all(entries))[i]) == entries[i].0
                && decoded_value(split_lines(encode_all(entries))[i]) == entries[i].1,
    decreases entries.len(),
{
    if entries.len() > 0 {
        let e0 = entries[0];
        let line0 = e0.0 + seq!['='] + e0.1;
        let t = encode_all(entries);
        let rest_t = encode_all(entries.drop_first());
        assert(crate::records::entries_valid(entries.drop_first()));
        lemma_encode_all_lines(entries.drop_first());
        let fnl = line0.len() as int;
        assert(t =~= line0 + seq!['\n'] + rest_t);
        assert forall|j: int| 0 <= j < fnl implies t[j] != '\n' by {
            if j < e0.0.len() {
                assert(t[j] == e0.0[j]);
            } else if j == e0.0.len() {
                assert(t[j] == '=');
            } else {
                assert(t[j] == e0.1[j - e0.0.len() - 1]);
            }
        }
        assert(t[fnl] == '\n');
        lemma_first_nl_is(t, fnl);
        assert(t.subrange(0, fnl) =~= line0);
        assert(t.subrange(fnl + 1, t.len() as int) =~= rest_t);
        assert(split_lines(t) == seq![line0] + split_lines(rest_t));
        crate::codec::lemma_line_round_trip(e0.0, e0.1);
        assert forall|i: int| 0 <= i < entries.len() implies #[trigger] split_lines(
            encode_all(entries),
        )[i] == (#[trigger] entries[i]).0 + seq!['='] + entries[i].1 by {
            if i > 0 {
                assert(split_lines(t)[i] == split_lines(rest_t)[i - 1]);
                assert(entries.drop_first()[i - 1] == entries[i]);
            }
        }
    }
}

/// The encoded text of a sorted, valid record sequence is a well-formed
/// segment file: its lines are sorted and carry back exactly the records.
pub proof fn lemma_encode_all_records(entries: Seq<(Seq<char>, Seq<char>)>)
    requires
        crate::records::entries_valid(entries),
    ensures
        records_of_lines(split_lines(encode_all(entries))) == entries,
        entries_sorted(entries) ==> lines_sorted(split_lines(encode_all(entries))),
{
    lemma_encode_all_lines(entries);
    let ls = split_lines(encode_all(entries));
    lemma_records_all_decodable(ls);
    assert(records_of_lines(ls) =~= entries);
    if entries_sorted(entries) {
        assert forall|j1: int, j2: int|
            0 <= j1 < j2 < ls.len() && decodable(#[trigger] ls[j1]) && decodable(
                #[trigger] ls[j2],
            ) implies lex_lt(decoded_key(ls[j1]), decoded_key(ls[j2])) by {
            assert(decoded_key(ls[j1]) == entries[j1].0);
            assert(decoded_key(ls[j2]) == entries[j2].0);
        }
    }
}

/// Encode a sequence of records as the text of a segment file.
pub fn encode_records(entries: &Vec<(String, String)>) -> (r: String)
    ensures
        r@ == encode_all(entries.deep_view()),
{
    let ghost es = entries.deep_view();
    let n = entries.len();
    let mut out = String::new();
    let mut i: usize = 0;
    proof {
        assert(es.subrange(0, 0) =~= Seq::<(Seq<char>, Seq<char>)>::empty());
        assert(out@ =~= encode_all(es.subrange(0, 0)));
    }
    while i < n
        invariant
            0 <= i <= n,
            n == es.len(),
            es == entries.deep_view(),
            out@ == encode_all(es.subrange(0, i as int)),
        decreases n - i,
    {
        let e = &entries[i];
        let line = crate::codec::encode(e.0.as_str(), e.1.as_str());
        out.append(line.as_str());
        proof {
            let prefix = es.subrange(0, i as int);
            assert(es.subrange(0, i + 1) =~= prefix.push(es[i as int]));
            assert(es[i as int] == (e.0@, e.1@));
            lemma_encode_all_push(prefix, es[i as int]);
        }
        i = i + 1;
    }
    proof {
        assert(es.subrange(0, n as int) =~= es);
    }
    out
}

/// Split a text into its lines.
pub fn split_into_lines(text: &str) -> (r: Vec<String>)
    ensures
        r.deep_view() == split_lines(text@),
{
    let n = text.unicode_len();
    let mut lines: Vec<String> = Vec::new();
    let mut lo: usize = 0;
    let mut i: usize = 0;
    proof {
        assert(lines.deep_view() =~= Seq::<Seq<char>>::empty());
        assert(text@.subrange(0, n as int) =~= text@);
        assert(lines.deep_view() + split_lines(text@) =~= split_lines(text@));
    }
    while i < n
        invariant
            0 <= lo <= i <= n,
            n == text@.len(),
            forall|j: int| lo <= j < i ==> text@[j] != '\n',
            split_lines(text@) == lines.deep_view() + split_lines(
                text@.subrange(lo as int, n as int),
            ),
        decreases n - i,
    {
        if text.get_char(i) == '\n' {
            let line = text.substring_char(lo, i);
            let ghost prev = lines.deep_view();
            let ghost s = text@.subrange(lo as int, n as int);
            let ghost rest = split_lines(text@.subrange(i + 1, n as int));
            proof {
                assert(forall|j: int| 0 <= j < s.len() ==> s[j] == text@[j + lo]);
                lemma_first_nl_is(s, i - lo);
                assert(s.subrange(0, i - lo) =~= line@);
                assert(s.subrange(i - lo + 1, s.len() as int) =~= text@.subrange(
                    i + 1,
                    n as int,
                ));
                assert(split_lines(s) == seq![line@] + rest);
            }
            lines.push(line.to_owned());
            proof {
                assert(lines.deep_view() =~= prev.push(line@));
                assert(prev + (seq![line@] + rest) =~= prev.push(line@) + rest);
            }
            lo = i + 1;
        }
        i = i + 1;
    }
    if lo < n {
        let line = text.substring_char(lo, n);
        let ghost prev = lines.deep_view();
        let ghost s = text@.subrange(lo as int, n as int);
        proof {
            assert(forall|j: int| 0 <= j < s.len() ==> s[j] == text@[j + lo]);
            lemma_first_nl_is(s, s.len() as int);
            assert(s =~= line@);
            assert(split_lines(s) == seq![line@]);
        }
        lines.push(line.to_owned());
        proof {
            assert(lines.deep_view() =~= prev.push(line@));
            assert(prev + seq![line@] =~= prev.push(line@));
        }
    }
    proof {
        if lo >= n {
            assert(text@.subrange(lo as int, n as int) =~= Seq::<char>::empty());
            assert(split_lines(text@.subrange(lo as int, n as int))
                =~= Seq::<Seq<char>>::empty());
        }
        assert(lines.deep_view() =~= split_lines(text@));
    }
    lines
}

} // verus!
