//! Sequences of records and their lookup semantics.  The memtable, the
//! segments and the compaction merge all deal in sequences of key-value
//! pairs whose keys ascend strictly; these spec functions give such
//! sequences their meaning as a mapping from keys to values.

use vstd::prelude::*;
use crate::order::{lex_lt, lemma_lex_trichotomy};
use crate::codec::valid_part;

verus! {

/// The keys of the records ascend strictly, so no key repeats.
pub open spec fn entries_sorted(s: Seq<(Seq<char>, Seq<char>)>) -> bool {
    forall|i: int, j: int| 0 <= i < j < s.len() ==> lex_lt(s[i].0, s[j].0)
}

/// Every key and value is free of the separator and of newlines and carries
/// no surrounding whitespace, so each record survives encoding and decoding
/// unchanged.
pub open spec fn entries_valid(s: Seq<(Seq<char>, Seq<char>)>) -> bool {
    forall|i: int| 0 <= i < s.len() ==> valid_part(#[trigger] s[i].0) && valid_part(s[i].1)
}

/// The value bound to `k`, the last binding winning.
pub open spec fn lookup(s: Seq<(Seq<char>, Seq<char>)>, k: Seq<char>) -> Option<Seq<char>>
    decreases s.len(),
{
    if s.len() == 0 {
        None
    } else if s.last().0 == k {
        Some(s.last().1)
    } else {
        lookup(s.drop_last(), k)
    }
}

/// A key that no record carries is not bound.
pub proof fn lemma_lookup_absent(s: Seq<(Seq<char>, Seq<char>)>, k: Seq<char>)
    requires
        forall|i: int| 0 <= i < s.len() ==> (#[trigger] s[i]).0 != k,
    ensures
        lookup(s, k) is None,
    decreases s.len(),
{
    if s.len() > 0 {
        lemma_lookup_absent(s.drop_last(), k);
    }
}

/// In a sorted sequence, the record at any index is what lookup returns for
/// its key.
pub proof fn lemma_lookup_index(s: Seq<(Seq<char>, Seq<char>)>, i: int)
    requires
        entries_sorted(s),
        0 <= i < s.len(),
    ensures
        lookup(s, s[i].0) == Some(s[i].1),
    decreases s.len(),
{
    if i == s.len() - 1 {
    } else {
        assert(lex_lt(s[i].0, s.last().0));
        lemma_lex_trichotomy(s[i].0, s.last().0);
        let t = s.drop_last();
        assert(entries_sorted(t));
        lemma_lookup_index(t, i);
    }
}

/// What lookup returns is carried by some record; what it does not return
/// is carried by none.
pub proof fn lemma_lookup_char(s: Seq<(Seq<char>, Seq<char>)>, k: Seq<char>)
    ensures
        lookup(s, k) matches Some(v) ==> exists|i: int|
            0 <= i < s.len() && #[trigger] s[i] == (k, v),
        lookup(s, k) is None ==> forall|i: int| 0 <= i < s.len() ==> (#[trigger] s[i]).0 != k,
    decreases s.len(),
{
    if s.len() > 0 {
        let t = s.drop_last();
        lemma_lookup_char(t, k);
        if s.last().0 != k {
            match lookup(s, k) {
                Some(v) => {
                    let i = choose|i: int| 0 <= i < t.len() && #[trigger] t[i] == (k, v);
                    assert(s[i] == (k, v));
                },
                None => {
                    assert forall|i: int| 0 <= i < s.len() implies (#[trigger] s[i]).0 != k by {
                        if i < s.len() - 1 {
                            assert(t[i] == s[i]);
                        }
                    }
                },
            }
        }
    }
}

} // verus!
