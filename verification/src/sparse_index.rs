//! The sparse index of a segment: an ordered sample of key/byte-offset
//! pairs, built by in-order insertion while a segment is scanned.  A lookup
//! returns the byte range `[start, end)` that must contain a key's record if
//! the key is present in the segment at all.

use vstd::prelude::*;
use crate::order::{lex_le, lex_lt, lemma_lex_trichotomy, lemma_lex_le_lt_trans, str_le};

verus! {

/// The byte range a lookup yields: scan from `start`; stop at `end`, or at
/// the end of the segment when `end` is `None`.
#[derive(Clone, Copy, Debug, PartialEq, Eq)]
pub struct ByteRange {
    pub start: u64,
    pub end: Option<u64>,
}

/// The index of the greatest sampled key that precedes or equals `key`, or
/// `-1` when every sampled key is greater.
pub open spec fn sample_idx(ks: Seq<Seq<char>>, key: Seq<char>) -> int
    decreases ks.len(),
{
    if ks.len() == 0 {
        -1
    } else if lex_le(ks.last(), key) {
        ks.len() - 1
    } else {
        sample_idx(ks.drop_last(), key)
    }
}

/// A sequence of keys in strictly ascending lexicographic order.
pub open spec fn keys_sorted(ks: Seq<Seq<char>>) -> bool {
    forall|i: int, j: int| 0 <= i < j < ks.len() ==> lex_lt(ks[i], ks[j])
}

/// `sample_idx` is pinned down by its neighbours: the key at the index
/// precedes or equals the probe, the next sampled key is greater.
pub proof fn lemma_sample_idx_char(ks: Seq<Seq<char>>, key: Seq<char>, i: int)
    requires
        keys_sorted(ks),
        -1 <= i < ks.len(),
        i >= 0 ==> lex_le(ks[i], key),
        i + 1 < ks.len() ==> lex_lt(key, ks[i + 1]),
    ensures
        sample_idx(ks, key) == i,
    decreases ks.len(),
{
    if ks.len() > 0 {
        let n = ks.len() as int;
        if lex_le(ks.last(), key) {
            if i < n - 1 {
                // impossible: key < ks[i + 1] <= ks[n - 1] <= key
                lemma_lex_le_lt_trans(ks[n - 1], key, ks[i + 1]);
                if i + 1 < n - 1 {
                    assert(lex_lt(ks[i + 1], ks[n - 1]));
                    crate::order::lemma_lex_transitive(ks[n - 1], ks[i + 1], ks[n - 1]);
                    lemma_lex_trichotomy(ks[n - 1], ks[n - 1]);
                } else {
                    lemma_lex_trichotomy(ks[n - 1], ks[i + 1]);
                }
            }
        } else {
            lemma_lex_trichotomy(ks.last(), key);
            if i == n - 1 {
                assert(lex_le(ks[n - 1], key));
            }
            let t = ks.drop_last();
            assert(forall|p: int, q: int|
                0 <= p < q < t.len() ==> lex_lt(#[trigger] t[p], #[trigger] t[q]));
            lemma_sample_idx_char(t, key, i);
        }
    }
}

/// Basic bounds and meaning of `sample_idx`.
pub proof fn lemma_sample_idx_bounds(ks: Seq<Seq<char>>, key: Seq<char>)
    ensures
        -1 <= sample_idx(ks, key) < ks.len(),
        sample_idx(ks, key) >= 0 ==> lex_le(ks[sample_idx(ks, key)], key),
        forall|j: int| sample_idx(ks, key) < j < ks.len() ==> lex_lt(key, #[trigger] ks[j]),
    decreases ks.len(),
{
    if ks.len() > 0 {
        let n = ks.len() as int;
        if lex_le(ks.last(), key) {
        } else {
            let t = ks.drop_last();
            lemma_sample_idx_bounds(t, key);
            lemma_lex_trichotomy(ks.last(), key);
            assert forall|j: int| sample_idx(ks, key) < j < n implies lex_lt(
                key,
                #[trigger] ks[j],
            ) by {
                if j < n - 1 {
                    assert(lex_lt(key, t[j]));
                    assert(t[j] == ks[j]);
                }
            }
        }
    }
}

/// An ordered sample of key to byte-offset pairs for one segment.
pub struct SparseIndex {
    keys: Vec<String>,
    offsets: Vec<u64>,
}

impl SparseIndex {
    /// The sampled keys, in insertion order.
    pub closed spec fn key_seq(self) -> Seq<Seq<char>> {
        self.keys.deep_view()
    }

    /// The sampled byte offsets, in insertion order.
    pub closed spec fn offset_seq(self) -> Seq<u64> {
        self.offsets@
    }

    /// Keys and offsets pair up, and the keys ascend strictly.
    pub open spec fn wf(self) -> bool {
        &&& self.key_seq().len() == self.offset_seq().len()
        &&& keys_sorted(self.key_seq())
    }

    /// An empty index.
    pub fn new() -> (r: Self)
        ensures
            r.wf(),
            r.key_seq() == Seq::<Seq<char>>::empty(),
            r.offset_seq() == Seq::<u64>::empty(),
    {
        let r = Self { keys: Vec::new(), offsets: Vec::new() };
        proof {
            assert(r.key_seq() =~= Seq::<Seq<char>>::empty());
        }
        r
    }

    /// Append a sample; the caller guarantees ascending key order.
    pub fn insert(&mut self, key: &str, offset: u64)
        requires
            old(self).wf(),
            old(self).key_seq().len() > 0 ==> lex_lt(
                old(self).key_seq().last(),
                key@,
            ),
        ensures
            final(self).wf(),
            final(self).key_seq() == old(self).key_seq().push(key@),
            final(self).offset_seq() == old(self).offset_seq().push(offset),
    {
        self.keys.push(key.to_owned());
        self.offsets.push(offset);
        proof {
            assert(self.key_seq() =~= old(self).key_seq().push(key@));
            let ks = self.key_seq();
            let n = ks.len() as int;
            assert forall|i: int, j: int| 0 <= i < j < n implies lex_lt(ks[i], ks[j]) by {
                if j == n - 1 && i < n - 1 {
                    if i < n - 2 {
                        assert(lex_lt(ks[i], old(self).key_seq().last()));
                        crate::order::lemma_lex_transitive(ks[i], old(self).key_seq().last(), key@);
                    }
                }
            }
        }
    }

    /// The byte range that must contain `key`'s record: from the offset of
    /// the greatest sampled key at or before `key` (or the start of the
    /// segment), up to the offset of the next sample (or the end of the
    /// segment).
    pub fn get_byte_range(&self, key: &String) -> (r: ByteRange)
        requires
            self.wf(),
        ensures
            ({
                let i = sample_idx(self.key_seq(), key@);
                &&& r.start == if i >= 0 {
                    self.offset_seq()[i]
                } else {
                    0u64
                }
                &&& r.end == if i + 1 < self.key_seq().len() {
                    Some(self.offset_seq()[i + 1])
                } else {
                    None::<u64>
                }
            }),
    {
        let n = self.keys.len();
        let mut i: usize = 0;
        loop
            invariant
                0 <= i <= n,
                n == self.key_seq().len(),
                self.wf(),
                i > 0 ==> lex_le(self.key_seq()[i - 1], key@),
            ensures
                0 <= i <= n,
                i > 0 ==> lex_le(self.key_seq()[i - 1], key@),
                i < n ==> lex_lt(key@, self.key_seq()[i as int]),
            decreases n - i,
        {
            if i == n {
                break ;
            }
            if !str_le(self.keys[i].as_str(), key.as_str()) {
                proof {
                    lemma_lex_trichotomy(self.key_seq()[i as int], key@);
                }
                break ;
            }
            i = i + 1;
        }
        proof {
            lemma_sample_idx_char(self.key_seq(), key@, i - 1);
        }
        let start: u64 = if i == 0 {
            0
        } else {
            self.offsets[i - 1]
        };
        let end: Option<u64> = if i < n {
            Some(self.offsets[i])
        } else {
            None
        };
        ByteRange { start, end }
    }
}

} // verus!
