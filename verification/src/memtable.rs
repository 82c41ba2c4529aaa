//! The memtable: the bounded, sorted, in-memory write buffer.  It is kept
//! as a vector of records in strictly ascending key order, so that a flush
//! can write its contents out already sorted.  It carries no lock of its
//! own: concurrent mutation without outside synchronization is unsupported.

use vstd::prelude::*;
use core::cmp::Ordering;
use crate::codec::valid_part;
use crate::order::{lex_lt, lex_le, str_cmp, str_lt, lemma_lex_trichotomy};
use crate::records::{
    entries_sorted, entries_valid, lookup, lemma_lookup_absent, lemma_lookup_index,
    lemma_lookup_char,
};

verus! {

/// Construction arguments: how many records the memtable holds before it
/// reports itself full.
pub struct MemtableArgs {
    pub capacity: usize,
}

impl Default for MemtableArgs {
    fn default() -> (r: Self)
        ensures
            r.capacity == 1024,
    {
        Self { capacity: 1024 }
    }
}

/// The in-memory sorted table of live records.
pub struct Memtable {
    entries: Vec<(String, String)>,
    capacity: usize,
}

impl Memtable {
    /// The records, in ascending key order.
    pub closed spec fn entry_seq(self) -> Seq<(Seq<char>, Seq<char>)> {
        self.entries.deep_view()
    }

    /// The capacity the table was built with.
    pub closed spec fn capacity_spec(self) -> usize {
        self.capacity
    }

    /// Records ascend strictly by key, and every key and value may stand in
    /// an encoded line.
    pub open spec fn wf(self) -> bool {
        &&& entries_sorted(self.entry_seq())
        &&& entries_valid(self.entry_seq())
    }

    /// An empty memtable with the given capacity.
    pub fn new(args: MemtableArgs) -> (r: Self)
        ensures
            r.wf(),
            r.entry_seq() == Seq::<(Seq<char>, Seq<char>)>::empty(),
            r.capacity_spec() == args.capacity,
    {
        let r = Self { entries: Vec::new(), capacity: args.capacity };
        proof {
            assert(r.entry_seq() =~= Seq::<(Seq<char>, Seq<char>)>::empty());
        }
        r
    }

    /// Insert a record, or overwrite the record already carrying the key.
    pub fn set(&mut self, key: &str, value: &str)
        requires
            old(self).wf(),
            valid_part(key@),
            valid_part(value@),
        ensures
            final(self).wf(),
            final(self).capacity_spec() == old(self).capacity_spec(),
            forall|k: Seq<char>|
                #[trigger] lookup(final(self).entry_seq(), k) == if k == key@ {
                    Some(value@)
                } else {
                    lookup(old(self).entry_seq(), k)
                },
            final(self).entry_seq().len() == old(self).entry_seq().len() + (
            if lookup(old(self).entry_seq(), key@) is Some {
                0int
            } else {
                1int
            }),
    {
        let ghost ds = self.entry_seq();
        let n = self.entries.len();
        let mut i: usize = 0;
        loop
            invariant
                0 <= i <= n,
                n == ds.len(),
                *self == *old(self),
                ds == self.entry_seq(),
                forall|j: int| 0 <= j < i ==> lex_lt((#[trigger] ds[j]).0, key@),
            ensures
                0 <= i <= n,
                *self == *old(self),
                forall|j: int| 0 <= j < i ==> lex_lt((#[trigger] ds[j]).0, key@),
                i < n ==> lex_le(key@, ds[i as int].0),
            decreases n - i,
        {
            if i == n {
                break ;
            }
            let e = &self.entries[i];
            if !str_lt(e.0.as_str(), key) {
                proof {
                    lemma_lex_trichotomy(ds[i as int].0, key@);
                }
                break ;
            }
            i = i + 1;
        }
        let mut same = false;
        if i < n {
            let e = &self.entries[i];
            match str_cmp(key, e.0.as_str()) {
                Ordering::Equal => {
                    same = true;
                },
                Ordering::Less => {
                    proof {
                        assert(lex_lt(key@, ds[i as int].0));
                    }
                },
                Ordering::Greater => {
                    proof {
                        lemma_lex_trichotomy(key@, ds[i as int].0);
                    }
                },
            }
        }
        if same {
            proof {
                lemma_lookup_index(ds, i as int);
            }
            self.entries.set(i, (key.to_owned(), value.to_owned()));
            proof {
                let ns = self.entry_seq();
                assert(ns =~= ds.update(i as int, (key@, value@)));
                assert forall|p: int, q: int| 0 <= p < q < ns.len() implies lex_lt(
                    ns[p].0,
                    ns[q].0,
                ) by {
                    assert(ds[i as int].0 == key@);
                    assert(ns[p].0 == ds[p].0);
                    assert(ns[q].0 == ds[q].0);
                }
                assert forall|k: Seq<char>| #[trigger] lookup(ns, k) == (if k == key@ {
                    Some(value@)
                } else {
                    lookup(ds, k)
                }) by {
                    if k == key@ {
                        lemma_lookup_index(ns, i as int);
                    } else {
                        lemma_lookup_char(ds, k);
                        lemma_lookup_char(ns, k);
                        match lookup(ds, k) {
                            Some(v) => {
                                let j = choose|j: int|
                                    0 <= j < ds.len() && #[trigger] ds[j] == (k, v);
                                assert(ns[j] == (k, v));
                                lemma_lookup_index(ns, j);
                            },
                            None => {
                                assert(forall|j: int|
                                    0 <= j < ns.len() ==> (#[trigger] ns[j]).0 != k);
                                lemma_lookup_absent(ns, k);
                            },
                        }
                    }
                }
            }
        } else {
            proof {
                if i < n {
                    lemma_lex_trichotomy(key@, ds[i as int].0);
                }
                assert forall|j: int| 0 <= j < n implies (#[trigger] ds[j]).0 != key@ by {
                    if j < i {
                        lemma_lex_trichotomy(ds[j].0, key@);
                    } else {
                        if j > i {
                            crate::order::lemma_lex_transitive(key@, ds[i as int].0, ds[j].0);
                        }
                        lemma_lex_trichotomy(key@, ds[j].0);
                    }
                }
                lemma_lookup_absent(ds, key@);
            }
            self.entries.insert(i, (key.to_owned(), value.to_owned()));
            proof {
                let ns = self.entry_seq();
                assert(ns =~= ds.insert(i as int, (key@, value@)));
                assert(forall|p: int| 0 <= p < i ==> #[trigger] ns[p] == ds[p]);
                assert(ns[i as int] == (key@, value@));
                assert(forall|p: int| i < p < ns.len() ==> #[trigger] ns[p] == ds[p - 1]);
                assert forall|p: int, q: int| 0 <= p < q < ns.len() implies lex_lt(
                    ns[p].0,
                    ns[q].0,
                ) by {
                    if p == i {
                        assert(lex_lt(key@, ds[i as int].0));
                        if q - 1 > i {
                            crate::order::lemma_lex_transitive(key@, ds[i as int].0, ds[q - 1].0);
                        }
                    } else if q == i {
                        assert(lex_lt(ds[p].0, key@));
                    } else if p < i && q > i {
                        assert(lex_lt(ds[p].0, ds[q - 1].0));
                    }
                }
                assert(entries_sorted(ns));
                assert forall|k: Seq<char>| #[trigger] lookup(ns, k) == (if k == key@ {
                    Some(value@)
                } else {
                    lookup(ds, k)
                }) by {
                    if k == key@ {
                        lemma_lookup_index(ns, i as int);
                    } else {
                        lemma_lookup_char(ds, k);
                        lemma_lookup_char(ns, k);
                        match lookup(ds, k) {
                            Some(v) => {
                                let j = choose|j: int|
                                    0 <= j < ds.len() && #[trigger] ds[j] == (k, v);
                                if j < i {
                                    lemma_lookup_index(ns, j);
                                } else {
                                    assert(ns[j + 1] == (k, v));
                                    lemma_lookup_index(ns, j + 1);
                                }
                            },
                            None => {
                                assert forall|j: int| 0 <= j < ns.len() implies (
                                #[trigger] ns[j]).0 != k by {
                                    if j < i {
                                        assert(ds[j].0 != k);
                                    } else if j > i {
                                        assert(ds[j - 1].0 != k);
                                    }
                                }
                                lemma_lookup_absent(ns, k);
                            },
                        }
                    }
                }
            }
        }
    }

    /// The value live for a key, if any.
    pub fn get(&self, key: &str) -> (r: Option<String>)
        requires
            self.wf(),
        ensures
            r matches Some(v) ==> lookup(self.entry_seq(), key@) == Some(v@),
            r is None ==> lookup(self.entry_seq(), key@) is None,
    {
        let ghost ds = self.entry_seq();
        let n = self.entries.len();
        let mut i: usize = 0;
        while i < n
            invariant
                0 <= i <= n,
                n == ds.len(),
                ds == self.entry_seq(),
                self.wf(),
                forall|j: int| 0 <= j < i ==> (#[trigger] ds[j]).0 != key@,
            decreases n - i,
        {
            let e = &self.entries[i];
            match str_cmp(e.0.as_str(), key) {
                Ordering::Equal => {
                    proof {
                        lemma_lookup_index(ds, i as int);
                    }
                    return Some(e.1.clone());
                },
                _ => {
                    proof {
                        lemma_lex_trichotomy(ds[i as int].0, key@);
                    }
                },
            }
            i = i + 1;
        }
        proof {
            lemma_lookup_absent(ds, key@);
        }
        None
    }

    /// Remove the record carrying the key, if any; no tombstone is written.
    pub fn delete(&mut self, key: &str)
        requires
            old(self).wf(),
        ensures
            final(self).wf(),
            final(self).capacity_spec() == old(self).capacity_spec(),
            forall|k: Seq<char>|
                #[trigger] lookup(final(self).entry_seq(), k) == if k == key@ {
                    None::<Seq<char>>
                } else {
                    lookup(old(self).entry_seq(), k)
                },
            final(self).entry_seq().len() <= old(self).entry_seq().len(),
    {
        let ghost ds = self.entry_seq();
        let n = self.entries.len();
        let mut i: usize = 0;
        while i < n
            invariant
                0 <= i <= n,
                n == ds.len(),
                ds == self.entry_seq(),
                *self == *old(self),
                old(self).wf(),
                forall|j: int| 0 <= j < i ==> (#[trigger] ds[j]).0 != key@,
            decreases n - i,
        {
            let e = &self.entries[i];
            match str_cmp(e.0.as_str(), key) {
                Ordering::Equal => {
                    self.entries.remove(i);
                    proof {
                        let ns = self.entry_seq();
                        assert(ns =~= ds.remove(i as int));
                        assert(forall|p: int| 0 <= p < i ==> #[trigger] ns[p] == ds[p]);
                        assert(forall|p: int| i <= p < ns.len() ==> #[trigger] ns[p] == ds[p + 1]);
                        assert forall|p: int, q: int| 0 <= p < q < ns.len() implies lex_lt(
                            ns[p].0,
                            ns[q].0,
                        ) by {}
                        assert(entries_sorted(ns));
                        assert forall|k: Seq<char>| #[trigger] lookup(ns, k) == (if k == key@ {
                            None::<Seq<char>>
                        } else {
                            lookup(ds, k)
                        }) by {
                            if k == key@ {
                                assert forall|j: int| 0 <= j < ns.len() implies (#[trigger] ns[j]).0
                                    != k by {
                                    if j >= i {
                                        assert(lex_lt(ds[i as int].0, ds[j + 1].0));
                                        lemma_lex_trichotomy(ds[i as int].0, ds[j + 1].0);
                                    }
                                }
                                lemma_lookup_absent(ns, k);
                            } else {
                                lemma_lookup_char(ds, k);
                                lemma_lookup_char(ns, k);
                                match lookup(ds, k) {
                                    Some(v) => {
                                        let j = choose|j: int|
                                            0 <= j < ds.len() && #[trigger] ds[j] == (k, v);
                                        if j < i {
                                            lemma_lookup_index(ns, j);
                                        } else {
                                            assert(ns[j - 1] == (k, v));
                                            lemma_lookup_index(ns, j - 1);
                                        }
                                    },
                                    None => {
                                        assert(forall|j: int|
                                            0 <= j < ns.len() ==> (#[trigger] ns[j]).0 != k);
                                        lemma_lookup_absent(ns, k);
                                    },
                                }
                            }
                        }
                    }
                    return ;
                },
                _ => {
                    proof {
                        lemma_lex_trichotomy(ds[i as int].0, key@);
                    }
                },
            }
            i = i + 1;
        }
        proof {
            lemma_lookup_absent(ds, key@);
        }
    }

    /// Whether the table has reached its capacity.
    pub fn full(&self) -> (r: bool)
        ensures
            r == (self.entry_seq().len() >= self.capacity_spec()),
    {
        self.entries.len() >= self.capacity
    }

    /// The records in ascending key order.
    pub fn iter(&self) -> (r: &Vec<(String, String)>)
        ensures
            r.deep_view() == self.entry_seq(),
    {
        &self.entries
    }

    /// Clear the table to empty; the capacity is kept.
    pub fn reset(&mut self)
        ensures
            final(self).wf(),
            final(self).entry_seq() == Seq::<(Seq<char>, Seq<char>)>::empty(),
            final(self).capacity_spec() == old(self).capacity_spec(),
    {
        self.entries = Vec::new();
        proof {
            assert(self.entry_seq() =~= Seq::<(Seq<char>, Seq<char>)>::empty());
        }
    }
}

} // verus!
