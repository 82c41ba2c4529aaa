//! The compaction merge: a sorted two-way merge of an older and a newer
//! segment's records.  Heads are compared by key; the smaller key's record
//! is emitted and its stream advances; on equal keys the newer record is
//! emitted and both streams advance, so the newer value wins.  When one
//! stream is exhausted the other is drained verbatim.

use vstd::prelude::*;
use core::cmp::Ordering;
use crate::order::{
    lex_lt, str_cmp, lemma_lex_trichotomy, lemma_lex_transitive, lemma_lex_le_lt_trans,
};
use crate::records::{lookup, entries_sorted, entries_valid};

verus! {

/// The merge of an older record sequence `a` and a newer one `b`.
pub open spec fn merged(
    a: Seq<(Seq<char>, Seq<char>)>,
    b: Seq<(Seq<char>, Seq<char>)>,
) -> Seq<(Seq<char>, Seq<char>)>
    decreases a.len() + b.len(),
{
    if a.len() == 0 {
        b
    } else if b.len() == 0 {
        a
    } else if lex_lt(a[0].0, b[0].0) {
        seq![a[0]] + merged(a.drop_first(), b)
    } else if lex_lt(b[0].0, a[0].0) {
        seq![b[0]] + merged(a, b.drop_first())
    } else {
        seq![b[0]] + merged(a.drop_first(), b.drop_first())
    }
}

proof fn lemma_lookup_cons(x: (Seq<char>, Seq<char>), s: Seq<(Seq<char>, Seq<char>)>, k: Seq<char>)
    ensures
        lookup(seq![x] + s, k) == (match lookup(s, k) {
            Some(v) => Some(v),
            None => if x.0 == k {
                Some(x.1)
            } else {
                None
            },
        }),
    decreases s.len(),
{
    let c = seq![x] + s;
    if s.len() == 0 {
        assert(c.len() == 1);
        assert(c.last() == x);
        assert(c.drop_last() =~= Seq::<(Seq<char>, Seq<char>)>::empty());
        assert(lookup(c.drop_last(), k) is None);
        assert(lookup(s, k) is None);
    } else {
        assert(c.last() == s.last());
        assert(c.drop_last() =~= seq![x] + s.drop_last());
        lemma_lookup_cons(x, s.drop_last(), k);
        if s.last().0 != k {
            assert(lookup(c, k) == lookup(c.drop_last(), k));
            assert(lookup(s, k) == lookup(s.drop_last(), k));
        }
    }
}

/// Merge correctness: merging sorted streams yields one sorted,
/// duplicate-free stream; for any key in both, the newer value survives;
/// for any key in only one, that value survives unchanged; and every
/// surviving record comes from one of the two streams.
pub proof fn lemma_merge_correct(a: Seq<(Seq<char>, Seq<char>)>, b: Seq<(Seq<char>, Seq<char>)>)
    requires
        entries_sorted(a),
        entries_sorted(b),
    ensures
        entries_sorted(merged(a, b)),
        forall|k: Seq<char>|
            #[trigger] lookup(merged(a, b), k) == (match lookup(b, k) {
                Some(v) => Some(v),
                None => lookup(a, k),
            }),
        forall|i: int|
            0 <= i < merged(a, b).len() ==> a.contains(#[trigger] merged(a, b)[i]) || b.contains(
                merged(a, b)[i],
            ),
    decreases a.len() + b.len(),
{
    let m = merged(a, b);
    if a.len() == 0 {
        assert forall|k: Seq<char>| #[trigger] lookup(m, k) == (match lookup(b, k) {
            Some(v) => Some(v),
            None => lookup(a, k),
        }) by {}
        assert(forall|i: int| 0 <= i < b.len() ==> b.contains(#[trigger] b[i]));
    } else if b.len() == 0 {
        assert(forall|i: int| 0 <= i < a.len() ==> a.contains(#[trigger] a[i]));
    } else {
        let a1 = a.drop_first();
        let b1 = b.drop_first();
        assert(entries_sorted(a1));
        assert(entries_sorted(b1));
        assert(forall|i: int| 0 <= i < a1.len() ==> #[trigger] a1[i] == a[i + 1]);
        assert(forall|i: int| 0 <= i < b1.len() ==> #[trigger] b1[i] == b[i + 1]);
        lemma_lex_trichotomy(a[0].0, b[0].0);
        lemma_drop_first_contains(a);
        lemma_drop_first_contains(b);
        if lex_lt(a[0].0, b[0].0) {
            lemma_merge_correct(a1, b);
            let x = a[0];
            let rest = merged(a1, b);
            assert(m == seq![x] + rest);
            assert forall|i: int| 0 <= i < b.len() implies lex_lt(x.0, (#[trigger] b[i]).0) by {
                if i > 0 {
                    lemma_lex_transitive(x.0, b[0].0, b[i].0);
                }
            }
            lemma_merge_cons_facts(x, a1, b, rest);
            assert(a.contains(m[0]));
        } else if lex_lt(b[0].0, a[0].0) {
            lemma_merge_correct(a, b1);
            let x = b[0];
            let rest = merged(a, b1);
            assert(m == seq![x] + rest);
            assert forall|i: int| 0 <= i < a.len() implies lex_lt(x.0, (#[trigger] a[i]).0) by {
                if i > 0 {
                    lemma_lex_transitive(x.0, a[0].0, a[i].0);
                }
            }
            lemma_merge_cons_facts(x, a, b1, rest);
            assert(b.contains(m[0]));
        } else {
            assert(a[0].0 == b[0].0);
            lemma_merge_correct(a1, b1);
            let x = b[0];
            let rest = merged(a1, b1);
            assert(m == seq![x] + rest);
            lemma_merge_cons_facts(x, a1, b1, rest);
            assert(b.contains(m[0]));
        }
        assert forall|i: int|
            0 <= i < m.len() implies a.contains(#[trigger] m[i]) || b.contains(m[i]) by {
            if i > 0 {
                if lex_lt(a[0].0, b[0].0) {
                    assert(m[i] == merged(a1, b)[i - 1]);
                } else if lex_lt(b[0].0, a[0].0) {
                    assert(m[i] == merged(a, b1)[i - 1]);
                } else {
                    assert(m[i] == merged(a1, b1)[i - 1]);
                }
            }
        }
        assert forall|k: Seq<char>| #[trigger] lookup(m, k) == (match lookup(b, k) {
            Some(v) => Some(v),
            None => lookup(a, k),
        }) by {
            lemma_merge_lookup_case(a, b, k);
        }
    }
}

/// Membership in a tail lifts to the whole sequence.
proof fn lemma_drop_first_contains(s: Seq<(Seq<char>, Seq<char>)>)
    requires
        s.len() >= 1,
    ensures
        forall|e: (Seq<char>, Seq<char>)|
            #[trigger] s.drop_first().contains(e) ==> s.contains(e),
{
    assert forall|e: (Seq<char>, Seq<char>)|
        #[trigger] s.drop_first().contains(e) implies s.contains(e) by {
        let p = choose|p: int| 0 <= p < s.drop_first().len() && s.drop_first()[p] == e;
        assert(s[p + 1] == e);
    }
}

/// The first emitted record precedes every record of both remaining
/// streams, so consing it onto a sorted merge stays sorted.
proof fn lemma_merge_cons_facts(
    x: (Seq<char>, Seq<char>),
    ra: Seq<(Seq<char>, Seq<char>)>,
    rb: Seq<(Seq<char>, Seq<char>)>,
    rest: Seq<(Seq<char>, Seq<char>)>,
)
    requires
        entries_sorted(ra),
        entries_sorted(rb),
        entries_sorted(rest),
        forall|i: int|
            0 <= i < rest.len() ==> ra.contains(#[trigger] rest[i]) || rb.contains(rest[i]),
        forall|i: int| 0 <= i < ra.len() ==> lex_lt(x.0, (#[trigger] ra[i]).0),
        forall|i: int| 0 <= i < rb.len() ==> lex_lt(x.0, (#[trigger] rb[i]).0),
    ensures
        entries_sorted(seq![x] + rest),
{
    let m = seq![x] + rest;
    assert forall|i: int, j: int| 0 <= i < j < m.len() implies lex_lt(
        (#[trigger] m[i]).0,
        (#[trigger] m[j]).0,
    ) by {
        if i == 0 {
            assert(m[j] == rest[j - 1]);
            if ra.contains(rest[j - 1]) {
                let p = choose|p: int| 0 <= p < ra.len() && ra[p] == rest[j - 1];
            } else {
                let p = choose|p: int| 0 <= p < rb.len() && rb[p] == rest[j - 1];
            }
        } else {
            assert(m[i] == rest[i - 1]);
            assert(m[j] == rest[j - 1]);
        }
    }
}

/// The lookup clause of merge correctness, one key at a time.
proof fn lemma_merge_lookup_case(
    a: Seq<(Seq<char>, Seq<char>)>,
    b: Seq<(Seq<char>, Seq<char>)>,
    k: Seq<char>,
)
    requires
        entries_sorted(a),
        entries_sorted(b),
    ensures
        lookup(merged(a, b), k) == (match lookup(b, k) {
            Some(v) => Some(v),
            None => lookup(a, k),
        }),
    decreases a.len() + b.len(),
{
    let m = merged(a, b);
    if a.len() == 0 {
        assert(lookup(a, k) is None);
    } else if b.len() == 0 {
        assert(lookup(b, k) is None);
    } else {
        let a1 = a.drop_first();
        let b1 = b.drop_first();
        assert(entries_sorted(a1));
        assert(entries_sorted(b1));
        assert(a =~= seq![a[0]] + a1);
        assert(b =~= seq![b[0]] + b1);
        lemma_lookup_cons(a[0], a1, k);
        lemma_lookup_cons(b[0], b1, k);
        lemma_lex_trichotomy(a[0].0, b[0].0);
        if lex_lt(a[0].0, b[0].0) {
            assert(merged(a, b) == seq![a[0]] + merged(a1, b));
            lemma_merge_lookup_case(a1, b, k);
            lemma_lookup_cons(a[0], merged(a1, b), k);
        } else if lex_lt(b[0].0, a[0].0) {
            assert(merged(a, b) == seq![b[0]] + merged(a, b1));
            lemma_merge_lookup_case(a, b1, k);
            lemma_lookup_cons(b[0], merged(a, b1), k);
            if b[0].0 == k {
                crate::records::lemma_lookup_char(a, k);
                match lookup(a, k) {
                    Some(w) => {
                        let i = choose|i: int| 0 <= i < a.len() && #[trigger] a[i] == (k, w);
                        if i > 0 {
                            assert(lex_lt(a[0].0, a[i].0));
                            lemma_lex_transitive(b[0].0, a[0].0, a[i].0);
                        }
                        lemma_lex_trichotomy(b[0].0, a[i].0);
                    },
                    None => {},
                }
            }
        } else {
            assert(a[0].0 == b[0].0);
            assert(merged(a, b) == seq![b[0]] + merged(a1, b1));
            lemma_merge_lookup_case(a1, b1, k);
            lemma_lookup_cons(b[0], merged(a1, b1), k);
            if b[0].0 == k {
                crate::records::lemma_lookup_char(a1, k);
                match lookup(a1, k) {
                    Some(w) => {
                        let i = choose|i: int| 0 <= i < a1.len() && #[trigger] a1[i] == (k, w);
                        assert(a1[i] == a[i + 1]);
                        assert(lex_lt(a[0].0, a[i + 1].0));
                        lemma_lex_trichotomy(a[0].0, a[i + 1].0);
                    },
                    None => {},
                }
            }
        }
    }
}

/// Valid records merge to valid records.
pub proof fn lemma_merge_valid(a: Seq<(Seq<char>, Seq<char>)>, b: Seq<(Seq<char>, Seq<char>)>)
    requires
        entries_sorted(a),
        entries_sorted(b),
        entries_valid(a),
        entries_valid(b),
    ensures
        entries_valid(merged(a, b)),
{
    lemma_merge_correct(a, b);
    let m = merged(a, b);
    assert forall|i: int| 0 <= i < m.len() implies crate::codec::valid_part((#[trigger] m[i]).0)
        && crate::codec::valid_part(m[i].1) by {
        if a.contains(m[i]) {
            let p = choose|p: int| 0 <= p < a.len() && a[p] == m[i];
        } else {
            let p = choose|p: int| 0 <= p < b.len() && b[p] == m[i];
        }
    }
}

/// Merge two sorted record streams, the second and newer winning on equal
/// keys.
pub fn merge_records(a: &Vec<(String, String)>, b: &Vec<(String, String)>) -> (r: Vec<
    (String, String),
>)
    ensures
        r.deep_view() == merged(a.deep_view(), b.deep_view()),
{
    let ghost av = a.deep_view();
    let ghost bv = b.deep_view();
    let na = a.len();
    let nb = b.len();
    let mut out: Vec<(String, String)> = Vec::new();
    let mut i: usize = 0;
    let mut j: usize = 0;
    proof {
        assert(av.skip(0) =~= av);
        assert(bv.skip(0) =~= bv);
        assert(out.deep_view() =~= Seq::<(Seq<char>, Seq<char>)>::empty());
        assert(out.deep_view() + merged(av, bv) =~= merged(av, bv));
    }
    loop
        invariant
            0 <= i <= na,
            0 <= j <= nb,
            na == av.len(),
            nb == bv.len(),
            av == a.deep_view(),
            bv == b.deep_view(),
            merged(av, bv) == out.deep_view() + merged(av.skip(i as int), bv.skip(j as int)),
        ensures
            i == na && j == nb,
            merged(av, bv) == out.deep_view() + merged(av.skip(i as int), bv.skip(j as int)),
        decreases na - i + nb - j,
    {
        if i == na && j == nb {
            break ;
        }
        let ghost asuf = av.skip(i as int);
        let ghost bsuf = bv.skip(j as int);
        let ghost prev = out.deep_view();
        if i == na {
            let e = &b[j];
            proof {
                assert(asuf.len() == 0);
                assert(bsuf[0] == bv[j as int]);
                assert(bv[j as int] == (e.0@, e.1@));
                assert(merged(asuf, bsuf) == bsuf);
            }
            out.push((e.0.clone(), e.1.clone()));
            proof {
                assert(out.deep_view() =~= prev.push(bv[j as int]));
                assert(bsuf =~= seq![bv[j as int]] + bv.skip(j + 1));
                assert(prev + (seq![bv[j as int]] + merged(av.skip(i as int), bv.skip(j + 1)))
                    =~= prev.push(bv[j as int]) + merged(av.skip(i as int), bv.skip(j + 1)));
                assert(merged(av.skip(i as int), bv.skip(j + 1)) == bv.skip(j + 1));
            }
            j = j + 1;
        } else if j == nb {
            let e = &a[i];
            proof {
                assert(bsuf.len() == 0);
                assert(asuf[0] == av[i as int]);
                assert(av[i as int] == (e.0@, e.1@));
                assert(asuf.len() > 0);
                assert(merged(asuf, bsuf) == asuf);
            }
            out.push((e.0.clone(), e.1.clone()));
            proof {
                assert(out.deep_view() =~= prev.push(av[i as int]));
                assert(asuf =~= seq![av[i as int]] + av.skip(i + 1));
                assert(prev + (seq![av[i as int]] + merged(av.skip(i + 1), bv.skip(j as int)))
                    =~= prev.push(av[i as int]) + merged(av.skip(i + 1), bv.skip(j as int)));
                assert(merged(av.skip(i + 1), bv.skip(j as int)) == av.skip(i + 1));
            }
            i = i + 1;
        } else {
            let ea = &a[i];
            let eb = &b[j];
            proof {
                assert(asuf[0] == av[i as int]);
                assert(bsuf[0] == bv[j as int]);
                assert(av[i as int] == (ea.0@, ea.1@));
                assert(bv[j as int] == (eb.0@, eb.1@));
                assert(asuf.drop_first() =~= av.skip(i + 1));
                assert(bsuf.drop_first() =~= bv.skip(j + 1));
            }
            match str_cmp(ea.0.as_str(), eb.0.as_str()) {
                Ordering::Less => {
                    proof {
                        lemma_lex_trichotomy(ea.0@, eb.0@);
                        assert(merged(asuf, bsuf) == seq![asuf[0]] + merged(
                            asuf.drop_first(),
                            bsuf,
                        ));
                    }
                    out.push((ea.0.clone(), ea.1.clone()));
                    proof {
                        assert(out.deep_view() =~= prev.push(av[i as int]));
                        assert(prev + (seq![av[i as int]] + merged(av.skip(i + 1), bsuf))
                            =~= prev.push(av[i as int]) + merged(av.skip(i + 1), bsuf));
                    }
                    i = i + 1;
                },
                Ordering::Greater => {
                    proof {
                        lemma_lex_trichotomy(ea.0@, eb.0@);
                        assert(merged(asuf, bsuf) == seq![bsuf[0]] + merged(
                            asuf,
                            bsuf.drop_first(),
                        ));
                    }
                    out.push((eb.0.clone(), eb.1.clone()));
                    proof {
                        assert(out.deep_view() =~= prev.push(bv[j as int]));
                        assert(prev + (seq![bv[j as int]] + merged(asuf, bv.skip(j + 1)))
                            =~= prev.push(bv[j as int]) + merged(asuf, bv.skip(j + 1)));
                    }
                    j = j + 1;
                },
                Ordering::Equal => {
                    proof {
                        lemma_lex_trichotomy(ea.0@, eb.0@);
                        assert(merged(asuf, bsuf) == seq![bsuf[0]] + merged(
                            asuf.drop_first(),
                            bsuf.drop_first(),
                        ));
                    }
                    out.push((eb.0.clone(), eb.1.clone()));
                    proof {
                        assert(out.deep_view() =~= prev.push(bv[j as int]));
                        assert(prev + (seq![bv[j as int]] + merged(av.skip(i + 1), bv.skip(j + 1)))
                            =~= prev.push(bv[j as int]) + merged(av.skip(i + 1), bv.skip(j + 1)));
                    }
                    i = i + 1;
                    j = j + 1;
                },
            }
        }
    }
    proof {
        assert(av.skip(na as int).len() == 0);
        assert(merged(av.skip(na as int), bv.skip(nb as int)) == bv.skip(nb as int));
        assert(bv.skip(nb as int).len() == 0);
        assert(out.deep_view() + bv.skip(nb as int) =~= out.deep_view());
    }
    out
}

} // verus!
