//! Lexicographic order on keys, by character code point.  The memtable, the
//! sparse index and the segments all keep their records ascending in this
//! order, and the compaction merge compares head keys with it.

use vstd::prelude::*;
use vstd::string::*;
use core::cmp::Ordering;

verus! {

/// Strict lexicographic order on character sequences.
pub open spec fn lex_lt(a: Seq<char>, b: Seq<char>) -> bool
    decreases a.len(),
{
    if b.len() == 0 {
        false
    } else if a.len() == 0 {
        true
    } else if (a[0] as int) < (b[0] as int) {
        true
    } else if (a[0] as int) > (b[0] as int) {
        false
    } else {
        lex_lt(a.drop_first(), b.drop_first())
    }
}

/// Non-strict lexicographic order.
pub open spec fn lex_le(a: Seq<char>, b: Seq<char>) -> bool {
    lex_lt(a, b) || a == b
}

/// Of two sequences, exactly one of `a < b`, `a == b`, `b < a` holds.
pub proof fn lemma_lex_trichotomy(a: Seq<char>, b: Seq<char>)
    ensures
        lex_lt(a, b) || a == b || lex_lt(b, a),
        lex_lt(a, b) ==> a != b && !lex_lt(b, a),
        a == b ==> !lex_lt(a, b) && !lex_lt(b, a),
    decreases a.len(),
{
    if a.len() == 0 && b.len() == 0 {
        assert(a =~= b);
    } else if a.len() > 0 && b.len() > 0 && a[0] == b[0] {
        lemma_lex_trichotomy(a.drop_first(), b.drop_first());
        if a.drop_first() == b.drop_first() {
            assert forall|j: int| 0 <= j < a.len() implies a[j] == b[j] by {
                if j > 0 {
                    assert(a[j] == a.drop_first()[j - 1]);
                    assert(b[j] == b.drop_first()[j - 1]);
                }
            }
            assert(a =~= b);
        }
        if a == b {
            assert(a.drop_first() =~= b.drop_first());
        }
    } else {
        if a == b && a.len() > 0 {
            assert(a[0] == b[0]);
        }
    }
}

/// Lexicographic order is transitive.
pub proof fn lemma_lex_transitive(a: Seq<char>, b: Seq<char>, c: Seq<char>)
    requires
        lex_lt(a, b),
        lex_lt(b, c),
    ensures
        lex_lt(a, c),
    decreases a.len(),
{
    if a.len() == 0 {
        assert(b.len() > 0);
        assert(c.len() > 0);
    } else {
        assert(b.len() > 0 && c.len() > 0);
        if a[0] == b[0] && b[0] == c[0] {
            lemma_lex_transitive(a.drop_first(), b.drop_first(), c.drop_first());
        }
    }
}

proof fn lemma_lex_lt_common_prefix(a: Seq<char>, b: Seq<char>, i: int)
    requires
        0 <= i <= a.len(),
        i <= b.len(),
        forall|j: int| 0 <= j < i ==> a[j] == b[j],
        (i < a.len() && i < b.len() && (a[i] as int) < (b[i] as int)) || (i == a.len() && i
            < b.len()),
    ensures
        lex_lt(a, b),
    decreases i,
{
    if i == 0 {
    } else {
        assert(a[0] == b[0]);
        lemma_lex_lt_common_prefix(a.drop_first(), b.drop_first(), i - 1);
    }
}

/// Three-way comparison of two strings in lexicographic order.
pub fn str_cmp(a: &str, b: &str) -> (o: Ordering)
    ensures
        o is Less ==> lex_lt(a@, b@),
        o is Equal ==> a@ == b@,
        o is Greater ==> lex_lt(b@, a@),
{
    let an = a.unicode_len();
    let bn = b.unicode_len();
    let mut i: usize = 0;
    loop
        invariant
            0 <= i <= an,
            i <= bn,
            an == a@.len(),
            bn == b@.len(),
            forall|j: int| 0 <= j < i ==> a@[j] == b@[j],
        ensures
            i <= an,
            i <= bn,
            i == an || i == bn,
            forall|j: int| 0 <= j < i ==> a@[j] == b@[j],
        decreases an - i,
    {
        if i == an || i == bn {
            break ;
        }
        let ca = a.get_char(i);
        let cb = b.get_char(i);
        if (ca as u32) < (cb as u32) {
            proof {
                lemma_lex_lt_common_prefix(a@, b@, i as int);
            }
            return Ordering::Less;
        }
        if (ca as u32) > (cb as u32) {
            proof {
                lemma_lex_lt_common_prefix(b@, a@, i as int);
            }
            return Ordering::Greater;
        }
        i = i + 1;
    }
    if an == bn {
        proof {
            assert(a@ =~= b@);
        }
        Ordering::Equal
    } else if an < bn {
        proof {
            lemma_lex_lt_common_prefix(a@, b@, an as int);
        }
        Ordering::Less
    } else {
        proof {
            lemma_lex_lt_common_prefix(b@, a@, bn as int);
        }
        Ordering::Greater
    }
}

pub proof fn lemma_lex_le_lt_trans(a: Seq<char>, b: Seq<char>, c: Seq<char>)
    requires
        lex_le(a, b),
        lex_lt(b, c),
    ensures
        lex_lt(a, c),
{
    if a != b {
        lemma_lex_transitive(a, b, c);
    }
}

pub proof fn lemma_lex_lt_le_trans(a: Seq<char>, b: Seq<char>, c: Seq<char>)
    requires
        lex_lt(a, b),
        lex_le(b, c),
    ensures
        lex_lt(a, c),
{
    if b != c {
        lemma_lex_transitive(a, b, c);
    }
}

/// Whether `a` precedes or equals `b` in lexicographic order.
pub fn str_le(a: &str, b: &str) -> (r: bool)
    ensures
        r == lex_le(a@, b@),
{
    proof {
        lemma_lex_trichotomy(a@, b@);
    }
    match str_cmp(a, b) {
        Ordering::Greater => false,
        _ => true,
    }
}

/// Whether `a` precedes `b` in lexicographic order.
pub fn str_lt(a: &str, b: &str) -> (r: bool)
    ensures
        r == lex_lt(a@, b@),
{
    proof {
        lemma_lex_trichotomy(a@, b@);
    }
    match str_cmp(a, b) {
        Ordering::Less => true,
        _ => false,
    }
}

} // verus!
