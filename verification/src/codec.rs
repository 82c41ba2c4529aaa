//! The record codec: one record per line, `key=value` followed by a newline.
//!
//! Decoding splits a line on the separator `=`, trims surrounding whitespace
//! from both halves, and succeeds only if the split yields exactly two
//! tokens; any other count is a format error.  No escaping is supported, so
//! keys and values must not themselves contain the separator or a newline.

use vstd::prelude::*;
use vstd::string::*;

verus! {

/// A whitespace character, as recognized by the codec's trimming.
pub open spec fn is_ws(c: char) -> bool {
    c == ' ' || c == '\t' || c == '\r' || c == '\n'
}

/// `s` with leading whitespace removed.
pub open spec fn ltrim(s: Seq<char>) -> Seq<char>
    decreases s.len(),
{
    if s.len() > 0 && is_ws(s[0]) {
        ltrim(s.drop_first())
    } else {
        s
    }
}

/// `s` with trailing whitespace removed.
pub open spec fn rtrim(s: Seq<char>) -> Seq<char>
    decreases s.len(),
{
    if s.len() > 0 && is_ws(s.last()) {
        rtrim(s.drop_last())
    } else {
        s
    }
}

/// `s` with both leading and trailing whitespace removed.
pub open spec fn trim_spec(s: Seq<char>) -> Seq<char> {
    rtrim(ltrim(s))
}

/// A string that may stand as the key or the value of a record: it holds
/// neither the separator nor a newline, and carries no surrounding
/// whitespace (which decoding would strip away).
pub open spec fn valid_part(s: Seq<char>) -> bool {
    &&& forall|i: int| 0 <= i < s.len() ==> s[i] != '=' && s[i] != '\n'
    &&& s.len() > 0 ==> !is_ws(s[0]) && !is_ws(s[s.len() - 1])
}

/// The encoded line for a record: `key`, separator, `value`, newline.
pub open spec fn encode_spec(key: Seq<char>, value: Seq<char>) -> Seq<char> {
    key + seq!['='] + value + seq!['\n']
}

/// Index `i` is the unique occurrence of the separator in `s`.
pub open spec fn split_point(s: Seq<char>, i: int) -> bool {
    &&& 0 <= i < s.len()
    &&& s[i] == '='
    &&& forall|j: int| 0 <= j < s.len() && j != i ==> s[j] != '='
}

/// A line splits into exactly two separator-delimited tokens.
pub open spec fn decodable(s: Seq<char>) -> bool {
    exists|i: int| split_point(s, i)
}

/// The key half of a decodable line, trimmed.
pub open spec fn decoded_key(s: Seq<char>) -> Seq<char> {
    trim_spec(s.subrange(0, choose|i: int| split_point(s, i)))
}

/// The value half of a decodable line, trimmed.
pub open spec fn decoded_value(s: Seq<char>) -> Seq<char> {
    trim_spec(s.subrange((choose|i: int| split_point(s, i)) + 1, s.len() as int))
}

pub proof fn lemma_split_point_unique(s: Seq<char>, i: int, j: int)
    requires
        split_point(s, i),
        split_point(s, j),
    ensures
        i == j,
{
}

/// Report of a line that does not split into exactly two tokens.
#[derive(Clone, Copy, PartialEq, Eq, Structural, Debug)]
pub enum FormatError {
    InvalidFormat,
}

impl FormatError {
    /// A human-readable description of the error.
    pub fn message(&self) -> String {
        "string is in an invalid format!".to_owned()
    }
}

/// One key-value record.
#[derive(Debug, PartialEq, Eq)]
pub struct Assignment {
    pub key: String,
    pub value: String,
}

fn is_ws_char(c: char) -> (r: bool)
    ensures
        r == is_ws(c),
{
    c == ' ' || c == '\t' || c == '\r' || c == '\n'
}

proof fn lemma_ltrim_prefix(s: Seq<char>, a: int)
    requires
        0 <= a <= s.len(),
        forall|j: int| 0 <= j < a ==> is_ws(s[j]),
        a == s.len() || !is_ws(s[a]),
    ensures
        ltrim(s) == s.subrange(a, s.len() as int),
    decreases a,
{
    if a == 0 {
        assert(s.subrange(0, s.len() as int) =~= s);
    } else {
        assert(is_ws(s[0]));
        let t = s.drop_first();
        assert(forall|j: int| 0 <= j < a - 1 ==> is_ws(t[j]));
        lemma_ltrim_prefix(t, a - 1);
        assert(t.subrange(a - 1, t.len() as int) =~= s.subrange(a, s.len() as int));
    }
}

proof fn lemma_rtrim_suffix(s: Seq<char>, b: int)
    requires
        0 <= b <= s.len(),
        forall|j: int| b <= j < s.len() ==> is_ws(s[j]),
        b == 0 || !is_ws(s[b - 1]),
    ensures
        rtrim(s) == s.subrange(0, b),
    decreases s.len() - b,
{
    if b == s.len() {
        assert(s.subrange(0, s.len() as int) =~= s);
    } else {
        assert(is_ws(s.last()));
        let t = s.drop_last();
        lemma_rtrim_suffix(t, b);
        assert(t.subrange(0, b) =~= s.subrange(0, b));
    }
}

proof fn lemma_ltrim_suffix(s: Seq<char>)
    ensures
        exists|a: int|
            0 <= a <= s.len() && ltrim(s) == s.subrange(a, s.len() as int),
        ltrim(s).len() > 0 ==> !is_ws(ltrim(s)[0]),
    decreases s.len(),
{
    if s.len() > 0 && is_ws(s[0]) {
        let t = s.drop_first();
        lemma_ltrim_suffix(t);
        let a = choose|a: int| 0 <= a <= t.len() && ltrim(t) == t.subrange(a, t.len() as int);
        assert(t.subrange(a, t.len() as int) =~= s.subrange(a + 1, s.len() as int));
        assert(ltrim(s) == s.subrange(a + 1, s.len() as int));
    } else {
        assert(s.subrange(0, s.len() as int) =~= s);
        assert(ltrim(s) == s.subrange(0, s.len() as int));
    }
}

proof fn lemma_rtrim_prefix(s: Seq<char>)
    ensures
        exists|b: int| 0 <= b <= s.len() && rtrim(s) == s.subrange(0, b),
        rtrim(s).len() > 0 ==> !is_ws(rtrim(s)[rtrim(s).len() - 1]),
    decreases s.len(),
{
    if s.len() > 0 && is_ws(s.last()) {
        let t = s.drop_last();
        lemma_rtrim_prefix(t);
        let b = choose|b: int| 0 <= b <= t.len() && rtrim(t) == t.subrange(0, b);
        assert(t.subrange(0, b) =~= s.subrange(0, b));
        assert(rtrim(s) == s.subrange(0, b));
    } else {
        assert(s.subrange(0, s.len() as int) =~= s);
        assert(rtrim(s) == s.subrange(0, s.len() as int));
    }
}

/// Trimming yields a contiguous slice of the string, free of surrounding
/// whitespace.
pub proof fn lemma_trim_props(s: Seq<char>)
    ensures
        exists|a: int, b: int|
            0 <= a <= b <= s.len() && trim_spec(s) == s.subrange(a, b),
        trim_spec(s).len() > 0 ==> !is_ws(trim_spec(s)[0]) && !is_ws(
            trim_spec(s)[trim_spec(s).len() - 1],
        ),
{
    lemma_ltrim_suffix(s);
    let l = ltrim(s);
    let a = choose|a: int| 0 <= a <= s.len() && l == s.subrange(a, s.len() as int);
    lemma_rtrim_prefix(l);
    let b = choose|b: int| 0 <= b <= l.len() && rtrim(l) == l.subrange(0, b);
    assert(l.subrange(0, b) =~= s.subrange(a, a + b));
    assert(trim_spec(s) == s.subrange(a, a + b));
    if trim_spec(s).len() > 0 {
        assert(trim_spec(s)[0] == l.subrange(0, b)[0]);
        assert(l.subrange(0, b)[0] == l[0]);
    }
}

/// The two halves of a decodable line free of line breaks make a valid
/// record: neither holds a separator, a line break, or surrounding
/// whitespace.
pub proof fn lemma_decoded_parts_valid(l: Seq<char>)
    requires
        decodable(l),
        forall|p: int| 0 <= p < l.len() ==> l[p] != '\n',
    ensures
        valid_part(decoded_key(l)),
        valid_part(decoded_value(l)),
{
    let i = choose|i: int| split_point(l, i);
    let kp = l.subrange(0, i);
    let vp = l.subrange(i + 1, l.len() as int);
    lemma_trim_props(kp);
    lemma_trim_props(vp);
    let dk = trim_spec(kp);
    let (a, b) = choose|a: int, b: int| 0 <= a <= b <= kp.len() && dk == kp.subrange(a, b);
    let dv = trim_spec(vp);
    let (a2, b2) = choose|a2: int, b2: int|
        0 <= a2 <= b2 <= vp.len() && dv == vp.subrange(a2, b2);
    assert forall|p: int| 0 <= p < dk.len() implies dk[p] != '=' && dk[p] != '\n' by {
        assert(dk[p] == kp[a + p]);
        assert(kp[a + p] == l[a + p]);
    }
    assert forall|p: int| 0 <= p < dv.len() implies dv[p] != '=' && dv[p] != '\n' by {
        assert(dv[p] == vp[a2 + p]);
        assert(vp[a2 + p] == l[i + 1 + a2 + p]);
    }
}

/// A string without surrounding whitespace is unchanged by trimming.
pub proof fn lemma_trim_id(s: Seq<char>)
    requires
        s.len() > 0 ==> !is_ws(s[0]) && !is_ws(s[s.len() - 1]),
    ensures
        trim_spec(s) == s,
{
    lemma_ltrim_prefix(s, 0);
    assert(ltrim(s) =~= s);
    lemma_rtrim_suffix(s, s.len() as int);
    assert(rtrim(s) =~= s);
}

/// Trim surrounding whitespace from a string.
pub fn trim_str(s: &str) -> (r: String)
    ensures
        r@ == trim_spec(s@),
{
    let n = s.unicode_len();
    let mut a: usize = 0;
    while a < n && is_ws_char(s.get_char(a))
        invariant
            0 <= a <= n,
            n == s@.len(),
            forall|j: int| 0 <= j < a ==> is_ws(s@[j]),
        decreases n - a,
    {
        a = a + 1;
    }
    if a == n {
        proof {
            lemma_ltrim_prefix(s@, a as int);
            assert(s@.subrange(n as int, n as int) =~= Seq::<char>::empty());
            lemma_rtrim_suffix(Seq::<char>::empty(), 0);
            assert(Seq::<char>::empty().subrange(0, 0) =~= Seq::<char>::empty());
        }
        return String::new();
    }
    let mut b: usize = n;
    while b > a + 1 && is_ws_char(s.get_char(b - 1))
        invariant
            a < b <= n,
            n == s@.len(),
            !is_ws(s@[a as int]),
            forall|j: int| b <= j < n ==> is_ws(s@[j]),
        decreases b,
    {
        b = b - 1;
    }
    // the character at a is not whitespace, so the right scan stops at b > a
    let sub = s.substring_char(a, b);
    proof {
        lemma_ltrim_prefix(s@, a as int);
        let t = s@.subrange(a as int, n as int);
        lemma_rtrim_suffix(t, b - a);
        assert(t.subrange(0, b - a) =~= s@.subrange(a as int, b as int));
    }
    sub.to_owned()
}

/// Encode a record as one line: key, separator, value, newline.
pub fn encode(key: &str, value: &str) -> (line: String)
    ensures
        line@ == encode_spec(key@, value@),
{
    let mut line = key.to_owned();
    line.append("=");
    line.append(value);
    line.append("\n");
    proof {
        reveal_strlit("=");
        reveal_strlit("\n");
        assert(("=")@ =~= seq!['=']);
        assert(("\n")@ =~= seq!['\n']);
    }
    line
}

impl Assignment {
    /// Decode one line into a record: split on the separator, demand exactly
    /// two tokens, and trim surrounding whitespace from each.
    pub fn from_str(s: &str) -> (r: Result<Assignment, FormatError>)
        ensures
            r is Ok <==> decodable(s@),
            r matches Ok(a) ==> a.key@ == decoded_key(s@) && a.value@ == decoded_value(s@),
    {
        let n = s.unicode_len();
        let mut i: usize = 0;
        let mut eq_pos: usize = 0;
        let mut second_pos: usize = 0;
        let mut count: usize = 0;
        while i < n
            invariant
                0 <= i <= n,
                n == s@.len(),
                count <= 2,
                count == 0 ==> forall|j: int| 0 <= j < i ==> s@[j] != '=',
                count >= 1 ==> eq_pos < i && s@[eq_pos as int] == '=',
                count == 1 ==> forall|j: int|
                    0 <= j < i && j != eq_pos ==> s@[j] != '=',
                count >= 2 ==> second_pos < i && eq_pos < second_pos
                    && s@[second_pos as int] == '=',
            decreases n - i,
        {
            if s.get_char(i) == '=' {
                if count == 0 {
                    eq_pos = i;
                    count = 1;
                } else if count == 1 {
                    second_pos = i;
                    count = 2;
                }
            }
            i = i + 1;
        }
        if count != 1 {
            proof {
                if count == 0 {
                    assert(forall|k: int| !split_point(s@, k));
                } else {
                    assert forall|k: int| !split_point(s@, k) by {
                        if split_point(s@, k) {
                            assert(s@[eq_pos as int] == '=');
                            assert(s@[second_pos as int] == '=');
                        }
                    }
                }
            }
            return Err(FormatError::InvalidFormat);
        }
        proof {
            assert(split_point(s@, eq_pos as int));
            lemma_split_point_unique(s@, eq_pos as int, choose|k: int| split_point(s@, k));
        }
        let key_half = s.substring_char(0, eq_pos);
        let value_half = s.substring_char(eq_pos + 1, n);
        Ok(Assignment { key: trim_str(key_half), value: trim_str(value_half) })
    }
}

/// Test whether a string may stand as the key or the value of a record.
pub fn is_valid_part(s: &str) -> (r: bool)
    ensures
        r == valid_part(s@),
{
    let n = s.unicode_len();
    if n > 0 && (is_ws_char(s.get_char(0)) || is_ws_char(s.get_char(n - 1))) {
        return false;
    }
    let mut i: usize = 0;
    while i < n
        invariant
            0 <= i <= n,
            n == s@.len(),
            forall|j: int| 0 <= j < i ==> s@[j] != '=' && s@[j] != '\n',
        decreases n - i,
    {
        let c = s.get_char(i);
        if c == '=' || c == '\n' {
            return false;
        }
        i = i + 1;
    }
    true
}

/// A bare line built from valid halves decodes to exactly those halves.
pub proof fn lemma_line_round_trip(key: Seq<char>, value: Seq<char>)
    requires
        valid_part(key),
        valid_part(value),
    ensures
        decodable(key + seq!['='] + value),
        decoded_key(key + seq!['='] + value) == key,
        decoded_value(key + seq!['='] + value) == value,
{
    let s = key + seq!['='] + value;
    let i = key.len() as int;
    assert(s[i] == '=');
    assert forall|j: int| 0 <= j < s.len() && j != i implies s[j] != '=' by {
        if j < i {
            assert(s[j] == key[j]);
        } else {
            assert(s[j] == value[j - i - 1]);
        }
    }
    assert(split_point(s, i));
    lemma_split_point_unique(s, i, choose|k: int| split_point(s, k));
    assert(s.subrange(0, i) =~= key);
    lemma_trim_id(key);
    assert(s.subrange(i + 1, s.len() as int) =~= value);
    lemma_trim_id(value);
}

/// The round trip law: a record whose key and value are free of the
/// separator and of newlines, and carry no surrounding whitespace, is
/// returned unchanged by decoding its own encoding.
pub proof fn lemma_round_trip(key: Seq<char>, value: Seq<char>)
    requires
        valid_part(key),
        valid_part(value),
    ensures
        decodable(encode_spec(key, value)),
        decoded_key(encode_spec(key, value)) == key,
        decoded_value(encode_spec(key, value)) == value,
{
    let s = encode_spec(key, value);
    let i = key.len() as int;
    assert(s[i] == '=');
    assert forall|j: int| 0 <= j < s.len() && j != i implies s[j] != '=' by {
        if j < i {
            assert(s[j] == key[j]);
        } else if j < s.len() - 1 {
            assert(s[j] == value[j - i - 1]);
        } else {
            assert(s[j] == '\n');
        }
    }
    assert(split_point(s, i));
    lemma_split_point_unique(s, i, choose|k: int| split_point(s, k));
    assert(s.subrange(0, i) =~= key);
    lemma_trim_id(key);
    let v = s.subrange(i + 1, s.len() as int);
    assert(v =~= value + seq!['\n']);
    if value.len() == 0 {
        assert(v =~= seq!['\n']);
        assert(is_ws(v[0]));
        assert(v.drop_first() =~= Seq::<char>::empty());
        lemma_ltrim_prefix(v, 1);
        assert(v.subrange(1, 1) =~= Seq::<char>::empty());
        lemma_rtrim_suffix(Seq::<char>::empty(), 0);
        assert(Seq::<char>::empty().subrange(0, 0) =~= Seq::<char>::empty());
        assert(decoded_value(s) == value);
    } else {
        lemma_ltrim_prefix(v, 0);
        assert(ltrim(v) =~= v);
        lemma_rtrim_suffix(v, value.len() as int);
        assert(v.subrange(0, value.len() as int) =~= value);
    }
}

} // verus!
