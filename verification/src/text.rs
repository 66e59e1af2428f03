//! Character-level helpers shared by the parsers and the name builders.
use vstd::prelude::*;

verus! {

/// ASCII letter.
pub open spec fn is_alpha(c: char) -> bool {
    ('a' <= c && c <= 'z') || ('A' <= c && c <= 'Z')
}

/// ASCII decimal digit.
pub open spec fn is_digit(c: char) -> bool {
    '0' <= c && c <= '9'
}

/// Character allowed inside an identifier: ASCII alphanumeric or underscore.
pub open spec fn is_ident_char(c: char) -> bool {
    is_alpha(c) || is_digit(c) || c == '_'
}

/// ASCII whitespace as `char::is_ascii_whitespace` defines it.
pub open spec fn is_space(c: char) -> bool {
    c == ' ' || c == '\t' || c == '\n' || c == '\r' || c == '\x0C'
}

pub fn alpha(c: char) -> (r: bool)
    ensures
        r == is_alpha(c),
{
    ('a' <= c && c <= 'z') || ('A' <= c && c <= 'Z')
}

pub fn digit(c: char) -> (r: bool)
    ensures
        r == is_digit(c),
{
    '0' <= c && c <= '9'
}

pub fn ident_char(c: char) -> (r: bool)
    ensures
        r == is_ident_char(c),
{
    alpha(c) || digit(c) || c == '_'
}

pub fn space(c: char) -> (r: bool)
    ensures
        r == is_space(c),
{
    c == ' ' || c == '\t' || c == '\n' || c == '\r' || c == '\x0C'
}

/// The characters of a string slice, in order.
pub fn chars_of(s: &str) -> (r: Vec<char>)
    ensures
        r@ == s@,
{
    let mut out: Vec<char> = Vec::new();
    for c in it: s.chars()
        invariant
            out@ == it.seq().take(it.index() as int),
            it.seq() == s@,
    {
        out.push(c);
    }
    out
}

/// Appends one character: `String::push`.
#[verifier::external_body]
pub(crate) fn push_char(s: &mut String, c: char)
    ensures
        final(s)@ == old(s)@.push(c),
{
    s.push(c);
}

/// Appends the characters of `c` to `s`.
pub fn push_chars(s: &mut String, c: &[char])
    ensures
        final(s)@ == old(s)@ + c@,
{
    let mut i: usize = 0;
    while i < c.len()
        invariant
            i <= c.len(),
            s@ == old(s)@ + c@.take(i as int),
        decreases c.len() - i,
    {
        push_char(s, c[i]);
        proof {
            assert(c@.take(i + 1) =~= c@.take(i as int).push(c@[i as int]));
        }
        i += 1;
    }
    proof {
        assert(c@.take(c.len() as int) =~= c@);
    }
}

/// A string made of the characters `c`.
pub fn from_chars(c: &[char]) -> (r: String)
    ensures
        r@ == c@,
{
    let mut s = String::new();
    push_chars(&mut s, c);
    s
}

/// A string made of the characters `c[from..to]`.
pub fn from_char_range(c: &[char], from: usize, to: usize) -> (r: String)
    requires
        from <= to <= c@.len(),
    ensures
        r@ == c@.subrange(from as int, to as int),
{
    let mut s = String::new();
    let mut i: usize = from;
    while i < to
        invariant
            from <= i <= to <= c@.len(),
            s@ == c@.subrange(from as int, i as int),
        decreases to - i,
    {
        push_char(&mut s, c[i]);
        proof {
            assert(c@.subrange(from as int, i + 1) =~= c@.subrange(from as int, i as int).push(
                c@[i as int],
            ));
        }
        i += 1;
    }
    s
}

/// An owned copy of a string slice.
pub fn owned(s: &str) -> (r: String)
    ensures
        r@ == s@,
{
    let c = chars_of(s);
    from_chars(c.as_slice())
}

/// `a` followed by `b`.
pub fn concat(a: &str, b: &str) -> (r: String)
    ensures
        r@ == a@ + b@,
{
    let mut s = owned(a);
    let c = chars_of(b);
    push_chars(&mut s, c.as_slice());
    s
}

/// Appends a string slice.
pub fn push_str(s: &mut String, t: &str)
    ensures
        final(s)@ == old(s)@ + t@,
{
    let c = chars_of(t);
    push_chars(s, c.as_slice());
}

/// Character-wise equality of two string slices.
pub fn str_eq(a: &str, b: &str) -> (r: bool)
    ensures
        r == (a@ == b@),
{
    let x = chars_of(a);
    let y = chars_of(b);
    chars_eq(x.as_slice(), y.as_slice())
}

/// Equality of two character slices.
pub fn chars_eq(x: &[char], y: &[char]) -> (r: bool)
    ensures
        r == (x@ == y@),
{
    if x.len() != y.len() {
        return false;
    }
    let mut i: usize = 0;
    while i < x.len()
        invariant
            i <= x.len() == y.len(),
            forall|j: int| 0 <= j < i ==> x@[j] == y@[j],
        decreases x.len() - i,
    {
        if x[i] != y[i] {
            return false;
        }
        i += 1;
    }
    proof {
        assert(x@ =~= y@);
    }
    true
}

/// Whether `pre` is a prefix of `s` starting at position `at`.
pub open spec fn has_prefix_at(s: Seq<char>, at: int, pre: Seq<char>) -> bool {
    0 <= at && at + pre.len() <= s.len() && s.subrange(at, at + pre.len()) == pre
}

/// Tests `has_prefix_at`.
pub fn starts_with_at(s: &[char], at: usize, pre: &[char]) -> (r: bool)
    requires
        at <= s@.len(),
    ensures
        r == has_prefix_at(s@, at as int, pre@),
{
    if pre.len() > s.len() - at {
        return false;
    }
    let mut i: usize = 0;
    while i < pre.len()
        invariant
            at + pre.len() <= s.len(),
            i <= pre.len(),
            forall|j: int| 0 <= j < i ==> s@[at + j] == pre@[j],
        decreases pre.len() - i,
    {
        if s[at + i] != pre[i] {
            assert(s@.subrange(at as int, at + pre.len())[i as int] != pre@[i as int]);
            return false;
        }
        i += 1;
    }
    proof {
        assert(s@.subrange(at as int, at + pre.len()) =~= pre@);
    }
    true
}

/// Decimal digits of a natural number.
pub open spec fn decimal(n: nat) -> Seq<char>
    decreases n,
{
    if n < 10 {
        seq![digit_char(n)]
    } else {
        decimal(n / 10).push(digit_char(n % 10))
    }
}

pub open spec fn digit_char(d: nat) -> char {
    if d == 0 { '0' } else if d == 1 { '1' } else if d == 2 { '2' } else if d == 3 { '3' }
    else if d == 4 { '4' } else if d == 5 { '5' } else if d == 6 { '6' } else if d == 7 { '7' }
    else if d == 8 { '8' } else { '9' }
}

fn digit_of(d: u64) -> (c: char)
    requires
        d < 10,
    ensures
        c == digit_char(d as nat),
{
    if d == 0 { '0' } else if d == 1 { '1' } else if d == 2 { '2' } else if d == 3 { '3' }
    else if d == 4 { '4' } else if d == 5 { '5' } else if d == 6 { '6' } else if d == 7 { '7' }
    else if d == 8 { '8' } else { '9' }
}

/// Appends the decimal digits of `n`.
pub fn push_decimal(s: &mut String, n: u64)
    ensures
        final(s)@ == old(s)@ + decimal(n as nat),
    decreases n,
{
    if n < 10 {
        push_char(s, digit_of(n));
        proof { assert(old(s)@.push(digit_char(n as nat)) =~= old(s)@ + seq![digit_char(n as nat)]); }
    } else {
        push_decimal(s, n / 10);
        push_char(s, digit_of(n % 10));
        proof {
            assert(old(s)@ + decimal(n as nat / 10) + seq![digit_char(n as nat % 10)]
                =~= old(s)@ + decimal(n as nat));
        }
    }
}

/// The decimal text of `n`.
pub fn u64_text(n: u64) -> (r: String)
    ensures
        r@ == decimal(n as nat),
{
    let mut s = String::new();
    push_decimal(&mut s, n);
    s
}

/// The decimal text of a signed integer.
pub open spec fn signed_decimal(v: int) -> Seq<char> {
    if v < 0 { seq!['-'] + decimal((-v) as nat) } else { decimal(v as nat) }
}

pub fn push_signed(s: &mut String, v: i64)
    ensures
        final(s)@ == old(s)@ + signed_decimal(v as int),
{
    if v < 0 {
        push_char(s, '-');
        let m: u64 = if v == i64::MIN { 9223372036854775808u64 } else { (-v) as u64 };
        push_decimal(s, m);
        proof {
            assert(old(s)@.push('-') + decimal(m as nat) =~= old(s)@ + (seq!['-'] + decimal(m as nat)));
        }
    } else {
        push_decimal(s, v as u64);
    }
}

} // verus!

verus! {

/// Strict lexicographic order on character sequences (the order of `String`).
pub open spec fn seq_lt(a: Seq<char>, b: Seq<char>) -> bool
    decreases a.len(),
{
    if b.len() == 0 {
        false
    } else if a.len() == 0 {
        true
    } else if a[0] != b[0] {
        (a[0] as int) < (b[0] as int)
    } else {
        seq_lt(a.drop_first(), b.drop_first())
    }
}

pub proof fn lemma_seq_lt_irreflexive(a: Seq<char>)
    ensures
        !seq_lt(a, a),
    decreases a.len(),
{
    if a.len() > 0 {
        lemma_seq_lt_irreflexive(a.drop_first());
    }
}

pub proof fn lemma_seq_lt_total(a: Seq<char>, b: Seq<char>)
    ensures
        a != b ==> seq_lt(a, b) || seq_lt(b, a),
        !(seq_lt(a, b) && seq_lt(b, a)),
    decreases a.len(),
{
    if a.len() > 0 && b.len() > 0 {
        lemma_seq_lt_total(a.drop_first(), b.drop_first());
        if a[0] == b[0] && a.drop_first() == b.drop_first() {
            assert(a =~= seq![a[0]] + a.drop_first());
            assert(b =~= seq![b[0]] + b.drop_first());
        }
    } else if a.len() == 0 && b.len() == 0 {
        assert(a =~= b);
    }
}

pub proof fn lemma_seq_lt_transitive(a: Seq<char>, b: Seq<char>, c: Seq<char>)
    requires
        seq_lt(a, b),
        seq_lt(b, c),
    ensures
        seq_lt(a, c),
    decreases a.len(),
{
    if a.len() > 0 && b.len() > 0 && c.len() > 0 {
        if a[0] == b[0] && b[0] == c[0] {
            lemma_seq_lt_transitive(a.drop_first(), b.drop_first(), c.drop_first());
        }
    }
}

/// Exec test of `seq_lt`.
pub fn chars_lt(a: &[char], b: &[char]) -> (r: bool)
    ensures
        r == seq_lt(a@, b@),
{
    let mut i: usize = 0;
    proof {
        assert(a@.skip(0) =~= a@);
        assert(b@.skip(0) =~= b@);
    }
    while i < a.len() && i < b.len()
        invariant
            i <= a.len(),
            i <= b.len(),
            a@.take(i as int) == b@.take(i as int),
            seq_lt(a@, b@) == seq_lt(a@.skip(i as int), b@.skip(i as int)),
        decreases a.len() - i,
    {
        if a[i] != b[i] {
            proof {
                assert(a@.skip(i as int)[0] == a@[i as int]);
                assert(b@.skip(i as int)[0] == b@[i as int]);
            }
            return a[i] < b[i];
        }
        proof {
            assert(a@.skip(i as int).drop_first() =~= a@.skip(i + 1));
            assert(b@.skip(i as int).drop_first() =~= b@.skip(i + 1));
            assert(a@.take(i + 1) =~= a@.take(i as int).push(a@[i as int]));
            assert(b@.take(i + 1) =~= b@.take(i as int).push(b@[i as int]));
        }
        i += 1;
    }
    i == a.len() && i < b.len()
}

} // verus!

verus! {

/// First index in `[a, b)` that is not whitespace, or `b`.
pub open spec fn trim_lo(s: Seq<char>, a: int, b: int) -> int
    decreases b - a,
{
    if a < b && is_space(s[a]) { trim_lo(s, a + 1, b) } else { a }
}

/// One past the last index in `[a, b)` that is not whitespace, or `a`.
pub open spec fn trim_hi(s: Seq<char>, a: int, b: int) -> int
    decreases b - a,
{
    if a < b && is_space(s[b - 1]) { trim_hi(s, a, b - 1) } else { b }
}

/// The range `[a, b)` without its leading and trailing whitespace.
pub open spec fn trimmed(s: Seq<char>, a: int, b: int) -> (int, int) {
    (trim_lo(s, a, b), trim_hi(s, trim_lo(s, a, b), b))
}

pub proof fn lemma_trim_bounds(s: Seq<char>, a: int, b: int)
    requires
        a <= b,
    ensures
        a <= trim_lo(s, a, b) <= b,
        a <= trim_hi(s, a, b) <= b,
    decreases b - a,
{
    if a < b {
        lemma_trim_bounds(s, a + 1, b);
        lemma_trim_bounds(s, a, b - 1);
    }
}

/// The range `[a, b)` of `s` without surrounding whitespace.
pub fn trim_range(s: &[char], a: usize, b: usize) -> (r: (usize, usize))
    requires
        a <= b <= s@.len(),
    ensures
        (r.0 as int, r.1 as int) == trimmed(s@, a as int, b as int),
        a <= r.0 <= r.1 <= b,
{
    let mut lo = a;
    while lo < b && space(s[lo])
        invariant
            a <= lo <= b <= s@.len(),
            trim_lo(s@, a as int, b as int) == trim_lo(s@, lo as int, b as int),
        decreases b - lo,
    {
        lo += 1;
    }
    let mut hi = b;
    while hi > lo && space(s[hi - 1])
        invariant
            lo <= hi <= b <= s@.len(),
            trim_hi(s@, lo as int, b as int) == trim_hi(s@, lo as int, hi as int),
        decreases hi - lo,
    {
        hi -= 1;
    }
    (lo, hi)
}

/// First index in `[a, b)` holding `c`, or `b`.
pub open spec fn find_char(s: Seq<char>, a: int, b: int, c: char) -> int
    decreases b - a,
{
    if a < b && s[a] != c { find_char(s, a + 1, b, c) } else { a }
}

pub proof fn lemma_find_char(s: Seq<char>, a: int, b: int, c: char)
    requires
        a <= b,
    ensures
        a <= find_char(s, a, b, c) <= b,
        find_char(s, a, b, c) < b ==> s[find_char(s, a, b, c)] == c,
        forall|k: int| a <= k < find_char(s, a, b, c) ==> s[k] != c,
    decreases b - a,
{
    if a < b && s[a] != c {
        lemma_find_char(s, a + 1, b, c);
    }
}

/// Tests `find_char`.
pub fn find_char_in(s: &[char], a: usize, b: usize, c: char) -> (r: usize)
    requires
        a <= b <= s@.len(),
    ensures
        r as int == find_char(s@, a as int, b as int, c),
        a <= r <= b,
{
    let mut i = a;
    while i < b && s[i] != c
        invariant
            a <= i <= b <= s@.len(),
            find_char(s@, a as int, b as int, c) == find_char(s@, i as int, b as int, c),
        decreases b - i,
    {
        i += 1;
    }
    proof { lemma_find_char(s@, i as int, b as int, c); }
    i
}

/// Every character of `s[a..b)` is an identifier character.
pub open spec fn all_ident(s: Seq<char>, a: int, b: int) -> bool {
    forall|k: int| a <= k < b ==> is_ident_char(#[trigger] s[k])
}

pub fn all_ident_in(s: &[char], a: usize, b: usize) -> (r: bool)
    requires
        a <= b <= s@.len(),
    ensures
        r == all_ident(s@, a as int, b as int),
{
    let mut i = a;
    while i < b
        invariant
            a <= i <= b <= s@.len(),
            all_ident(s@, a as int, i as int),
        decreases b - i,
    {
        if !ident_char(s[i]) {
            return false;
        }
        i += 1;
    }
    true
}

} // verus!

verus! {

/// Names in double quotes, separated by `, `: `"a", "b"`.
pub open spec fn quoted_items(v: Seq<Seq<char>>) -> Seq<char>
    decreases v.len(),
{
    if v.len() == 0 {
        Seq::empty()
    } else if v.len() == 1 {
        "\""@ + v[0] + "\""@
    } else {
        quoted_items(v.drop_last()) + ", \""@ + v.last() + "\""@
    }
}

/// The characters of each string.
pub open spec fn texts(v: Seq<String>) -> Seq<Seq<char>> {
    v.map_values(|s: String| s@)
}

/// The characters of each string slice.
pub open spec fn str_texts(v: Seq<&str>) -> Seq<Seq<char>> {
    v.map_values(|s: &str| s@)
}

/// Owned copies of string slices, in order.
pub fn strings_of(names: &[&str]) -> (r: Vec<String>)
    ensures
        texts(r@) == str_texts(names@),
{
    let mut out: Vec<String> = Vec::new();
    let mut i: usize = 0;
    while i < names.len()
        invariant
            i <= names@.len(),
            out@.len() == i,
            forall|j: int| 0 <= j < i ==> #[trigger] out@[j]@ == names@[j]@,
        decreases names.len() - i,
    {
        out.push(owned(names[i]));
        i += 1;
    }
    proof { assert(texts(out@) =~= str_texts(names@)); }
    out
}

/// Copies of strings, in order.
pub fn clone_strings(v: &[String]) -> (r: Vec<String>)
    ensures
        r@ == v@,
{
    let mut out: Vec<String> = Vec::new();
    let mut i: usize = 0;
    while i < v.len()
        invariant
            i <= v@.len(),
            out@ == v@.take(i as int),
        decreases v.len() - i,
    {
        out.push(v[i].clone());
        proof { assert(v@.take(i + 1) =~= v@.take(i as int).push(v@[i as int])); }
        i += 1;
    }
    proof { assert(v@.take(v@.len() as int) =~= v@); }
    out
}

} // verus!

verus! {

/// Whether a string slice has no characters.
pub fn is_empty(s: &str) -> (r: bool)
    ensures
        r == (s@.len() == 0),
{
    chars_of(s).len() == 0
}

} // verus!
