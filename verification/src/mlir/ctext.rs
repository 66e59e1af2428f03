//! Small text operations on character sequences, each with its meaning: trimming,
//! stripping a repeated character, finding a character or the last occurrence of a
//! pattern, splitting at a character, and reading an unsigned decimal.
use vstd::prelude::*;

use crate::text::{find_char, has_prefix_at, is_digit, is_ident_char, trimmed};

verus! {

/// `t` without its surrounding whitespace.
pub open spec fn tseq(t: Seq<char>) -> Seq<char> {
    t.subrange(trimmed(t, 0, t.len() as int).0, trimmed(t, 0, t.len() as int).1)
}

pub fn trim_vec(t: &[char]) -> (r: Vec<char>)
    ensures
        r@ == tseq(t@),
{
    let (lo, hi) = crate::text::trim_range(t, 0, t.len());
    copy_range(t, lo, hi)
}

/// The characters of `t[a..b)`.
pub fn copy_range(t: &[char], a: usize, b: usize) -> (r: Vec<char>)
    requires
        a <= b <= t@.len(),
    ensures
        r@ == t@.subrange(a as int, b as int),
{
    let mut out: Vec<char> = Vec::new();
    let mut i = a;
    while i < b
        invariant
            a <= i <= b <= t@.len(),
            out@ == t@.subrange(a as int, i as int),
        decreases b - i,
    {
        out.push(t[i]);
        proof { assert(t@.subrange(a as int, i + 1) =~= t@.subrange(a as int, i as int).push(t@[i as int])); }
        i += 1;
    }
    out
}

/// `t` without the copies of `c` that start it.
pub open spec fn strip_lead(t: Seq<char>, c: char) -> Seq<char>
    decreases t.len(),
{
    if t.len() > 0 && t[0] == c { strip_lead(t.drop_first(), c) } else { t }
}

/// `t` without the copies of `c` that end it.
pub open spec fn strip_trail(t: Seq<char>, c: char) -> Seq<char>
    decreases t.len(),
{
    if t.len() > 0 && t.last() == c { strip_trail(t.drop_last(), c) } else { t }
}

pub fn strip_lead_vec(t: &[char], c: char) -> (r: Vec<char>)
    ensures
        r@ == strip_lead(t@, c),
{
    let mut i: usize = 0;
    proof { assert(t@.skip(0) =~= t@); }
    while i < t.len() && t[i] == c
        invariant
            i <= t@.len(),
            strip_lead(t@, c) == strip_lead(t@.skip(i as int), c),
        decreases t.len() - i,
    {
        proof { assert(t@.skip(i as int).drop_first() =~= t@.skip(i + 1)); }
        i += 1;
    }
    proof { assert(t@.skip(i as int) =~= t@.subrange(i as int, t@.len() as int)); }
    copy_range(t, i, t.len())
}

pub fn strip_trail_vec(t: &[char], c: char) -> (r: Vec<char>)
    ensures
        r@ == strip_trail(t@, c),
{
    let mut j: usize = t.len();
    proof { assert(t@.take(t@.len() as int) =~= t@); }
    while j > 0 && t[j - 1] == c
        invariant
            j <= t@.len(),
            strip_trail(t@, c) == strip_trail(t@.take(j as int), c),
        decreases j,
    {
        proof { assert(t@.take(j as int).drop_last() =~= t@.take(j - 1)); }
        j -= 1;
    }
    proof { assert(t@.take(j as int) =~= t@.subrange(0, j as int)); }
    copy_range(t, 0, j)
}

/// The first index of `c` in `t`, or its length.
pub open spec fn first_at(t: Seq<char>, c: char) -> int {
    find_char(t, 0, t.len() as int, c)
}

pub fn first_at_vec(t: &[char], c: char) -> (r: usize)
    ensures
        r as int == first_at(t@, c),
        r <= t@.len(),
{
    crate::text::find_char_in(t, 0, t.len(), c)
}

/// The last index at or below `p` at which `pat` starts within `t`, or -1.
pub open spec fn rfind_from(t: Seq<char>, pat: Seq<char>, p: int) -> int
    decreases p + 1,
{
    if p < 0 {
        -1
    } else if p + pat.len() <= t.len() && has_prefix_at(t, p, pat) {
        p
    } else {
        rfind_from(t, pat, p - 1)
    }
}

/// The last index at which `pat` starts within `t`, or -1.
pub open spec fn rfind(t: Seq<char>, pat: Seq<char>) -> int {
    rfind_from(t, pat, t.len() - pat.len())
}

pub proof fn lemma_rfind_from(t: Seq<char>, pat: Seq<char>, p: int)
    ensures
        -1 <= rfind_from(t, pat, p),
        p >= 0 ==> rfind_from(t, pat, p) <= p,
        rfind_from(t, pat, p) >= 0 ==> rfind_from(t, pat, p) + pat.len() <= t.len()
            && has_prefix_at(t, rfind_from(t, pat, p), pat),
    decreases p + 1,
{
    if p >= 0 && !(p + pat.len() <= t.len() && has_prefix_at(t, p, pat)) {
        lemma_rfind_from(t, pat, p - 1);
    }
}

pub fn rfind_vec(t: &[char], pat: &str) -> (r: Option<usize>)
    ensures
        match r {
            Some(p) => p as int == rfind(t@, pat@) && p + pat@.len() <= t@.len(),
            None => rfind(t@, pat@) == -1,
        },
{
    let pc = crate::text::chars_of(pat);
    if pc.len() > t.len() {
        proof { assert(rfind(t@, pat@) == -1); }
        return None;
    }
    let mut p: usize = t.len() - pc.len();
    loop
        invariant
            p + pc@.len() <= t@.len(),
            pc@ == pat@,
            rfind(t@, pat@) == rfind_from(t@, pat@, p as int),
        decreases p,
    {
        if crate::text::starts_with_at(t, p, pc.as_slice()) {
            return Some(p);
        }
        if p == 0 {
            proof { assert(rfind_from(t@, pat@, -1) == -1); }
            return None;
        }
        p -= 1;
    }
}

/// The value of `t` read as `u64::from_str` reads it: an optional `+`, then at least one
/// decimal digit, within `u64`.
pub open spec fn u64_value(t: Seq<char>) -> Option<int> {
    let d = unsigned_part(t);
    if d.len() > 0 && (forall|k: int| 0 <= k < d.len() ==> is_digit(#[trigger] d[k])) && digits_value(d) <= u64::MAX {
        Some(digits_value(d))
    } else {
        None
    }
}

/// `t` without one leading `+`.
pub open spec fn unsigned_part(t: Seq<char>) -> Seq<char> {
    if t.len() > 0 && t[0] == '+' { t.drop_first() } else { t }
}

/// The decimal value of a run of digits.
pub open spec fn digits_value(d: Seq<char>) -> int
    decreases d.len(),
{
    if d.len() == 0 { 0 } else { 10 * digits_value(d.drop_last()) + (d.last() as int - '0' as int) }
}

pub fn u64_value_vec(t: &[char]) -> (r: Option<u64>)
    ensures
        match r {
            Some(v) => u64_value(t@) == Some(v as int),
            None => u64_value(t@) is None,
        },
{
    let start: usize = if t.len() > 0 && t[0] == '+' { 1 } else { 0 };
    let ghost d = unsigned_part(t@);
    proof { assert(d =~= t@.skip(start as int)); }
    if start >= t.len() {
        proof { assert(d.len() == 0); }
        return None;
    }
    let mut v: u64 = 0;
    let mut i = start;
    let mut fits = true;
    while i < t.len()
        invariant
            start <= i <= t@.len(),
            d == t@.skip(start as int),
            d == unsigned_part(t@),
            forall|k: int| start <= k < i ==> is_digit(#[trigger] t@[k]),
            fits ==> v as int == digits_value(t@.subrange(start as int, i as int)),
            !fits ==> digits_value(t@.subrange(start as int, i as int)) > u64::MAX,
        decreases t.len() - i,
    {
        if !crate::text::digit(t[i]) {
            proof {
                assert(d[i - start] == t@[i as int]);
                assert(!is_digit(d[i - start]));
                assert(!(forall|k: int| 0 <= k < d.len() ==> is_digit(#[trigger] d[k])));
            }
            return None;
        }
        let ghost prev = t@.subrange(start as int, i as int);
        proof {
            assert(t@.subrange(start as int, i + 1).drop_last() =~= prev);
            assert(t@.subrange(start as int, i + 1).last() == t@[i as int]);
            assert(digits_value(prev) >= 0) by { lemma_digits_nonneg(prev); }
        }
        let dv = (t[i] as u32 - '0' as u32) as u64;
        if fits {
            match v.checked_mul(10) {
                Some(m) => match m.checked_add(dv) {
                    Some(n) => {
                        v = n;
                    },
                    None => {
                        fits = false;
                    },
                },
                None => {
                    fits = false;
                },
            }
        }
        i += 1;
    }
    proof {
        assert(t@.subrange(start as int, t@.len() as int) =~= d);
        assert forall|k: int| 0 <= k < d.len() implies is_digit(#[trigger] d[k]) by {
            assert(d[k] == t@[k + start]);
        }
    }
    if fits { Some(v) } else { None }
}

pub proof fn lemma_digits_nonneg(d: Seq<char>)
    requires
        forall|k: int| 0 <= k < d.len() ==> is_digit(#[trigger] d[k]),
    ensures
        digits_value(d) >= 0,
    decreases d.len(),
{
    if d.len() > 0 {
        lemma_digits_nonneg(d.drop_last());
        assert(is_digit(d[d.len() - 1]));
    }
}

/// The pieces of `t` between the copies of `c`, as `str::split` gives them.
pub open spec fn pieces(t: Seq<char>, c: char) -> Seq<Seq<char>>
    decreases t.len(),
{
    if t.len() == 0 {
        seq![Seq::empty()]
    } else {
        let p = pieces(t.drop_last(), c);
        if t.last() == c {
            p.push(Seq::empty())
        } else {
            p.update(p.len() - 1, p.last().push(t.last()))
        }
    }
}

pub proof fn lemma_pieces_nonempty(t: Seq<char>, c: char)
    ensures
        pieces(t, c).len() >= 1,
    decreases t.len(),
{
    if t.len() > 0 {
        lemma_pieces_nonempty(t.drop_last(), c);
    }
}

/// The non-blank pieces, trimmed.
pub open spec fn kept(ps: Seq<Seq<char>>) -> Seq<Seq<char>>
    decreases ps.len(),
{
    if ps.len() == 0 {
        Seq::empty()
    } else if tseq(ps.last()).len() > 0 {
        kept(ps.drop_last()).push(tseq(ps.last()))
    } else {
        kept(ps.drop_last())
    }
}

/// The trimmed, non-blank items of `t` separated by `c`.
pub open spec fn items(t: Seq<char>, c: char) -> Seq<Seq<char>> {
    kept(pieces(t, c))
}

pub fn items_vec(t: &[char], c: char) -> (r: Vec<Vec<char>>)
    ensures
        r@.map_values(|v: Vec<char>| v@) == items(t@, c),
{
    let mut out: Vec<Vec<char>> = Vec::new();
    let mut cur: Vec<char> = Vec::new();
    let mut i: usize = 0;
    proof { assert(t@.take(0) =~= Seq::<char>::empty()); }
    while i < t.len()
        invariant
            i <= t@.len(),
            pieces(t@.take(i as int), c) == kept_prefix_witness(pieces(t@.take(i as int), c), cur@),
            kept(pieces(t@.take(i as int), c).drop_last()) == out@.map_values(|v: Vec<char>| v@),
            pieces(t@.take(i as int), c).len() >= 1,
            pieces(t@.take(i as int), c).last() == cur@,
        decreases t.len() - i,
    {
        let ghost ps = pieces(t@.take(i as int), c);
        proof {
            assert(t@.take(i + 1).drop_last() =~= t@.take(i as int));
            assert(t@.take(i + 1).last() == t@[i as int]);
        }
        if t[i] == c {
            let piece = trim_vec(cur.as_slice());
            let ghost before = out@;
            if piece.len() > 0 {
                out.push(piece);
                proof { assert(out@.map_values(|v: Vec<char>| v@) =~= before.map_values(|v: Vec<char>| v@).push(tseq(cur@))); }
            }
            proof {
                let np = pieces(t@.take(i + 1), c);
                assert(np == ps.push(Seq::empty()));
                assert(np.drop_last() =~= ps);
                assert(ps =~= ps.drop_last().push(ps.last()));
            }
            cur = Vec::new();
        } else {
            cur.push(t[i]);
            proof {
                let np = pieces(t@.take(i + 1), c);
                assert(np == ps.update(ps.len() - 1, ps.last().push(t@[i as int])));
                assert(np.drop_last() =~= ps.drop_last());
            }
        }
        i += 1;
    }
    proof { assert(t@.take(t@.len() as int) =~= t@); }
    let ghost ps = pieces(t@, c);
    let last = trim_vec(cur.as_slice());
    let ghost before = out@;
    if last.len() > 0 {
        out.push(last);
        proof { assert(out@.map_values(|v: Vec<char>| v@) =~= before.map_values(|v: Vec<char>| v@).push(tseq(cur@))); }
    }
    proof { assert(ps =~= ps.drop_last().push(ps.last())); }
    out
}

/// Helper for loop invariants: `ps` itself.
pub open spec fn kept_prefix_witness(ps: Seq<Seq<char>>, cur: Seq<char>) -> Seq<Seq<char>> {
    ps
}

/// All characters of `t` are identifier characters.
pub open spec fn all_ident_seq(t: Seq<char>) -> bool {
    forall|k: int| 0 <= k < t.len() ==> is_ident_char(#[trigger] t[k])
}

pub fn all_ident_vec(t: &[char]) -> (r: bool)
    ensures
        r == all_ident_seq(t@),
{
    crate::text::all_ident_in(t, 0, t.len())
}

/// The first index at or after `p` that holds whitespace, or the length.
pub open spec fn space_end(s: Seq<char>, p: int) -> int
    decreases s.len() - p,
{
    if 0 <= p < s.len() && !crate::text::is_space(s[p]) { space_end(s, p + 1) } else { p }
}

pub proof fn lemma_space_end(s: Seq<char>, p: int)
    requires
        0 <= p <= s.len(),
    ensures
        p <= space_end(s, p) <= s.len(),
    decreases s.len() - p,
{
    if p < s.len() && !crate::text::is_space(s[p]) {
        lemma_space_end(s, p + 1);
    }
}

pub fn space_end_vec(s: &[char], p: usize) -> (r: usize)
    requires
        p <= s@.len(),
    ensures
        r as int == space_end(s@, p as int),
        p <= r <= s@.len(),
{
    let mut i = p;
    while i < s.len() && !crate::text::space(s[i])
        invariant
            p <= i <= s@.len(),
            space_end(s@, p as int) == space_end(s@, i as int),
        decreases s.len() - i,
    {
        i += 1;
    }
    i
}

/// The first whitespace-separated token of `s`, or nothing: what
/// `split_whitespace().next().unwrap_or_default()` gives.
pub open spec fn first_token(s: Seq<char>) -> Seq<char> {
    let a = crate::arch::index_parser::skip_ws(s, 0);
    s.subrange(a, space_end(s, a))
}

pub proof fn lemma_skip_ws(s: Seq<char>, p: int)
    requires
        0 <= p <= s.len(),
    ensures
        p <= crate::arch::index_parser::skip_ws(s, p) <= s.len(),
    decreases s.len() - p,
{
    if p < s.len() && crate::text::is_space(s[p]) {
        lemma_skip_ws(s, p + 1);
    }
}

pub fn first_token_vec(s: &[char]) -> (r: Vec<char>)
    ensures
        r@ == first_token(s@),
{
    proof { lemma_skip_ws(s@, 0); }
    let a = crate::arch::index_parser::x_skip_ws(s, 0);
    let b = space_end_vec(s, a);
    copy_range(s, a, b)
}

/// Whether `t` occurs in `s`.
pub open spec fn contains_str(s: Seq<char>, t: Seq<char>) -> bool {
    crate::mlir::scan::find_str(s, 0, t) < s.len()
}

pub fn contains_str_vec(s: &[char], t: &str) -> (r: bool)
    ensures
        r == contains_str(s@, t@),
{
    let tc = crate::text::chars_of(t);
    let k = crate::mlir::scan::x_find_str(s, 0, tc.as_slice());
    k < s.len()
}

pub proof fn lemma_skip_ws_stop(s: Seq<char>, p: int)
    requires
        0 <= p <= s.len(),
    ensures
        crate::arch::index_parser::skip_ws(s, p) < s.len() ==> !crate::text::is_space(s[crate::arch::index_parser::skip_ws(s, p)]),
    decreases s.len() - p,
{
    if p < s.len() && crate::text::is_space(s[p]) {
        lemma_skip_ws_stop(s, p + 1);
    }
}

/// The raw pieces of `t` between the copies of `c`.
pub fn pieces_vec(t: &[char], c: char) -> (r: Vec<Vec<char>>)
    ensures
        r@.map_values(|v: Vec<char>| v@) == pieces(t@, c),
{
    let mut out: Vec<Vec<char>> = Vec::new();
    let mut cur: Vec<char> = Vec::new();
    let mut i: usize = 0;
    proof { assert(t@.take(0) =~= Seq::<char>::empty()); }
    while i < t.len()
        invariant
            i <= t@.len(),
            pieces(t@.take(i as int), c).len() >= 1,
            pieces(t@.take(i as int), c).drop_last() == out@.map_values(|v: Vec<char>| v@),
            pieces(t@.take(i as int), c).last() == cur@,
        decreases t.len() - i,
    {
        let ghost ps = pieces(t@.take(i as int), c);
        proof {
            assert(t@.take(i + 1).drop_last() =~= t@.take(i as int));
            assert(t@.take(i + 1).last() == t@[i as int]);
        }
        if t[i] == c {
            let ghost before = out@;
            let done = cur;
            out.push(done);
            cur = Vec::new();
            proof {
                let np = pieces(t@.take(i + 1), c);
                assert(np == ps.push(Seq::empty()));
                assert(out@.map_values(|v: Vec<char>| v@) =~= before.map_values(|v: Vec<char>| v@).push(done@));
                assert(np.drop_last() =~= ps);
                assert(ps =~= ps.drop_last().push(ps.last()));
            }
        } else {
            cur.push(t[i]);
            proof {
                let np = pieces(t@.take(i + 1), c);
                assert(np == ps.update(ps.len() - 1, ps.last().push(t@[i as int])));
                assert(np.drop_last() =~= ps.drop_last());
            }
        }
        i += 1;
    }
    proof { assert(t@.take(t@.len() as int) =~= t@); }
    let ghost ps = pieces(t@, c);
    let ghost before = out@;
    out.push(cur);
    proof {
        assert(out@.map_values(|v: Vec<char>| v@) =~= before.map_values(|v: Vec<char>| v@).push(ps.last()));
        assert(ps =~= ps.drop_last().push(ps.last()));
    }
    out
}

/// `t` without its trailing whitespace.
pub open spec fn rtrim(t: Seq<char>) -> Seq<char> {
    t.take(crate::text::trim_hi(t, 0, t.len() as int))
}

pub fn rtrim_vec(t: &[char]) -> (r: Vec<char>)
    ensures
        r@ == rtrim(t@),
{
    let mut j: usize = t.len();
    while j > 0 && crate::text::space(t[j - 1])
        invariant
            j <= t@.len(),
            crate::text::trim_hi(t@, 0, t@.len() as int) == crate::text::trim_hi(t@, 0, j as int),
        decreases j,
    {
        j -= 1;
    }
    proof { assert(t@.take(j as int) =~= t@.subrange(0, j as int)); }
    copy_range(t, 0, j)
}

} // verus!
