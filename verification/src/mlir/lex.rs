//! Token-level parsers for MLIR text, each a spec function on a character sequence and a
//! position, with an executable twin. A parser gives the position after what it read, or
//! `None` when the text there does not match.
use vstd::prelude::*;

use crate::arch::index_parser::{
    char_at, digits_end, digits_value, ident_end, lemma_digit_run, lemma_run_ends, skip_ws,
    x_char_at, x_digits_end, x_ident_end, x_skip_ws,
};
use crate::text::has_prefix_at;

verus! {

pub open spec fn opt_pos(o: Option<usize>) -> Option<int> {
    match o {
        Some(v) => Some(v as int),
        None => None,
    }
}

/// One or more whitespace characters.
pub open spec fn ws1(s: Seq<char>, p: int) -> Option<int> {
    if 0 <= p <= s.len() && skip_ws(s, p) > p { Some(skip_ws(s, p)) } else { None }
}

/// An identifier (ASCII alphanumerics and `_`); its text is `s[p..end)`.
pub open spec fn ident_at(s: Seq<char>, p: int) -> Option<int> {
    if 0 <= p <= s.len() && ident_end(s, p) > p { Some(ident_end(s, p)) } else { None }
}

/// `%name`; the name is `s[p + 1..end)`.
pub open spec fn ssa_at(s: Seq<char>, p: int) -> Option<int> {
    if char_at(s, p, '%') { ident_at(s, p + 1) } else { None }
}

/// `@name`; the name is `s[p + 1..end)`.
pub open spec fn sym_at(s: Seq<char>, p: int) -> Option<int> {
    if char_at(s, p, '@') { ident_at(s, p + 1) } else { None }
}

/// A comma with optional whitespace around it.
pub open spec fn comma_at(s: Seq<char>, p: int) -> Option<int> {
    if 0 <= p <= s.len() && char_at(s, skip_ws(s, p), ',') {
        Some(skip_ws(s, skip_ws(s, p) + 1))
    } else {
        None
    }
}

/// The literal text `t`.
pub open spec fn tag_at(s: Seq<char>, p: int, t: Seq<char>) -> Option<int> {
    if has_prefix_at(s, p, t) { Some(p + t.len()) } else { None }
}

/// A decimal `u64`: its value and end.
pub open spec fn u64_at(s: Seq<char>, p: int) -> Option<(int, int)> {
    if 0 <= p <= s.len() && digits_end(s, p) > p && digits_value(s, p, digits_end(s, p)) <= u64::MAX {
        Some((digits_value(s, p, digits_end(s, p)), digits_end(s, p)))
    } else {
        None
    }
}

pub proof fn lemma_ends(s: Seq<char>, p: int)
    requires
        0 <= p <= s.len(),
    ensures
        p <= skip_ws(s, p) <= s.len(),
        p <= ident_end(s, p) <= s.len(),
        p <= digits_end(s, p) <= s.len(),
        ws1(s, p) matches Some(e) ==> p < e <= s.len(),
        ident_at(s, p) matches Some(e) ==> p < e <= s.len(),
        comma_at(s, p) matches Some(e) ==> p < e <= s.len(),
{
    lemma_run_ends(s, p);
    if comma_at(s, p) is Some {
        lemma_run_ends(s, skip_ws(s, p) + 1);
    }
}

pub fn x_ws1(s: &[char], p: usize) -> (r: Option<usize>)
    requires
        p <= s@.len(),
    ensures
        opt_pos(r) == ws1(s@, p as int),
{
    let q = x_skip_ws(s, p);
    if q > p { Some(q) } else { None }
}

pub fn x_ident_at(s: &[char], p: usize) -> (r: Option<usize>)
    requires
        p <= s@.len(),
    ensures
        opt_pos(r) == ident_at(s@, p as int),
{
    let q = x_ident_end(s, p);
    if q > p { Some(q) } else { None }
}

pub fn x_ssa_at(s: &[char], p: usize) -> (r: Option<usize>)
    requires
        p <= s@.len(),
    ensures
        opt_pos(r) == ssa_at(s@, p as int),
        r matches Some(e) ==> p + 1 < e <= s@.len(),
{
    if p < s.len() && s[p] == '%' {
        proof { lemma_ends(s@, p + 1); }
        x_ident_at(s, p + 1)
    } else {
        None
    }
}

pub fn x_sym_at(s: &[char], p: usize) -> (r: Option<usize>)
    requires
        p <= s@.len(),
    ensures
        opt_pos(r) == sym_at(s@, p as int),
        r matches Some(e) ==> p + 1 < e <= s@.len(),
{
    if p < s.len() && s[p] == '@' {
        proof { lemma_ends(s@, p + 1); }
        x_ident_at(s, p + 1)
    } else {
        None
    }
}

pub fn x_comma_at(s: &[char], p: usize) -> (r: Option<usize>)
    requires
        p <= s@.len(),
    ensures
        opt_pos(r) == comma_at(s@, p as int),
        r matches Some(e) ==> p < e <= s@.len(),
{
    let q = x_skip_ws(s, p);
    proof { lemma_ends(s@, p as int); }
    if q < s.len() && s[q] == ',' {
        proof { lemma_ends(s@, q + 1); }
        Some(x_skip_ws(s, q + 1))
    } else {
        None
    }
}

pub fn x_tag_at(s: &[char], p: usize, t: &str) -> (r: Option<usize>)
    requires
        p <= s@.len(),
    ensures
        r matches Some(e) ==> e as int == p + t@.len() && e <= s@.len(),
        (r is Some) == (tag_at(s@, p as int, t@) is Some),
        r is Some ==> tag_at(s@, p as int, t@) == Some(r->0 as int),
{
    let k = crate::text::chars_of(t);
    if k.len() > s.len() - p {
        return None;
    }
    if crate::text::starts_with_at(s, p, k.as_slice()) {
        Some(p + k.len())
    } else {
        None
    }
}

/// The decimal value of `s[from..to)`, or `None` above `u64::MAX`.
fn x_digits_u64(s: &[char], from: usize, to: usize) -> (r: Option<u64>)
    requires
        from <= to <= s@.len(),
        forall|k: int| from <= k < to ==> crate::text::is_digit(#[trigger] s@[k]),
    ensures
        match r {
            Some(v) => v as int == digits_value(s@, from as int, to as int),
            None => digits_value(s@, from as int, to as int) > u64::MAX,
        },
{
    let mut v: u64 = 0;
    let mut i: usize = from;
    let mut overflow = false;
    while i < to
        invariant
            from <= i <= to <= s@.len(),
            forall|k: int| from <= k < to ==> crate::text::is_digit(#[trigger] s@[k]),
            !overflow ==> v as int == digits_value(s@, from as int, i as int),
            overflow ==> digits_value(s@, from as int, i as int) > u64::MAX,
        decreases to - i,
    {
        let d = crate::arch::index_parser::x_digit_value(s[i]);
        proof {
            crate::arch::index_parser::lemma_digits_value_mono(s@, from as int, i as int);
        }
        if overflow {
            proof {
                assert(digits_value(s@, from as int, i as int) * 10 >= digits_value(s@, from as int, i as int)) by (nonlinear_arith)
                    requires digits_value(s@, from as int, i as int) >= 0;
            }
        } else {
            match v.checked_mul(10) {
                None => {
                    overflow = true;
                },
                Some(t) => match t.checked_add(d as u64) {
                    None => {
                        overflow = true;
                    },
                    Some(u) => {
                        v = u;
                    },
                },
            }
        }
        i += 1;
    }
    if overflow { None } else { Some(v) }
}

pub fn x_u64_at(s: &[char], p: usize) -> (r: Option<(u64, usize)>)
    requires
        p <= s@.len(),
    ensures
        match r {
            Some((v, e)) => u64_at(s@, p as int) == Some((v as int, e as int)) && p < e <= s@.len(),
            None => u64_at(s@, p as int) is None,
        },
{
    let d = x_digits_end(s, p);
    proof { lemma_ends(s@, p as int); lemma_digit_run(s@, p as int); }
    if d == p {
        return None;
    }
    match x_digits_u64(s, p, d) {
        None => None,
        Some(v) => Some((v, d)),
    }
}

/// `(... )` with nested parentheses of the same kind: the end of the closing character.
pub open spec fn balanced_end(s: Seq<char>, i: int, depth: nat, open: char, close: char) -> Option<int>
    decreases s.len() - i,
{
    if !(0 <= i < s.len()) {
        None
    } else if s[i] == open {
        balanced_end(s, i + 1, depth + 1, open, close)
    } else if s[i] == close {
        if depth <= 1 { Some(i) } else { balanced_end(s, i + 1, (depth - 1) as nat, open, close) }
    } else {
        balanced_end(s, i + 1, depth, open, close)
    }
}

/// The index of the character that closes the `open` at `p`.
pub open spec fn closing_at(s: Seq<char>, p: int, open: char, close: char) -> Option<int> {
    if char_at(s, p, open) { balanced_end(s, p + 1, 1, open, close) } else { None }
}

pub proof fn lemma_balanced(s: Seq<char>, i: int, depth: nat, open: char, close: char)
    ensures
        balanced_end(s, i, depth, open, close) matches Some(e) ==> i <= e < s.len() && s[e] == close,
    decreases s.len() - i,
{
    if 0 <= i < s.len() {
        if s[i] == open {
            lemma_balanced(s, i + 1, depth + 1, open, close);
        } else if s[i] == close {
            if depth > 1 {
                lemma_balanced(s, i + 1, (depth - 1) as nat, open, close);
            }
        } else {
            lemma_balanced(s, i + 1, depth, open, close);
        }
    }
}

pub fn x_closing_at(s: &[char], p: usize, open: char, close: char) -> (r: Option<usize>)
    ensures
        opt_pos(r) == closing_at(s@, p as int, open, close),
        r matches Some(e) ==> p < e < s@.len(),
{
    if !(p < s.len() && s[p] == open) {
        return None;
    }
    let mut i = p + 1;
    let mut depth: usize = 1;
    while i < s.len()
        invariant
            p < i <= s@.len(),
            1 <= depth <= i,
            closing_at(s@, p as int, open, close) == balanced_end(s@, i as int, depth as nat, open, close),
        decreases s.len() - i,
    {
        if s[i] == open {
            depth += 1;
        } else if s[i] == close {
            if depth <= 1 {
                return Some(i);
            }
            depth -= 1;
        }
        i += 1;
    }
    None
}

/// Line ranges of `s`, split at `'\n'`; the characters of a line keep their surroundings.
pub open spec fn line_ranges(s: Seq<char>, a: int) -> Seq<(int, int)>
    decreases s.len() - a,
{
    if a > s.len() {
        Seq::empty()
    } else {
        let k = crate::text::find_char(s, a, s.len() as int, '\n');
        proof { crate::math::affine::lemma_find_char_ge(s, a, s.len() as int, '\n'); }
        if k >= s.len() { seq![(a, s.len() as int)] } else { seq![(a, k)] + line_ranges(s, k + 1) }
    }
}

/// The text of a range without its surrounding whitespace.
pub open spec fn range_text(s: Seq<char>, r: (int, int)) -> Seq<char> {
    s.subrange(crate::text::trimmed(s, r.0, r.1).0, crate::text::trimmed(s, r.0, r.1).1)
}

pub open spec fn range_texts(s: Seq<char>, rs: Seq<(int, int)>) -> Seq<Seq<char>>
    decreases rs.len(),
{
    if rs.len() == 0 { Seq::empty() } else { seq![range_text(s, rs[0])] + range_texts(s, rs.drop_first()) }
}

/// The lines of `s`, each without its surrounding whitespace.
pub open spec fn trimmed_lines(s: Seq<char>) -> Seq<Seq<char>> {
    range_texts(s, line_ranges(s, 0))
}

pub open spec fn lines_model(v: Seq<Vec<char>>) -> Seq<Seq<char>> {
    v.map_values(|l: Vec<char>| l@)
}

/// The lines of `s`, each trimmed.
pub fn x_trimmed_lines(s: &[char]) -> (r: Vec<Vec<char>>)
    ensures
        lines_model(r@) == trimmed_lines(s@),
{
    let mut out: Vec<Vec<char>> = Vec::new();
    let mut a: usize = 0;
    let ghost all = line_ranges(s@, 0);
    loop
        invariant
            a <= s@.len(),
            all == line_ranges(s@, 0),
            lines_model(out@) + range_texts(s@, line_ranges(s@, a as int)) == range_texts(s@, all),
        decreases s@.len() - a,
    {
        let k = crate::text::find_char_in(s, a, s.len(), '\n');
        let (lo, hi) = crate::text::trim_range(s, a, k);
        let mut line: Vec<char> = Vec::new();
        let mut i = lo;
        while i < hi
            invariant
                lo <= i <= hi <= s@.len(),
                line@ == s@.subrange(lo as int, i as int),
            decreases hi - i,
        {
            line.push(s[i]);
            proof { assert(s@.subrange(lo as int, i + 1) =~= s@.subrange(lo as int, i as int).push(s@[i as int])); }
            i += 1;
        }
        let ghost before = out@;
        out.push(line);
        proof {
            assert(lines_model(out@) =~= lines_model(before).push(s@.subrange(lo as int, hi as int)));
        }
        if k >= s.len() {
            proof {
                assert(range_text(s@, (a as int, k as int)) == s@.subrange(lo as int, hi as int));
                assert(line_ranges(s@, a as int) == seq![(a as int, s@.len() as int)]);
                assert(seq![(a as int, s@.len() as int)].drop_first() =~= Seq::<(int, int)>::empty());
                assert(range_texts(s@, Seq::<(int, int)>::empty()) =~= Seq::<Seq<char>>::empty());
                assert(k as int == s@.len());
                assert(range_texts(s@, line_ranges(s@, a as int)) =~= seq![range_text(s@, (a as int, k as int))]);
                assert(lines_model(out@) =~= lines_model(before) + range_texts(s@, line_ranges(s@, a as int)));
                assert(range_texts(s@, all) =~= lines_model(out@));
            }
            return out;
        }
        proof {
            assert(range_text(s@, (a as int, k as int)) == s@.subrange(lo as int, hi as int));
            let rest = line_ranges(s@, k + 1);
            assert(line_ranges(s@, a as int) == seq![(a as int, k as int)] + rest);
            assert((seq![(a as int, k as int)] + rest).drop_first() =~= rest);
            assert(range_texts(s@, line_ranges(s@, a as int)) == seq![range_text(s@, (a as int, k as int))] + range_texts(s@, rest));
            assert(lines_model(out@) + range_texts(s@, rest)
                =~= lines_model(before) + range_texts(s@, line_ranges(s@, a as int)));
        }
        a = k + 1;
    }
}

/// Whether `l` begins with `t`.
pub open spec fn starts(l: Seq<char>, t: Seq<char>) -> bool {
    has_prefix_at(l, 0, t)
}

pub fn x_starts(l: &[char], t: &str) -> (r: bool)
    ensures
        r == starts(l@, t@),
{
    let k = crate::text::chars_of(t);
    if k.len() > l.len() {
        return false;
    }
    crate::text::starts_with_at(l, 0, k.as_slice())
}

/// Whether `l` ends with `c`.
pub open spec fn ends(l: Seq<char>, c: char) -> bool {
    l.len() > 0 && l.last() == c
}

} // verus!
