//! Recursive-descent parser for [`AffineExpression`] text, with its grammar as spec functions.
//!
//! Grammar (whitespace allowed between tokens):
//! `sum := term (("+" | "-") term)*`,
//! `term := atom ("floordiv" n | "ceildiv" n | "mod" n | "%" n | "*" atom)*`,
//! `atom := "(" sum ")" | "-" atom | digits | identifier`, where `n` is a positive integer and
//! one factor of `*` is a constant.
use vstd::prelude::*;

use crate::text::{is_space, is_digit, is_ident_char, has_prefix_at, space, digit, ident_char, starts_with_at};
use super::index::{AffineExpression, AffineModel, EndpointParseError};

verus! {

/// Spec outcome of one grammar rule: the model and the position after it, or a message
/// and the position of the failure.
pub type PResult = Result<(AffineModel, int), (Seq<char>, int)>;

pub open spec fn skip_ws(s: Seq<char>, p: int) -> int
    decreases s.len() - p,
{
    if 0 <= p < s.len() && is_space(s[p]) { skip_ws(s, p + 1) } else { p }
}

pub open spec fn digits_end(s: Seq<char>, p: int) -> int
    decreases s.len() - p,
{
    if 0 <= p < s.len() && is_digit(s[p]) { digits_end(s, p + 1) } else { p }
}

pub open spec fn ident_end(s: Seq<char>, p: int) -> int
    decreases s.len() - p,
{
    if 0 <= p < s.len() && is_ident_char(s[p]) { ident_end(s, p + 1) } else { p }
}

pub proof fn lemma_run_ends(s: Seq<char>, p: int)
    requires
        0 <= p <= s.len(),
    ensures
        p <= skip_ws(s, p) <= s.len(),
        p <= digits_end(s, p) <= s.len(),
        p <= ident_end(s, p) <= s.len(),
    decreases s.len() - p,
{
    if p < s.len() {
        lemma_run_ends(s, p + 1);
    }
}

pub open spec fn digit_val(c: char) -> int {
    if c == '0' { 0 } else if c == '1' { 1 } else if c == '2' { 2 } else if c == '3' { 3 }
    else if c == '4' { 4 } else if c == '5' { 5 } else if c == '6' { 6 } else if c == '7' { 7 }
    else if c == '8' { 8 } else { 9 }
}

/// Decimal value of `s[from..to]`.
pub open spec fn digits_value(s: Seq<char>, from: int, to: int) -> int
    decreases to - from,
{
    if to <= from { 0 } else { digits_value(s, from, to - 1) * 10 + digit_val(s[to - 1]) }
}

/// `kw` stands at `p` and is not followed by an identifier character.
pub open spec fn keyword_at(s: Seq<char>, p: int, kw: Seq<char>) -> bool {
    has_prefix_at(s, p, kw) && !(p + kw.len() < s.len() && is_ident_char(s[p + kw.len()]))
}

pub open spec fn char_at(s: Seq<char>, p: int, c: char) -> bool {
    0 <= p < s.len() && s[p] == c
}

/// A positive integer after an operator `op`; returns its value and end.
pub open spec fn pos_const(s: Seq<char>, p: int, op: Seq<char>) -> Result<(int, int), (Seq<char>, int)> {
    let r = skip_ws(s, p);
    let d = digits_end(s, r);
    if d == r {
        Err((op + " requires a positive constant divisor"@, r))
    } else if digits_value(s, r, d) > i64::MAX {
        Err(("integer is out of range"@, d))
    } else if digits_value(s, r, d) <= 0 {
        Err((op + " divisor must be positive"@, d))
    } else {
        Ok((digits_value(s, r, d), d))
    }
}

pub open spec fn p_sum(s: Seq<char>, p: int) -> PResult
    decreases s.len() - p, 4nat,
{
    if !(0 <= p <= s.len()) {
        Err(("position out of range"@, p))
    } else {
        match p_term(s, p) {
            Err(e) => Err(e),
            Ok((l, q)) => if q < p || q > s.len() { Err(("no progress"@, q)) } else { p_sum_rest(s, q, l) },
        }
    }
}

pub open spec fn p_sum_rest(s: Seq<char>, q: int, l: AffineModel) -> PResult
    decreases s.len() - q, 3nat,
{
    if !(0 <= q <= s.len()) {
        Err(("position out of range"@, q))
    } else {
        let r = skip_ws(s, q);
        proof { lemma_run_ends(s, q); }
        if char_at(s, r, '+') || char_at(s, r, '-') {
            match p_term(s, r + 1) {
                Err(e) => Err(e),
                Ok((x, q2)) => if q2 <= q || q2 > s.len() {
                    Err(("no progress"@, q2))
                } else if char_at(s, r, '+') {
                    p_sum_rest(s, q2, AffineModel::Add(Box::new(l), Box::new(x)))
                } else {
                    p_sum_rest(s, q2, AffineModel::Sub(Box::new(l), Box::new(x)))
                },
            }
        } else {
            Ok((l, r))
        }
    }
}

pub open spec fn p_term(s: Seq<char>, p: int) -> PResult
    decreases s.len() - p, 2nat,
{
    if !(0 <= p <= s.len()) {
        Err(("position out of range"@, p))
    } else {
        match p_atom(s, p) {
            Err(e) => Err(e),
            Ok((l, q)) => if q < p || q > s.len() { Err(("no progress"@, q)) } else { p_term_rest(s, q, l) },
        }
    }
}

/// Combination of two factors of `*`: the constant one scales the other.
pub open spec fn scale(l: AffineModel, x: AffineModel) -> Option<AffineModel> {
    match (l, x) {
        (AffineModel::Constant(c), e) => Some(AffineModel::Mul(c, Box::new(e))),
        (e, AffineModel::Constant(c)) => Some(AffineModel::Mul(c, Box::new(e))),
        _ => None,
    }
}

pub open spec fn p_term_rest(s: Seq<char>, q: int, l: AffineModel) -> PResult
    decreases s.len() - q, 1nat,
{
    if !(0 <= q <= s.len()) {
        Err(("position out of range"@, q))
    } else {
        let r = skip_ws(s, q);
        proof { lemma_run_ends(s, q); }
        if keyword_at(s, r, "floordiv"@) || keyword_at(s, r, "ceildiv"@) || keyword_at(s, r, "mod"@) || char_at(s, r, '%') {
            let (start, op) = if keyword_at(s, r, "floordiv"@) {
                (r + 8, "floordiv"@)
            } else if keyword_at(s, r, "ceildiv"@) {
                (r + 7, "ceildiv"@)
            } else if keyword_at(s, r, "mod"@) {
                (r + 3, "mod"@)
            } else {
                (r + 1, "mod"@)
            };
            match pos_const(s, start, op) {
                Err(e) => Err(e),
                Ok((d, q2)) => {
                    let e = if keyword_at(s, r, "floordiv"@) {
                        AffineModel::FloorDiv(Box::new(l), d)
                    } else if keyword_at(s, r, "ceildiv"@) {
                        AffineModel::CeilDiv(Box::new(l), d)
                    } else {
                        AffineModel::Mod(Box::new(l), d)
                    };
                    if q2 <= q || q2 > s.len() { Err(("no progress"@, q2)) } else { p_term_rest(s, q2, e) }
                },
            }
        } else if char_at(s, r, '*') {
            match p_atom(s, r + 1) {
                Err(e) => Err(e),
                Ok((x, q2)) => match scale(l, x) {
                    None => Err(("affine multiplication requires one constant"@, q2)),
                    Some(e) => if q2 <= q || q2 > s.len() { Err(("no progress"@, q2)) } else { p_term_rest(s, q2, e) },
                },
            }
        } else {
            Ok((l, r))
        }
    }
}

pub open spec fn p_atom(s: Seq<char>, p: int) -> PResult
    decreases s.len() - p, 0nat,
{
    if !(0 <= p <= s.len()) {
        Err(("position out of range"@, p))
    } else {
        let r = skip_ws(s, p);
        proof { lemma_run_ends(s, p); }
        if char_at(s, r, '(') {
            match p_sum(s, r + 1) {
                Err(e) => Err(e),
                Ok((e, q)) => {
                    let t = skip_ws(s, q);
                    if char_at(s, t, ')') { Ok((e, t + 1)) } else { Err(("expected ')'"@, t)) }
                },
            }
        } else if char_at(s, r, '-') {
            match p_atom(s, r + 1) {
                Err(e) => Err(e),
                Ok((e, q)) => Ok((AffineModel::Mul(-1, Box::new(e)), q)),
            }
        } else if digits_end(s, r) > r {
            let d = digits_end(s, r);
            if digits_value(s, r, d) > i64::MAX {
                Err(("integer is out of range"@, d))
            } else {
                Ok((AffineModel::Constant(digits_value(s, r, d)), d))
            }
        } else if ident_end(s, r) > r {
            Ok((AffineModel::Variable(s.subrange(r, ident_end(s, r))), ident_end(s, r)))
        } else {
            Err(("expected an integer, variable, or parenthesized expression"@, r))
        }
    }
}

/// The whole input as one expression.
pub open spec fn p_affine(s: Seq<char>) -> Result<AffineModel, (Seq<char>, int)> {
    match p_sum(s, 0) {
        Err(e) => Err(e),
        Ok((e, q)) => if skip_ws(s, q) == s.len() {
            Ok(e)
        } else {
            Err(("unexpected trailing input"@, skip_ws(s, q)))
        },
    }
}

// ---------------------------------------------------------------------------
// Executable parser

type XResult = Result<(AffineExpression, usize), (String, usize)>;

pub open spec fn xmodel(r: XResult) -> PResult {
    match r {
        Ok((e, q)) => Ok((e@, q as int)),
        Err((m, q)) => Err((m@, q as int)),
    }
}

pub(crate) fn x_skip_ws(s: &[char], p: usize) -> (r: usize)
    requires
        p <= s@.len(),
    ensures
        r == skip_ws(s@, p as int),
    decreases s.len() - p,
{
    if p < s.len() && space(s[p]) { x_skip_ws(s, p + 1) } else { p }
}

pub(crate) fn x_digits_end(s: &[char], p: usize) -> (r: usize)
    requires
        p <= s@.len(),
    ensures
        r == digits_end(s@, p as int),
    decreases s.len() - p,
{
    if p < s.len() && digit(s[p]) { x_digits_end(s, p + 1) } else { p }
}

pub(crate) fn x_ident_end(s: &[char], p: usize) -> (r: usize)
    requires
        p <= s@.len(),
    ensures
        r == ident_end(s@, p as int),
    decreases s.len() - p,
{
    if p < s.len() && ident_char(s[p]) { x_ident_end(s, p + 1) } else { p }
}

pub(crate) fn x_digit_value(c: char) -> (r: i64)
    ensures
        r == digit_val(c),
{
    if c == '0' { 0 } else if c == '1' { 1 } else if c == '2' { 2 } else if c == '3' { 3 }
    else if c == '4' { 4 } else if c == '5' { 5 } else if c == '6' { 6 } else if c == '7' { 7 }
    else if c == '8' { 8 } else { 9 }
}

pub proof fn lemma_digits_value_mono(s: Seq<char>, from: int, to: int)
    requires
        from <= to,
        forall|k: int| from <= k < to ==> is_digit(#[trigger] s[k]),
    ensures
        digits_value(s, from, to) >= 0,
    decreases to - from,
{
    if to > from {
        lemma_digits_value_mono(s, from, to - 1);
    }
}

/// Value of the digits `s[from..to]`, or `None` above `i64::MAX`.
pub(crate) fn x_digits_value(s: &[char], from: usize, to: usize) -> (r: Option<i64>)
    requires
        from <= to <= s@.len(),
        forall|k: int| from <= k < to ==> is_digit(#[trigger] s@[k]),
    ensures
        match r {
            Some(v) => v as int == digits_value(s@, from as int, to as int),
            None => digits_value(s@, from as int, to as int) > i64::MAX,
        },
{
    let mut v: i64 = 0;
    let mut i: usize = from;
    let mut overflow = false;
    while i < to
        invariant
            from <= i <= to <= s@.len(),
            forall|k: int| from <= k < to ==> is_digit(#[trigger] s@[k]),
            !overflow ==> v as int == digits_value(s@, from as int, i as int),
            overflow ==> digits_value(s@, from as int, i as int) > i64::MAX,
            v >= 0,
        decreases to - i,
    {
        let d = x_digit_value(s[i]);
        proof {
            lemma_digits_value_mono(s@, from as int, i as int);
        }
        if overflow {
            proof {
                assert(digits_value(s@, from as int, i + 1) == digits_value(s@, from as int, i as int) * 10 + digit_val(s@[i as int]));
                assert(digits_value(s@, from as int, i as int) * 10 >= digits_value(s@, from as int, i as int)) by (nonlinear_arith)
                    requires digits_value(s@, from as int, i as int) >= 0;
            }
        } else {
            match v.checked_mul(10) {
                None => {
                    overflow = true;
                },
                Some(t) => match t.checked_add(d) {
                    None => {
                        overflow = true;
                    },
                    Some(u) => {
                        v = u;
                    },
                },
            }
        }
        i += 1;
    }
    if overflow { None } else { Some(v) }
}

pub proof fn lemma_digit_run(s: Seq<char>, p: int)
    requires
        0 <= p <= s.len(),
    ensures
        forall|k: int| p <= k < digits_end(s, p) ==> is_digit(#[trigger] s[k]),
        forall|k: int| p <= k < ident_end(s, p) ==> is_ident_char(#[trigger] s[k]),
    decreases s.len() - p,
{
    if p < s.len() {
        lemma_digit_run(s, p + 1);
    }
}

pub(crate) fn x_char_at(s: &[char], p: usize, c: char) -> (r: bool)
    ensures
        r == char_at(s@, p as int, c),
{
    p < s.len() && s[p] == c
}

pub(crate) fn x_keyword_at(s: &[char], p: usize, kw: &str) -> (r: bool)
    requires
        p <= s@.len(),
    ensures
        r == keyword_at(s@, p as int, kw@),
{
    let k = crate::text::chars_of(kw);
    if k.len() > s.len() - p {
        return false;
    }
    if !starts_with_at(s, p, k.as_slice()) {
        return false;
    }
    let e = p + k.len();
    !(e < s.len() && ident_char(s[e]))
}

fn x_pos_const(s: &[char], p: usize, op: &str) -> (r: Result<(i64, usize), (String, usize)>)
    requires
        p <= s@.len(),
    ensures
        match r {
            Ok((v, q)) => pos_const(s@, p as int, op@) == Ok::<(int, int), (Seq<char>, int)>((v as int, q as int)),
            Err((m, q)) => pos_const(s@, p as int, op@) == Err::<(int, int), (Seq<char>, int)>((m@, q as int)),
        },
{
    let r = x_skip_ws(s, p);
    proof { lemma_run_ends(s@, p as int); lemma_run_ends(s@, r as int); lemma_digit_run(s@, r as int); }
    let d = x_digits_end(s, r);
    if d == r {
        return Err((crate::text::concat(op, " requires a positive constant divisor"), r));
    }
    match x_digits_value(s, r, d) {
        None => Err((crate::text::owned("integer is out of range"), d)),
        Some(v) => if v <= 0 {
            Err((crate::text::concat(op, " divisor must be positive"), d))
        } else {
            Ok((v, d))
        },
    }
}

fn x_sum(s: &[char], p: usize) -> (r: XResult)
    requires
        p <= s@.len(),
    ensures
        xmodel(r) == p_sum(s@, p as int),
        r matches Ok((_, e)) ==> e <= s@.len(),
    decreases s.len() - p, 4nat,
{
    match x_term(s, p) {
        Err(e) => Err(e),
        Ok((l, q)) => if q < p || q > s.len() {
            Err((crate::text::owned("no progress"), q))
        } else {
            x_sum_rest(s, q, l)
        },
    }
}

fn x_sum_rest(s: &[char], q: usize, l: AffineExpression) -> (r: XResult)
    requires
        q <= s@.len(),
    ensures
        xmodel(r) == p_sum_rest(s@, q as int, l@),
        r matches Ok((_, e)) ==> e <= s@.len(),
    decreases s.len() - q, 3nat,
{
    let r = x_skip_ws(s, q);
    proof { lemma_run_ends(s@, q as int); }
    let plus = x_char_at(s, r, '+');
    if plus || x_char_at(s, r, '-') {
        match x_term(s, r + 1) {
            Err(e) => Err(e),
            Ok((x, q2)) => if q2 <= q || q2 > s.len() {
                Err((crate::text::owned("no progress"), q2))
            } else if plus {
                x_sum_rest(s, q2, AffineExpression::Add(Box::new(l), Box::new(x)))
            } else {
                x_sum_rest(s, q2, AffineExpression::Sub(Box::new(l), Box::new(x)))
            },
        }
    } else {
        Ok((l, r))
    }
}

fn x_term(s: &[char], p: usize) -> (r: XResult)
    requires
        p <= s@.len(),
    ensures
        xmodel(r) == p_term(s@, p as int),
        r matches Ok((_, e)) ==> e <= s@.len(),
    decreases s.len() - p, 2nat,
{
    match x_atom(s, p) {
        Err(e) => Err(e),
        Ok((l, q)) => if q < p || q > s.len() {
            Err((crate::text::owned("no progress"), q))
        } else {
            x_term_rest(s, q, l)
        },
    }
}

fn x_scale(l: AffineExpression, x: AffineExpression) -> (r: Option<AffineExpression>)
    ensures
        match r {
            Some(e) => scale(l@, x@) == Some(e@),
            None => scale(l@, x@) is None,
        },
{
    match (l, x) {
        (AffineExpression::Constant(c), e) => Some(AffineExpression::Mul(c, Box::new(e))),
        (e, AffineExpression::Constant(c)) => Some(AffineExpression::Mul(c, Box::new(e))),
        _ => None,
    }
}

fn x_term_rest(s: &[char], q: usize, l: AffineExpression) -> (r: XResult)
    requires
        q <= s@.len(),
    ensures
        xmodel(r) == p_term_rest(s@, q as int, l@),
        r matches Ok((_, e)) ==> e <= s@.len(),
    decreases s.len() - q, 1nat,
{
    let r = x_skip_ws(s, q);
    proof {
        lemma_run_ends(s@, q as int);
        reveal_strlit("floordiv");
        reveal_strlit("ceildiv");
        reveal_strlit("mod");
    }
    let fd = x_keyword_at(s, r, "floordiv");
    let cd = x_keyword_at(s, r, "ceildiv");
    let md = x_keyword_at(s, r, "mod");
    let pc = x_char_at(s, r, '%');
    if fd || cd || md || pc {
        let (start, op) = if fd {
            (r + 8, "floordiv")
        } else if cd {
            (r + 7, "ceildiv")
        } else if md {
            (r + 3, "mod")
        } else {
            (r + 1, "mod")
        };
        match x_pos_const(s, start, op) {
            Err(e) => Err(e),
            Ok((d, q2)) => {
                let e = if fd {
                    AffineExpression::FloorDiv(Box::new(l), d)
                } else if cd {
                    AffineExpression::CeilDiv(Box::new(l), d)
                } else {
                    AffineExpression::Mod(Box::new(l), d)
                };
                if q2 <= q || q2 > s.len() {
                    Err((crate::text::owned("no progress"), q2))
                } else {
                    x_term_rest(s, q2, e)
                }
            },
        }
    } else if x_char_at(s, r, '*') {
        match x_atom(s, r + 1) {
            Err(e) => Err(e),
            Ok((x, q2)) => match x_scale(l, x) {
                None => Err((crate::text::owned("affine multiplication requires one constant"), q2)),
                Some(e) => if q2 <= q || q2 > s.len() {
                    Err((crate::text::owned("no progress"), q2))
                } else {
                    x_term_rest(s, q2, e)
                },
            },
        }
    } else {
        Ok((l, r))
    }
}

fn x_atom(s: &[char], p: usize) -> (r: XResult)
    requires
        p <= s@.len(),
    ensures
        xmodel(r) == p_atom(s@, p as int),
        r matches Ok((_, e)) ==> e <= s@.len(),
    decreases s.len() - p, 0nat,
{
    let r = x_skip_ws(s, p);
    proof { lemma_run_ends(s@, p as int); lemma_run_ends(s@, r as int); lemma_digit_run(s@, r as int); }
    if x_char_at(s, r, '(') {
        match x_sum(s, r + 1) {
            Err(e) => Err(e),
            Ok((e, q)) => {
                let t = x_skip_ws(s, q);
                if x_char_at(s, t, ')') {
                    Ok((e, t + 1))
                } else {
                    Err((crate::text::owned("expected ')'"), t))
                }
            },
        }
    } else if x_char_at(s, r, '-') {
        match x_atom(s, r + 1) {
            Err(e) => Err(e),
            Ok((e, q)) => Ok((AffineExpression::Mul(-1, Box::new(e)), q)),
        }
    } else {
        let d = x_digits_end(s, r);
        if d > r {
            match x_digits_value(s, r, d) {
                None => Err((crate::text::owned("integer is out of range"), d)),
                Some(v) => Ok((AffineExpression::Constant(v), d)),
            }
        } else {
            let i = x_ident_end(s, r);
            if i > r {
                Ok((AffineExpression::Variable(crate::text::from_char_range(s, r, i)), i))
            } else {
                Err((crate::text::owned("expected an integer, variable, or parenthesized expression"), r))
            }
        }
    }
}

impl AffineExpression {
    /// Parses affine expression text such as `(x + 1) mod 8` or `2 * y - 1`.
    pub fn parse(input: &str) -> (r: Result<AffineExpression, EndpointParseError>)
        ensures
            match r {
                Ok(e) => p_affine(input@) == Ok::<AffineModel, (Seq<char>, int)>(e@),
                Err(err) => p_affine(input@) == Err::<AffineModel, (Seq<char>, int)>((err.message@, err.position as int)),
            },
    {
        let s = crate::text::chars_of(input);
        match x_sum(s.as_slice(), 0) {
            Err((message, position)) => Err(EndpointParseError { message, position }),
            Ok((e, q)) => {
                let t = x_skip_ws(s.as_slice(), q);
                if t == s.len() {
                    Ok(e)
                } else {
                    Err(EndpointParseError { message: crate::text::owned("unexpected trailing input"), position: t })
                }
            },
        }
    }
}

// ---------------------------------------------------------------------------
// Memory endpoints: `L1`, `L1[x, y]`, `L2[x floordiv 2, :]`

/// A selector as a model: `None` for `:`, else the expression.
pub type SelectorModel = Option<AffineModel>;

/// One selector at `p`: `:` or an expression, and the position after it.
pub open spec fn p_selector(s: Seq<char>, p: int) -> Result<(SelectorModel, int), (Seq<char>, int)> {
    let q = skip_ws(s, p);
    if char_at(s, q, ':') {
        Ok((None, q + 1))
    } else {
        match p_sum(s, q) {
            Err(e) => Err(e),
            Ok((e, r)) => Ok((Some(e), r)),
        }
    }
}

/// The selectors from `p` on, after a `[` or a `,`, up to and past the closing `]`.
pub open spec fn p_selectors(s: Seq<char>, p: int, acc: Seq<SelectorModel>) -> Result<(Seq<SelectorModel>, int), (Seq<char>, int)>
    decreases s.len() - p,
{
    if !(0 <= p <= s.len()) {
        Err(("position out of range"@, p))
    } else {
        match p_selector(s, p) {
            Err(e) => Err(e),
            Ok((x, r)) => {
                let t = skip_ws(s, r);
                if r <= p || r > s.len() {
                    Err(("no progress"@, r))
                } else if char_at(s, t, ',') {
                    proof { lemma_run_ends(s, r); }
                    p_selectors(s, t + 1, acc.push(x))
                } else if char_at(s, t, ']') {
                    Ok((acc.push(x), t + 1))
                } else {
                    Err(("expected ',' or ']'"@, t))
                }
            },
        }
    }
}

/// An endpoint: a memory name, then optionally its selectors in brackets.
pub open spec fn p_endpoint(s: Seq<char>) -> Result<(Seq<char>, Seq<SelectorModel>), (Seq<char>, int)> {
    let a = skip_ws(s, 0);
    let b = ident_end(s, a);
    let c = skip_ws(s, b);
    if b == a {
        Err(("expected a memory name"@, a))
    } else if char_at(s, c, '[') {
        match p_selectors(s, c + 1, Seq::empty()) {
            Err(e) => Err(e),
            Ok((v, q)) => if skip_ws(s, q) == s.len() {
                Ok((s.subrange(a, b), v))
            } else {
                Err(("unexpected trailing input"@, skip_ws(s, q)))
            },
        }
    } else if c == s.len() {
        Ok((s.subrange(a, b), Seq::empty()))
    } else {
        Err(("unexpected trailing input"@, c))
    }
}

/// The selectors of an endpoint as models.
pub open spec fn selectors_of(v: Seq<super::memory::EndpointIndex>) -> Seq<SelectorModel> {
    v.map_values(|i: super::memory::EndpointIndex| selector_model(i))
}

pub open spec fn selector_model(i: super::memory::EndpointIndex) -> SelectorModel {
    match i {
        super::memory::EndpointIndex::All => None,
        super::memory::EndpointIndex::Expression(e) => Some(e@),
    }
}

fn x_selector(s: &[char], p: usize) -> (r: Result<(super::memory::EndpointIndex, usize), (String, usize)>)
    requires
        p <= s@.len(),
    ensures
        match r {
            Ok((x, q)) => p_selector(s@, p as int) == Ok::<(SelectorModel, int), (Seq<char>, int)>((selector_model(x), q as int)) && q <= s@.len(),
            Err((m, q)) => p_selector(s@, p as int) == Err::<(SelectorModel, int), (Seq<char>, int)>((m@, q as int)),
        },
{
    proof { lemma_run_ends(s@, p as int); }
    let n = s.len();
    let q = x_skip_ws(s, p);
    if x_char_at(s, q, ':') {
        assert(q < n);
        return Ok((super::memory::EndpointIndex::All, q + 1));
    }
    match x_sum(s, q) {
        Err(e) => Err(e),
        Ok((e, r)) => Ok((super::memory::EndpointIndex::Expression(e), r)),
    }
}

impl super::memory::MemoryEndpoint {
    /// Parses endpoint text: `L1`, `L1[x, y]`, `L2[x floordiv 2, :]`.
    pub fn parse(input: &str) -> (r: Result<super::memory::MemoryEndpoint, EndpointParseError>)
        ensures
            match r {
                Ok(e) => p_endpoint(input@) == Ok::<(Seq<char>, Seq<SelectorModel>), (Seq<char>, int)>(
                    (e.memory@, selectors_of(e.indices@)),
                ) && e.bank is None,
                Err(err) => p_endpoint(input@) == Err::<(Seq<char>, Seq<SelectorModel>), (Seq<char>, int)>((err.message@, err.position as int)),
            },
    {
        let s = crate::text::chars_of(input);
        let n = s.len();
        proof { lemma_run_ends(s@, 0); }
        let a = x_skip_ws(s.as_slice(), 0);
        proof { lemma_run_ends(s@, a as int); }
        let b = x_ident_end(s.as_slice(), a);
        proof { lemma_run_ends(s@, b as int); }
        let c = x_skip_ws(s.as_slice(), b);
        if b == a {
            return Err(EndpointParseError { message: crate::text::owned("expected a memory name"), position: a });
        }
        let memory = crate::text::from_char_range(s.as_slice(), a, b);
        if !x_char_at(s.as_slice(), c, '[') {
            if c == n {
                let e = super::memory::MemoryEndpoint { memory, indices: Vec::new(), bank: None };
                proof { assert(e.indices@.map_values(|i: super::memory::EndpointIndex| selector_model(i)) =~= Seq::<SelectorModel>::empty()); }
                return Ok(e);
            }
            return Err(EndpointParseError { message: crate::text::owned("unexpected trailing input"), position: c });
        }
        let mut indices: Vec<super::memory::EndpointIndex> = Vec::new();
        let mut p: usize = c + 1;
        proof { assert(indices@.map_values(|i: super::memory::EndpointIndex| selector_model(i)) =~= Seq::<SelectorModel>::empty()); }
        loop
            invariant
                p <= n == s@.len(),
                s@ == input@,
                a == skip_ws(s@, 0),
                b == ident_end(s@, a as int),
                c == skip_ws(s@, b as int),
                a < b,
                char_at(s@, c as int, '['),
                memory@ == s@.subrange(a as int, b as int),
                p_selectors(s@, c + 1, Seq::empty()) == p_selectors(s@, p as int, indices@.map_values(|i: super::memory::EndpointIndex| selector_model(i))),
            decreases n - p,
        {
            let ghost acc = indices@.map_values(|i: super::memory::EndpointIndex| selector_model(i));
            let (x, r) = match x_selector(s.as_slice(), p) {
                Ok(v) => v,
                Err((message, position)) => { return Err(EndpointParseError { message, position }); },
            };
            if r <= p || r > n {
                return Err(EndpointParseError { message: crate::text::owned("no progress"), position: r });
            }
            proof { lemma_run_ends(s@, r as int); }
            let t = x_skip_ws(s.as_slice(), r);
            let ghost xm = selector_model(x);
            indices.push(x);
            proof {
                assert(indices@.map_values(|i: super::memory::EndpointIndex| selector_model(i)) =~= acc.push(xm));
            }
            if x_char_at(s.as_slice(), t, ',') {
                p = t + 1;
            } else if x_char_at(s.as_slice(), t, ']') {
                proof { lemma_run_ends(s@, t + 1); }
                let u = x_skip_ws(s.as_slice(), t + 1);
                if u == n {
                    return Ok(super::memory::MemoryEndpoint { memory, indices, bank: None });
                }
                return Err(EndpointParseError { message: crate::text::owned("unexpected trailing input"), position: u });
            } else {
                return Err(EndpointParseError { message: crate::text::owned("expected ',' or ']'"), position: t });
            }
        }
    }
}

} // verus!
