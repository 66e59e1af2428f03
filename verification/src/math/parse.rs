//! Text form of cost expressions and constraints, with its grammar as spec functions.
//!
//! Expressions (whitespace allowed between tokens):
//! `sum := prod (("+" | "-") prod)*`, `prod := atom (("*" | "/") atom)*`,
//! `atom := "(" sum ")" | "-" atom | digits | "IF" "(" or ")" "{" sum "}" "ELSE" "{" sum "}"
//!        | "min" "(" sum "," sum ")" | "max" "(" sum "," sum ")" | identifier`.
//!
//! Constraints: `or := and ("||" and)*`, `and := unary ("&&" unary)*`,
//! `unary := "!" unary | "true" | "false" | "divisible" "(" sum "," sum ")" | sum rel sum
//!         | "(" or ")"`, with `rel` one of `>=`, `<=`, `==`, `!=`, `>`, `<`. A chain of one
//! operand is that operand itself.
use vstd::prelude::*;

use crate::arch::index_parser::{
    char_at, digits_end, digits_value, ident_end, keyword_at, lemma_digit_run, lemma_run_ends,
    skip_ws, x_char_at, x_digits_end, x_digits_value, x_ident_end, x_keyword_at, x_skip_ws,
};
use super::expr::{constraint_model, constraints_model, lemma_constraints_model_len, lemma_constraints_model_push};
use super::expr::{ConstraintExpr, ConstraintModel, Expr, ExprModel, Sym};

verus! {

/// A parse failure: what was expected and the character offset where it failed.
#[derive(Debug, PartialEq, Eq)]
pub struct ParseError {
    pub message: String,
    pub position: usize,
}

pub type EResult = Result<(ExprModel, int), (Seq<char>, int)>;

pub type CResult = Result<(ConstraintModel, int), (Seq<char>, int)>;

pub open spec fn bad_end(q: int, p: int, s: Seq<char>) -> bool {
    q < p || q > s.len()
}

pub open spec fn e_sum(s: Seq<char>, p: int) -> EResult
    decreases s.len() - p, 6nat,
{
    if !(0 <= p <= s.len()) {
        Err(("position out of range"@, p))
    } else {
        match e_prod(s, p) {
            Err(e) => Err(e),
            Ok((l, q)) => if bad_end(q, p, s) { Err(("no progress"@, q)) } else { e_sum_rest(s, q, l) },
        }
    }
}

pub open spec fn e_sum_rest(s: Seq<char>, q: int, l: ExprModel) -> EResult
    decreases s.len() - q, 5nat,
{
    if !(0 <= q <= s.len()) {
        Err(("position out of range"@, q))
    } else {
        let r = skip_ws(s, q);
        proof { lemma_run_ends(s, q); }
        if char_at(s, r, '+') || char_at(s, r, '-') {
            match e_prod(s, r + 1) {
                Err(e) => Err(e),
                Ok((x, q2)) => if bad_end(q2, q + 1, s) {
                    Err(("no progress"@, q2))
                } else if char_at(s, r, '+') {
                    e_sum_rest(s, q2, ExprModel::Add(Box::new(l), Box::new(x)))
                } else {
                    e_sum_rest(s, q2, ExprModel::Sub(Box::new(l), Box::new(x)))
                },
            }
        } else {
            Ok((l, r))
        }
    }
}

pub open spec fn e_prod(s: Seq<char>, p: int) -> EResult
    decreases s.len() - p, 4nat,
{
    if !(0 <= p <= s.len()) {
        Err(("position out of range"@, p))
    } else {
        match e_atom(s, p) {
            Err(e) => Err(e),
            Ok((l, q)) => if bad_end(q, p, s) { Err(("no progress"@, q)) } else { e_prod_rest(s, q, l) },
        }
    }
}

pub open spec fn e_prod_rest(s: Seq<char>, q: int, l: ExprModel) -> EResult
    decreases s.len() - q, 3nat,
{
    if !(0 <= q <= s.len()) {
        Err(("position out of range"@, q))
    } else {
        let r = skip_ws(s, q);
        proof { lemma_run_ends(s, q); }
        if char_at(s, r, '*') || char_at(s, r, '/') {
            match e_atom(s, r + 1) {
                Err(e) => Err(e),
                Ok((x, q2)) => if bad_end(q2, q + 1, s) {
                    Err(("no progress"@, q2))
                } else if char_at(s, r, '*') {
                    e_prod_rest(s, q2, ExprModel::Mul(Box::new(l), Box::new(x)))
                } else {
                    e_prod_rest(s, q2, ExprModel::Div(Box::new(l), Box::new(x)))
                },
            }
        } else {
            Ok((l, r))
        }
    }
}

pub open spec fn e_atom(s: Seq<char>, p: int) -> EResult
    decreases s.len() - p, 2nat,
{
    if !(0 <= p <= s.len()) {
        Err(("position out of range"@, p))
    } else {
        let r = skip_ws(s, p);
        proof { lemma_run_ends(s, p); }
        if char_at(s, r, '(') {
            match e_sum(s, r + 1) {
                Err(e) => Err(e),
                Ok((e, q)) => if bad_end(q, r + 1, s) {
                    Err(("no progress"@, q))
                } else {
                    let t = skip_ws(s, q);
                    if char_at(s, t, ')') { Ok((e, t + 1)) } else { Err(("expected ')'"@, t)) }
                },
            }
        } else if char_at(s, r, '-') {
            match e_atom(s, r + 1) {
                Err(e) => Err(e),
                Ok((e, q)) => Ok((ExprModel::Sub(Box::new(ExprModel::Const(0)), Box::new(e)), q)),
            }
        } else if digits_end(s, r) > r {
            let d = digits_end(s, r);
            if digits_value(s, r, d) > i64::MAX {
                Err(("integer is out of range"@, d))
            } else {
                Ok((ExprModel::Const(digits_value(s, r, d)), d))
            }
        } else if keyword_at(s, r, "IF"@) {
            proof { reveal_strlit("IF"); }
            e_if(s, r + 2)
        } else if keyword_at(s, r, "min"@) && char_at(s, skip_ws(s, r + 3), '(') {
            proof { reveal_strlit("min"); lemma_run_ends(s, r + 3); }
            e_call(s, skip_ws(s, r + 3) + 1, true)
        } else if keyword_at(s, r, "max"@) && char_at(s, skip_ws(s, r + 3), '(') {
            proof { reveal_strlit("max"); lemma_run_ends(s, r + 3); }
            e_call(s, skip_ws(s, r + 3) + 1, false)
        } else if ident_end(s, r) > r {
            proof { lemma_run_ends(s, r); }
            Ok((ExprModel::Sym(s.subrange(r, ident_end(s, r))), ident_end(s, r)))
        } else {
            Err(("expected a number, symbol, or parenthesized expression"@, r))
        }
    }
}

/// The two arguments of `min(..)` or `max(..)`, from just after the opening parenthesis.
pub open spec fn e_call(s: Seq<char>, p: int, is_min: bool) -> EResult
    decreases s.len() - p, 7nat,
{
    if !(0 <= p <= s.len()) {
        Err(("position out of range"@, p))
    } else {
        match e_sum(s, p) {
            Err(e) => Err(e),
            Ok((a, q)) => if bad_end(q, p, s) {
                Err(("no progress"@, q))
            } else {
                let c = skip_ws(s, q);
                proof { lemma_run_ends(s, q); }
                if !char_at(s, c, ',') {
                    Err(("expected ','"@, c))
                } else {
                    match e_sum(s, c + 1) {
                        Err(e) => Err(e),
                        Ok((b, q2)) => if bad_end(q2, c + 1, s) {
                            Err(("no progress"@, q2))
                        } else {
                            let t = skip_ws(s, q2);
                            if !char_at(s, t, ')') {
                                Err(("expected ')'"@, t))
                            } else if is_min {
                                Ok((ExprModel::Min(Box::new(a), Box::new(b)), t + 1))
                            } else {
                                Ok((ExprModel::Max(Box::new(a), Box::new(b)), t + 1))
                            }
                        },
                    }
                }
            },
        }
    }
}

/// `(cond) {then} ELSE {else}`, from just after the keyword `IF`.
pub open spec fn e_if(s: Seq<char>, p: int) -> EResult
    decreases s.len() - p, 1nat,
{
    if !(0 <= p <= s.len()) {
        Err(("position out of range"@, p))
    } else {
        let r = skip_ws(s, p);
        proof { lemma_run_ends(s, p); }
        if !char_at(s, r, '(') {
            Err(("expected '(' after IF"@, r))
        } else {
            match c_or(s, r + 1) {
                Err(e) => Err(e),
                Ok((c, q)) => if bad_end(q, r + 1, s) {
                    Err(("no progress"@, q))
                } else {
                    let t = skip_ws(s, q);
                    proof { lemma_run_ends(s, q); }
                    if !char_at(s, t, ')') {
                        Err(("expected ')'"@, t))
                    } else {
                        let u = skip_ws(s, t + 1);
                        proof { lemma_run_ends(s, t + 1); }
                        if !char_at(s, u, '{') {
                            Err(("expected '{'"@, u))
                        } else {
                            match e_sum(s, u + 1) {
                                Err(e) => Err(e),
                                Ok((a, q2)) => if bad_end(q2, u + 1, s) {
                                    Err(("no progress"@, q2))
                                } else {
                                    e_else(s, q2, c, a)
                                },
                            }
                        }
                    }
                },
            }
        }
    }
}

/// `} ELSE {else}` after the then-branch of an `IF`.
pub open spec fn e_else(s: Seq<char>, q: int, c: ConstraintModel, a: ExprModel) -> EResult
    decreases s.len() - q, 0nat,
{
    if !(0 <= q <= s.len()) {
        Err(("position out of range"@, q))
    } else {
        let v = skip_ws(s, q);
        proof { lemma_run_ends(s, q); }
        if !char_at(s, v, '}') {
            Err(("expected '}'"@, v))
        } else {
            let w = skip_ws(s, v + 1);
            proof { lemma_run_ends(s, v + 1); }
            if !keyword_at(s, w, "ELSE"@) {
                Err(("expected ELSE"@, w))
            } else {
                proof { reveal_strlit("ELSE"); }
                let x = skip_ws(s, w + 4);
                proof { lemma_run_ends(s, w + 4); }
                if !char_at(s, x, '{') {
                    Err(("expected '{'"@, x))
                } else {
                    match e_sum(s, x + 1) {
                        Err(e) => Err(e),
                        Ok((b, q3)) => if bad_end(q3, x + 1, s) {
                            Err(("no progress"@, q3))
                        } else {
                            let y = skip_ws(s, q3);
                            if !char_at(s, y, '}') {
                                Err(("expected '}'"@, y))
                            } else {
                                Ok((ExprModel::IfElse(Box::new(c), Box::new(a), Box::new(b)), y + 1))
                            }
                        },
                    }
                }
            }
        }
    }
}

/// A chain of one operand is the operand; a longer one is the conjunction or disjunction.
pub open spec fn chain(acc: Seq<ConstraintModel>, is_and: bool) -> ConstraintModel {
    if acc.len() == 1 {
        acc[0]
    } else if is_and {
        ConstraintModel::And(acc)
    } else {
        ConstraintModel::Or(acc)
    }
}

pub open spec fn c_or(s: Seq<char>, p: int) -> CResult
    decreases s.len() - p, 12nat,
{
    if !(0 <= p <= s.len()) {
        Err(("position out of range"@, p))
    } else {
        match c_and(s, p) {
            Err(e) => Err(e),
            Ok((u, q)) => if bad_end(q, p, s) { Err(("no progress"@, q)) } else { c_or_rest(s, q, seq![u]) },
        }
    }
}

pub open spec fn c_or_rest(s: Seq<char>, q: int, acc: Seq<ConstraintModel>) -> CResult
    decreases s.len() - q, 11nat,
{
    if !(0 <= q <= s.len()) {
        Err(("position out of range"@, q))
    } else {
        let r = skip_ws(s, q);
        proof { lemma_run_ends(s, q); }
        if char_at(s, r, '|') && char_at(s, r + 1, '|') {
            match c_and(s, r + 2) {
                Err(e) => Err(e),
                Ok((u, q2)) => if bad_end(q2, q + 1, s) { Err(("no progress"@, q2)) } else { c_or_rest(s, q2, acc.push(u)) },
            }
        } else {
            Ok((chain(acc, false), r))
        }
    }
}

pub open spec fn c_and(s: Seq<char>, p: int) -> CResult
    decreases s.len() - p, 10nat,
{
    if !(0 <= p <= s.len()) {
        Err(("position out of range"@, p))
    } else {
        match c_unary(s, p) {
            Err(e) => Err(e),
            Ok((u, q)) => if bad_end(q, p, s) { Err(("no progress"@, q)) } else { c_and_rest(s, q, seq![u]) },
        }
    }
}

pub open spec fn c_and_rest(s: Seq<char>, q: int, acc: Seq<ConstraintModel>) -> CResult
    decreases s.len() - q, 9nat,
{
    if !(0 <= q <= s.len()) {
        Err(("position out of range"@, q))
    } else {
        let r = skip_ws(s, q);
        proof { lemma_run_ends(s, q); }
        if char_at(s, r, '&') && char_at(s, r + 1, '&') {
            match c_unary(s, r + 2) {
                Err(e) => Err(e),
                Ok((u, q2)) => if bad_end(q2, q + 1, s) { Err(("no progress"@, q2)) } else { c_and_rest(s, q2, acc.push(u)) },
            }
        } else {
            Ok((chain(acc, true), r))
        }
    }
}

pub open spec fn c_unary(s: Seq<char>, p: int) -> CResult
    decreases s.len() - p, 8nat,
{
    if !(0 <= p <= s.len()) {
        Err(("position out of range"@, p))
    } else {
        let r = skip_ws(s, p);
        proof { lemma_run_ends(s, p); }
        if char_at(s, r, '!') && !char_at(s, r + 1, '=') {
            match c_unary(s, r + 1) {
                Err(e) => Err(e),
                Ok((u, q)) => Ok((ConstraintModel::Not(Box::new(u)), q)),
            }
        } else if keyword_at(s, r, "true"@) {
            Ok((ConstraintModel::True, r + 4))
        } else if keyword_at(s, r, "false"@) {
            Ok((ConstraintModel::False, r + 5))
        } else if keyword_at(s, r, "divisible"@) && char_at(s, skip_ws(s, r + 9), '(') {
            proof { reveal_strlit("divisible"); lemma_run_ends(s, r + 9); }
            c_divisible(s, skip_ws(s, r + 9) + 1)
        } else {
            match c_rel(s, r) {
                Ok(x) => Ok(x),
                Err(e) => if char_at(s, r, '(') { c_group(s, r + 1) } else { Err(e) },
            }
        }
    }
}

/// A parenthesized constraint, from just after `(`.
pub open spec fn c_group(s: Seq<char>, p: int) -> CResult
    decreases s.len() - p, 13nat,
{
    if !(0 <= p <= s.len()) {
        Err(("position out of range"@, p))
    } else {
        match c_or(s, p) {
            Err(e) => Err(e),
            Ok((c, q)) => if bad_end(q, p, s) {
                Err(("no progress"@, q))
            } else {
                let t = skip_ws(s, q);
                if char_at(s, t, ')') { Ok((c, t + 1)) } else { Err(("expected ')'"@, t)) }
            },
        }
    }
}

/// `divisible(x, by)`, from just after `(`.
pub open spec fn c_divisible(s: Seq<char>, p: int) -> CResult
    decreases s.len() - p, 8nat,
{
    match e_call(s, p, true) {
        Err(e) => Err(e),
        Ok((ExprModel::Min(a, b), q)) => Ok((ConstraintModel::Divisible(*a, *b), q)),
        Ok((_, q)) => Err(("expected divisible arguments"@, q)),
    }
}

/// The comparison operator at `r`: its kind (0 `>=`, 1 `<=`, 2 `==`, 3 `!=`, 4 `>`, 5 `<`)
/// and its length.
pub open spec fn rel_op(s: Seq<char>, r: int) -> Option<(int, int)> {
    if char_at(s, r, '>') && char_at(s, r + 1, '=') {
        Some((0, 2))
    } else if char_at(s, r, '<') && char_at(s, r + 1, '=') {
        Some((1, 2))
    } else if char_at(s, r, '=') && char_at(s, r + 1, '=') {
        Some((2, 2))
    } else if char_at(s, r, '!') && char_at(s, r + 1, '=') {
        Some((3, 2))
    } else if char_at(s, r, '>') {
        Some((4, 1))
    } else if char_at(s, r, '<') {
        Some((5, 1))
    } else {
        None
    }
}

pub open spec fn make_rel(kind: int, a: ExprModel, b: ExprModel) -> ConstraintModel {
    if kind == 0 {
        ConstraintModel::Ge(a, b)
    } else if kind == 1 {
        ConstraintModel::Le(a, b)
    } else if kind == 2 {
        ConstraintModel::Eq(a, b)
    } else if kind == 3 {
        ConstraintModel::Ne(a, b)
    } else if kind == 4 {
        ConstraintModel::Gt(a, b)
    } else {
        ConstraintModel::Lt(a, b)
    }
}

pub open spec fn c_rel(s: Seq<char>, p: int) -> CResult
    decreases s.len() - p, 7nat,
{
    if !(0 <= p <= s.len()) {
        Err(("position out of range"@, p))
    } else {
        match e_sum(s, p) {
            Err(e) => Err(e),
            Ok((a, q)) => if bad_end(q, p, s) {
                Err(("no progress"@, q))
            } else {
                let r = skip_ws(s, q);
                proof { lemma_run_ends(s, q); }
                match rel_op(s, r) {
                    None => Err(("expected a comparison operator"@, r)),
                    Some((kind, len)) => match e_sum(s, r + len) {
                        Err(e) => Err(e),
                        Ok((b, q2)) => Ok((make_rel(kind, a, b), q2)),
                    },
                }
            },
        }
    }
}

/// The whole text as one expression.
pub open spec fn expr_text(s: Seq<char>) -> Result<ExprModel, (Seq<char>, int)> {
    match e_sum(s, 0) {
        Err(e) => Err(e),
        Ok((e, q)) => if skip_ws(s, q) == s.len() { Ok(e) } else { Err(("unexpected trailing input"@, skip_ws(s, q))) },
    }
}

/// The whole text as one constraint.
pub open spec fn constraint_text(s: Seq<char>) -> Result<ConstraintModel, (Seq<char>, int)> {
    match c_or(s, 0) {
        Err(e) => Err(e),
        Ok((c, q)) => if skip_ws(s, q) == s.len() { Ok(c) } else { Err(("unexpected trailing input"@, skip_ws(s, q))) },
    }
}


// ---------------------------------------------------------------------------
// Executable parser

type XE = Result<(Expr, usize), (String, usize)>;

type XC = Result<(ConstraintExpr, usize), (String, usize)>;

pub open spec fn xe(r: XE) -> EResult {
    match r {
        Ok((e, q)) => Ok((e@, q as int)),
        Err((m, q)) => Err((m@, q as int)),
    }
}

pub open spec fn xc(r: XC) -> CResult {
    match r {
        Ok((c, q)) => Ok((c@, q as int)),
        Err((m, q)) => Err((m@, q as int)),
    }
}

fn fail<T>(m: &str, q: usize) -> (r: Result<T, (String, usize)>)
    ensures
        r matches Err((x, y)) && x@ == m@ && y == q,
{
    Err((crate::text::owned(m), q))
}

fn x_sum(s: &[char], p: usize) -> (r: XE)
    requires
        p <= s@.len(),
    ensures
        xe(r) == e_sum(s@, p as int),
        r matches Ok((_, e)) ==> e <= s@.len(),
    decreases s.len() - p, 6nat,
{
    match x_prod(s, p) {
        Err(e) => Err(e),
        Ok((l, q)) => if q < p || q > s.len() { fail("no progress", q) } else { x_sum_rest(s, q, l) },
    }
}

fn x_sum_rest(s: &[char], q: usize, l: Expr) -> (r: XE)
    requires
        q <= s@.len(),
    ensures
        xe(r) == e_sum_rest(s@, q as int, l@),
        r matches Ok((_, e)) ==> e <= s@.len(),
    decreases s.len() - q, 5nat,
{
    let r = x_skip_ws(s, q);
    proof { lemma_run_ends(s@, q as int); }
    let plus = x_char_at(s, r, '+');
    if plus || x_char_at(s, r, '-') {
        match x_prod(s, r + 1) {
            Err(e) => Err(e),
            Ok((x, q2)) => if q2 < q + 1 || q2 > s.len() {
                fail("no progress", q2)
            } else if plus {
                x_sum_rest(s, q2, Expr::Add(Box::new(l), Box::new(x)))
            } else {
                x_sum_rest(s, q2, Expr::Sub(Box::new(l), Box::new(x)))
            },
        }
    } else {
        Ok((l, r))
    }
}

fn x_prod(s: &[char], p: usize) -> (r: XE)
    requires
        p <= s@.len(),
    ensures
        xe(r) == e_prod(s@, p as int),
        r matches Ok((_, e)) ==> e <= s@.len(),
    decreases s.len() - p, 4nat,
{
    match x_atom(s, p) {
        Err(e) => Err(e),
        Ok((l, q)) => if q < p || q > s.len() { fail("no progress", q) } else { x_prod_rest(s, q, l) },
    }
}

fn x_prod_rest(s: &[char], q: usize, l: Expr) -> (r: XE)
    requires
        q <= s@.len(),
    ensures
        xe(r) == e_prod_rest(s@, q as int, l@),
        r matches Ok((_, e)) ==> e <= s@.len(),
    decreases s.len() - q, 3nat,
{
    let r = x_skip_ws(s, q);
    proof { lemma_run_ends(s@, q as int); }
    let star = x_char_at(s, r, '*');
    if star || x_char_at(s, r, '/') {
        match x_atom(s, r + 1) {
            Err(e) => Err(e),
            Ok((x, q2)) => if q2 < q + 1 || q2 > s.len() {
                fail("no progress", q2)
            } else if star {
                x_prod_rest(s, q2, Expr::Mul(Box::new(l), Box::new(x)))
            } else {
                x_prod_rest(s, q2, Expr::Div(Box::new(l), Box::new(x)))
            },
        }
    } else {
        Ok((l, r))
    }
}

fn x_atom(s: &[char], p: usize) -> (r: XE)
    requires
        p <= s@.len(),
    ensures
        xe(r) == e_atom(s@, p as int),
        r matches Ok((_, e)) ==> e <= s@.len(),
    decreases s.len() - p, 2nat,
{
    let r = x_skip_ws(s, p);
    proof {
        lemma_run_ends(s@, p as int);
        lemma_run_ends(s@, r as int);
        lemma_digit_run(s@, r as int);
        reveal_strlit("IF");
        reveal_strlit("min");
        reveal_strlit("max");
    }
    if x_char_at(s, r, '(') {
        match x_sum(s, r + 1) {
            Err(e) => Err(e),
            Ok((e, q)) => if q < r + 1 || q > s.len() {
                fail("no progress", q)
            } else {
                let t = x_skip_ws(s, q);
                if x_char_at(s, t, ')') { Ok((e, t + 1)) } else { fail("expected ')'", t) }
            },
        }
    } else if x_char_at(s, r, '-') {
        match x_atom(s, r + 1) {
            Err(e) => Err(e),
            Ok((e, q)) => {
                let z = Expr::Const(0);
                assert(z@ == ExprModel::Const(0));
                Ok((Expr::Sub(Box::new(z), Box::new(e)), q))
            },
        }
    } else {
        let d = x_digits_end(s, r);
        if d > r {
            match x_digits_value(s, r, d) {
                None => fail("integer is out of range", d),
                Some(v) => Ok((Expr::Const(v), d)),
            }
        } else if x_keyword_at(s, r, "IF") {
            x_if(s, r + 2)
        } else if x_keyword_at(s, r, "min") && x_char_at(s, x_skip_ws(s, r + 3), '(') {
            proof { lemma_run_ends(s@, r + 3); }
            x_call(s, x_skip_ws(s, r + 3) + 1, true)
        } else if x_keyword_at(s, r, "max") && x_char_at(s, x_skip_ws(s, r + 3), '(') {
            proof { lemma_run_ends(s@, r + 3); }
            x_call(s, x_skip_ws(s, r + 3) + 1, false)
        } else {
            let i = x_ident_end(s, r);
            if i > r {
                Ok((Expr::Sym(Sym(crate::text::from_char_range(s, r, i))), i))
            } else {
                fail("expected a number, symbol, or parenthesized expression", r)
            }
        }
    }
}

fn x_call(s: &[char], p: usize, is_min: bool) -> (r: XE)
    requires
        p <= s@.len(),
    ensures
        xe(r) == e_call(s@, p as int, is_min),
        r matches Ok((_, e)) ==> e <= s@.len(),
    decreases s.len() - p, 7nat,
{
    match x_sum(s, p) {
        Err(e) => Err(e),
        Ok((a, q)) => if q < p || q > s.len() {
            fail("no progress", q)
        } else {
            let c = x_skip_ws(s, q);
            proof { lemma_run_ends(s@, q as int); }
            if !x_char_at(s, c, ',') {
                fail("expected ','", c)
            } else {
                match x_sum(s, c + 1) {
                    Err(e) => Err(e),
                    Ok((b, q2)) => if q2 < c + 1 || q2 > s.len() {
                        fail("no progress", q2)
                    } else {
                        let t = x_skip_ws(s, q2);
                        if !x_char_at(s, t, ')') {
                            fail("expected ')'", t)
                        } else if is_min {
                            Ok((Expr::Min(Box::new(a), Box::new(b)), t + 1))
                        } else {
                            Ok((Expr::Max(Box::new(a), Box::new(b)), t + 1))
                        }
                    },
                }
            }
        },
    }
}

fn x_if(s: &[char], p: usize) -> (r: XE)
    requires
        p <= s@.len(),
    ensures
        xe(r) == e_if(s@, p as int),
        r matches Ok((_, e)) ==> e <= s@.len(),
    decreases s.len() - p, 1nat,
{
    let r = x_skip_ws(s, p);
    proof { lemma_run_ends(s@, p as int); }
    if !x_char_at(s, r, '(') {
        return fail("expected '(' after IF", r);
    }
    match x_or(s, r + 1) {
        Err(e) => Err(e),
        Ok((c, q)) => if q < r + 1 || q > s.len() {
            fail("no progress", q)
        } else {
            let t = x_skip_ws(s, q);
            proof { lemma_run_ends(s@, q as int); }
            if !x_char_at(s, t, ')') {
                return fail("expected ')'", t);
            }
            let u = x_skip_ws(s, t + 1);
            proof { lemma_run_ends(s@, t + 1); }
            if !x_char_at(s, u, '{') {
                return fail("expected '{'", u);
            }
            match x_sum(s, u + 1) {
                Err(e) => Err(e),
                Ok((a, q2)) => if q2 < u + 1 || q2 > s.len() {
                    fail("no progress", q2)
                } else {
                    x_else(s, q2, c, a)
                },
            }
        },
    }
}

fn x_else(s: &[char], q: usize, c: ConstraintExpr, a: Expr) -> (r: XE)
    requires
        q <= s@.len(),
    ensures
        xe(r) == e_else(s@, q as int, c@, a@),
        r matches Ok((_, e)) ==> e <= s@.len(),
    decreases s.len() - q, 0nat,
{
    let v = x_skip_ws(s, q);
    proof { lemma_run_ends(s@, q as int); reveal_strlit("ELSE"); }
    if !x_char_at(s, v, '}') {
        return fail("expected '}'", v);
    }
    let w = x_skip_ws(s, v + 1);
    proof { lemma_run_ends(s@, v + 1); }
    if !x_keyword_at(s, w, "ELSE") {
        return fail("expected ELSE", w);
    }
    let x = x_skip_ws(s, w + 4);
    proof { lemma_run_ends(s@, w + 4); }
    if !x_char_at(s, x, '{') {
        return fail("expected '{'", x);
    }
    match x_sum(s, x + 1) {
        Err(e) => Err(e),
        Ok((b, q3)) => if q3 < x + 1 || q3 > s.len() {
            fail("no progress", q3)
        } else {
            let y = x_skip_ws(s, q3);
            if !x_char_at(s, y, '}') {
                fail("expected '}'", y)
            } else {
                Ok((Expr::IfElse { cond: Box::new(c), then_expr: Box::new(a), else_expr: Box::new(b) }, y + 1))
            }
        },
    }
}

fn x_chain(acc: Vec<ConstraintExpr>, is_and: bool) -> (r: ConstraintExpr)
    requires
        acc@.len() >= 1,
    ensures
        r@ == chain(constraints_model(acc@), is_and),
{
    proof { lemma_constraints_model_len(acc@); }
    if acc.len() == 1 {
        let mut acc = acc;
        let ghost a0 = acc@[0];
        let x = acc.remove(0);
        x
    } else if is_and {
        ConstraintExpr::And(acc)
    } else {
        ConstraintExpr::Or(acc)
    }
}

fn x_or(s: &[char], p: usize) -> (r: XC)
    requires
        p <= s@.len(),
    ensures
        xc(r) == c_or(s@, p as int),
        r matches Ok((_, e)) ==> e <= s@.len(),
    decreases s.len() - p, 12nat,
{
    match x_and(s, p) {
        Err(e) => Err(e),
        Ok((u, q)) => if q < p || q > s.len() {
            fail("no progress", q)
        } else {
            let mut acc: Vec<ConstraintExpr> = Vec::new();
            let ghost u_model = u@;
            acc.push(u);
            proof {
                lemma_constraints_model_push(Seq::empty(), acc@[0]);
                assert(acc@ =~= Seq::<ConstraintExpr>::empty().push(acc@[0]));
                assert(constraints_model(Seq::<ConstraintExpr>::empty()) =~= Seq::<ConstraintModel>::empty());
                assert(constraints_model(acc@) =~= seq![u_model]);
            }
            x_or_rest(s, q, acc)
        },
    }
}

fn x_or_rest(s: &[char], q: usize, acc: Vec<ConstraintExpr>) -> (r: XC)
    requires
        q <= s@.len(),
        acc@.len() >= 1,
    ensures
        xc(r) == c_or_rest(s@, q as int, constraints_model(acc@)),
        r matches Ok((_, e)) ==> e <= s@.len(),
    decreases s.len() - q, 11nat,
{
    let r = x_skip_ws(s, q);
    proof { lemma_run_ends(s@, q as int); lemma_constraints_model_len(acc@); }
    if x_char_at(s, r, '|') && x_char_at(s, r + 1, '|') {
        match x_and(s, r + 2) {
            Err(e) => Err(e),
            Ok((u, q2)) => if q2 < q + 1 || q2 > s.len() {
                fail("no progress", q2)
            } else {
                let mut acc = acc;
                let ghost before = acc@;
                acc.push(u);
                proof { lemma_constraints_model_push(before, acc@.last()); assert(acc@ =~= before.push(acc@.last())); }
                x_or_rest(s, q2, acc)
            },
        }
    } else {
        Ok((x_chain(acc, false), r))
    }
}

fn x_and(s: &[char], p: usize) -> (r: XC)
    requires
        p <= s@.len(),
    ensures
        xc(r) == c_and(s@, p as int),
        r matches Ok((_, e)) ==> e <= s@.len(),
    decreases s.len() - p, 10nat,
{
    match x_unary(s, p) {
        Err(e) => Err(e),
        Ok((u, q)) => if q < p || q > s.len() {
            fail("no progress", q)
        } else {
            let mut acc: Vec<ConstraintExpr> = Vec::new();
            let ghost u_model = u@;
            acc.push(u);
            proof {
                lemma_constraints_model_push(Seq::empty(), acc@[0]);
                assert(acc@ =~= Seq::<ConstraintExpr>::empty().push(acc@[0]));
                assert(constraints_model(Seq::<ConstraintExpr>::empty()) =~= Seq::<ConstraintModel>::empty());
                assert(constraints_model(acc@) =~= seq![u_model]);
            }
            x_and_rest(s, q, acc)
        },
    }
}

fn x_and_rest(s: &[char], q: usize, acc: Vec<ConstraintExpr>) -> (r: XC)
    requires
        q <= s@.len(),
        acc@.len() >= 1,
    ensures
        xc(r) == c_and_rest(s@, q as int, constraints_model(acc@)),
        r matches Ok((_, e)) ==> e <= s@.len(),
    decreases s.len() - q, 9nat,
{
    let r = x_skip_ws(s, q);
    proof { lemma_run_ends(s@, q as int); lemma_constraints_model_len(acc@); }
    if x_char_at(s, r, '&') && x_char_at(s, r + 1, '&') {
        match x_unary(s, r + 2) {
            Err(e) => Err(e),
            Ok((u, q2)) => if q2 < q + 1 || q2 > s.len() {
                fail("no progress", q2)
            } else {
                let mut acc = acc;
                let ghost before = acc@;
                acc.push(u);
                proof { lemma_constraints_model_push(before, acc@.last()); assert(acc@ =~= before.push(acc@.last())); }
                x_and_rest(s, q2, acc)
            },
        }
    } else {
        Ok((x_chain(acc, true), r))
    }
}

fn x_unary(s: &[char], p: usize) -> (r: XC)
    requires
        p <= s@.len(),
    ensures
        xc(r) == c_unary(s@, p as int),
        r matches Ok((_, e)) ==> e <= s@.len(),
    decreases s.len() - p, 8nat,
{
    let r = x_skip_ws(s, p);
    proof {
        lemma_run_ends(s@, p as int);
        reveal_strlit("true");
        reveal_strlit("false");
        reveal_strlit("divisible");
    }
    if x_char_at(s, r, '!') && !x_char_at(s, r + 1, '=') {
        match x_unary(s, r + 1) {
            Err(e) => Err(e),
            Ok((u, q)) => Ok((ConstraintExpr::Not(Box::new(u)), q)),
        }
    } else if x_keyword_at(s, r, "true") {
        Ok((ConstraintExpr::True, r + 4))
    } else if x_keyword_at(s, r, "false") {
        Ok((ConstraintExpr::False, r + 5))
    } else if x_keyword_at(s, r, "divisible") && x_char_at(s, x_skip_ws(s, r + 9), '(') {
        proof { lemma_run_ends(s@, r + 9); }
        x_divisible(s, x_skip_ws(s, r + 9) + 1)
    } else {
        match x_rel(s, r) {
            Ok(x) => Ok(x),
            Err(e) => if x_char_at(s, r, '(') { x_group(s, r + 1) } else { Err(e) },
        }
    }
}

fn x_group(s: &[char], p: usize) -> (r: XC)
    requires
        p <= s@.len(),
    ensures
        xc(r) == c_group(s@, p as int),
        r matches Ok((_, e)) ==> e <= s@.len(),
    decreases s.len() - p, 13nat,
{
    match x_or(s, p) {
        Err(e) => Err(e),
        Ok((c, q)) => if q < p || q > s.len() {
            fail("no progress", q)
        } else {
            let t = x_skip_ws(s, q);
            if x_char_at(s, t, ')') { Ok((c, t + 1)) } else { fail("expected ')'", t) }
        },
    }
}

fn x_divisible(s: &[char], p: usize) -> (r: XC)
    requires
        p <= s@.len(),
    ensures
        xc(r) == c_divisible(s@, p as int),
        r matches Ok((_, e)) ==> e <= s@.len(),
    decreases s.len() - p, 8nat,
{
    match x_call(s, p, true) {
        Err(e) => Err(e),
        Ok((Expr::Min(a, b), q)) => Ok((ConstraintExpr::Divisible { x: *a, by: *b }, q)),
        Ok((_, q)) => fail("expected divisible arguments", q),
    }
}

fn x_rel_op(s: &[char], r: usize) -> (o: Option<(u8, usize)>)
    ensures
        match o {
            Some((k, n)) => rel_op(s@, r as int) == Some((k as int, n as int)) && 1 <= n <= 2,
            None => rel_op(s@, r as int) is None,
        },
{
    let n1 = r < s.len() && x_char_at(s, r + 1, '=');
    if x_char_at(s, r, '>') && n1 {
        Some((0, 2))
    } else if x_char_at(s, r, '<') && n1 {
        Some((1, 2))
    } else if x_char_at(s, r, '=') && n1 {
        Some((2, 2))
    } else if x_char_at(s, r, '!') && n1 {
        Some((3, 2))
    } else if x_char_at(s, r, '>') {
        Some((4, 1))
    } else if x_char_at(s, r, '<') {
        Some((5, 1))
    } else {
        None
    }
}

fn x_make_rel(kind: u8, a: Expr, b: Expr) -> (r: ConstraintExpr)
    ensures
        r@ == make_rel(kind as int, a@, b@),
{
    if kind == 0 {
        ConstraintExpr::Ge(a, b)
    } else if kind == 1 {
        ConstraintExpr::Le(a, b)
    } else if kind == 2 {
        ConstraintExpr::Eq(a, b)
    } else if kind == 3 {
        ConstraintExpr::Ne(a, b)
    } else if kind == 4 {
        ConstraintExpr::Gt(a, b)
    } else {
        ConstraintExpr::Lt(a, b)
    }
}

fn x_rel(s: &[char], p: usize) -> (r: XC)
    requires
        p <= s@.len(),
    ensures
        xc(r) == c_rel(s@, p as int),
        r matches Ok((_, e)) ==> e <= s@.len(),
    decreases s.len() - p, 7nat,
{
    match x_sum(s, p) {
        Err(e) => Err(e),
        Ok((a, q)) => if q < p || q > s.len() {
            fail("no progress", q)
        } else {
            let r = x_skip_ws(s, q);
            proof { lemma_run_ends(s@, q as int); }
            match x_rel_op(s, r) {
                None => fail("expected a comparison operator", r),
                Some((kind, len)) => {
                    if r + len > s.len() {
                        return fail("position out of range", r + len);
                    }
                    match x_sum(s, r + len) {
                        Err(e) => Err(e),
                        Ok((b, q2)) => Ok((x_make_rel(kind, a, b), q2)),
                    }
                },
            }
        },
    }
}

/// Parses the whole text as an expression.
pub fn parse_expr(input: &str) -> (r: Result<Expr, ParseError>)
    ensures
        match r {
            Ok(e) => expr_text(input@) == Ok::<ExprModel, (Seq<char>, int)>(e@),
            Err(err) => expr_text(input@) == Err::<ExprModel, (Seq<char>, int)>((err.message@, err.position as int)),
        },
{
    let cs = crate::text::chars_of(input);
    let s = cs.as_slice();
    match x_sum(s, 0) {
        Err((message, position)) => Err(ParseError { message, position }),
        Ok((e, q)) => {
            let t = x_skip_ws(s, q);
            if t == s.len() {
                Ok(e)
            } else {
                Err(ParseError { message: crate::text::owned("unexpected trailing input"), position: t })
            }
        },
    }
}

/// Parses the whole text as a constraint.
pub fn parse_constraint(input: &str) -> (r: Result<ConstraintExpr, ParseError>)
    ensures
        match r {
            Ok(c) => constraint_text(input@) == Ok::<ConstraintModel, (Seq<char>, int)>(c@),
            Err(err) => constraint_text(input@) == Err::<ConstraintModel, (Seq<char>, int)>((err.message@, err.position as int)),
        },
{
    let cs = crate::text::chars_of(input);
    let s = cs.as_slice();
    match x_or(s, 0) {
        Err((message, position)) => Err(ParseError { message, position }),
        Ok((c, q)) => {
            let t = x_skip_ws(s, q);
            if t == s.len() {
                Ok(c)
            } else {
                Err(ParseError { message: crate::text::owned("unexpected trailing input"), position: t })
            }
        },
    }
}

impl Expr {
    /// Parses an expression such as `min(M * N / 64, 1024)`.
    pub fn parse(input: &str) -> (r: Result<Expr, ParseError>)
        ensures
            match r {
                Ok(e) => expr_text(input@) == Ok::<ExprModel, (Seq<char>, int)>(e@),
                Err(err) => expr_text(input@) == Err::<ExprModel, (Seq<char>, int)>((err.message@, err.position as int)),
            },
    {
        parse_expr(input)
    }
}

impl ConstraintExpr {
    /// Parses a constraint such as `M >= 128 && divisible(N, 16)`.
    pub fn parse(input: &str) -> (r: Result<ConstraintExpr, ParseError>)
        ensures
            match r {
                Ok(c) => constraint_text(input@) == Ok::<ConstraintModel, (Seq<char>, int)>(c@),
                Err(err) => constraint_text(input@) == Err::<ConstraintModel, (Seq<char>, int)>((err.message@, err.position as int)),
            },
    {
        parse_constraint(input)
    }
}

// ---------------------------------------------------------------------------
// Laws

proof fn lemma_digits_end_at(s: Seq<char>, p: int, e: int)
    requires
        0 <= p <= e <= s.len(),
        forall|k: int| p <= k < e ==> crate::text::is_digit(#[trigger] s[k]),
        e == s.len() || !crate::text::is_digit(s[e]),
    ensures
        digits_end(s, p) == e,
    decreases e - p,
{
    if p < e {
        lemma_digits_end_at(s, p + 1, e);
    }
}

proof fn lemma_digits_value_shift(s: Seq<char>, b: Seq<char>, off: int, m: int)
    requires
        0 <= off,
        0 <= m <= b.len(),
        off + b.len() <= s.len(),
        forall|k: int| 0 <= k < b.len() ==> s[off + k] == #[trigger] b[k],
    ensures
        digits_value(s, off, off + m) == digits_value(b, 0, m),
    decreases m,
{
    if m > 0 {
        lemma_digits_value_shift(s, b, off, m - 1);
        assert(s[off + m - 1] == b[m - 1]);
    }
}

/// A number: one or more decimal digits whose value fits in `i64`.
pub open spec fn numeral(a: Seq<char>) -> bool {
    &&& a.len() > 0
    &&& forall|k: int| 0 <= k < a.len() ==> crate::text::is_digit(#[trigger] a[k])
    &&& digits_value(a, 0, a.len() as int) <= i64::MAX
}

/// The text `a-b` of two numbers is their difference: the number left of `-` is the
/// minuend, the one right of it the subtrahend, and the expression evaluates to `a - b`.
pub proof fn law_parse_difference(a: Seq<char>, b: Seq<char>)
    requires
        numeral(a),
        numeral(b),
    ensures
        expr_text(a.push('-') + b) == Ok::<ExprModel, (Seq<char>, int)>(ExprModel::Sub(
            Box::new(ExprModel::Const(digits_value(a, 0, a.len() as int))),
            Box::new(ExprModel::Const(digits_value(b, 0, b.len() as int))),
        )),
        crate::math::expr::eval(ExprModel::Sub(
            Box::new(ExprModel::Const(digits_value(a, 0, a.len() as int))),
            Box::new(ExprModel::Const(digits_value(b, 0, b.len() as int))),
        )) == Some(digits_value(a, 0, a.len() as int) - digits_value(b, 0, b.len() as int)),
{
    let s = a.push('-') + b;
    let n1 = a.len() as int;
    let n = s.len() as int;
    let va = digits_value(a, 0, n1);
    let vb = digits_value(b, 0, b.len() as int);
    assert(n == n1 + 1 + b.len());
    assert forall|k: int| 0 <= k < n1 implies s[0 + k] == #[trigger] a[k] by {}
    assert(s[n1] == '-');
    assert forall|k: int| 0 <= k < b.len() implies s[n1 + 1 + k] == #[trigger] b[k] by {}
    assert forall|k: int| 0 <= k < n1 implies crate::text::is_digit(#[trigger] s[k]) by { assert(s[k] == a[k]); }
    assert forall|k: int| n1 + 1 <= k < n implies crate::text::is_digit(#[trigger] s[k]) by {
        assert(s[k] == b[k - n1 - 1]);
    }
    lemma_digits_end_at(s, 0, n1);
    lemma_digits_end_at(s, n1 + 1, n);
    lemma_digits_value_shift(s, a, 0, n1);
    lemma_digits_value_shift(s, b, n1 + 1, b.len() as int);
    assert(digits_value(s, 0, n1) == va);
    assert(digits_value(s, n1 + 1, n) == vb);
    // the first number
    assert(skip_ws(s, 0) == 0);
    assert(e_atom(s, 0) == Ok::<(ExprModel, int), (Seq<char>, int)>((ExprModel::Const(va), n1)));
    assert(skip_ws(s, n1) == n1);
    assert(e_prod_rest(s, n1, ExprModel::Const(va)) == Ok::<(ExprModel, int), (Seq<char>, int)>((ExprModel::Const(va), n1)));
    assert(e_prod(s, 0) == Ok::<(ExprModel, int), (Seq<char>, int)>((ExprModel::Const(va), n1)));
    // the second number
    assert(skip_ws(s, n1 + 1) == n1 + 1);
    assert(e_atom(s, n1 + 1) == Ok::<(ExprModel, int), (Seq<char>, int)>((ExprModel::Const(vb), n)));
    assert(skip_ws(s, n) == n);
    assert(e_prod_rest(s, n, ExprModel::Const(vb)) == Ok::<(ExprModel, int), (Seq<char>, int)>((ExprModel::Const(vb), n)));
    assert(e_prod(s, n1 + 1) == Ok::<(ExprModel, int), (Seq<char>, int)>((ExprModel::Const(vb), n)));
    let d = ExprModel::Sub(Box::new(ExprModel::Const(va)), Box::new(ExprModel::Const(vb)));
    assert(e_sum_rest(s, n, d) == Ok::<(ExprModel, int), (Seq<char>, int)>((d, n)));
    assert(e_sum_rest(s, n1, ExprModel::Const(va)) == Ok::<(ExprModel, int), (Seq<char>, int)>((d, n)));
    assert(e_sum(s, 0) == Ok::<(ExprModel, int), (Seq<char>, int)>((d, n)));
    assert(crate::math::expr::eval(ExprModel::Const(va)) == Some(va));
    assert(crate::math::expr::eval(ExprModel::Const(vb)) == Some(vb));
}

/// The expression that the operator character `op` makes of two operands.
pub open spec fn binary(op: char, x: ExprModel, y: ExprModel) -> ExprModel {
    if op == '+' {
        ExprModel::Add(Box::new(x), Box::new(y))
    } else if op == '-' {
        ExprModel::Sub(Box::new(x), Box::new(y))
    } else if op == '*' {
        ExprModel::Mul(Box::new(x), Box::new(y))
    } else {
        ExprModel::Div(Box::new(x), Box::new(y))
    }
}

/// The text `a op b` of two numbers, for each of `+ - * /`, is that operator applied with
/// the left number as its first operand and the right number as its second.
pub proof fn law_parse_binary(a: Seq<char>, op: char, b: Seq<char>)
    requires
        numeral(a),
        numeral(b),
        op == '+' || op == '-' || op == '*' || op == '/',
    ensures
        expr_text(a.push(op) + b) == Ok::<ExprModel, (Seq<char>, int)>(binary(op,
            ExprModel::Const(digits_value(a, 0, a.len() as int)),
            ExprModel::Const(digits_value(b, 0, b.len() as int)),
        )),
{
    let s = a.push(op) + b;
    let n1 = a.len() as int;
    let n = s.len() as int;
    let va = digits_value(a, 0, n1);
    let vb = digits_value(b, 0, b.len() as int);
    assert(n == n1 + 1 + b.len());
    assert forall|k: int| 0 <= k < n1 implies s[0 + k] == #[trigger] a[k] by {}
    assert(s[n1] == op);
    assert forall|k: int| 0 <= k < b.len() implies s[n1 + 1 + k] == #[trigger] b[k] by {}
    assert forall|k: int| 0 <= k < n1 implies crate::text::is_digit(#[trigger] s[k]) by { assert(s[k] == a[k]); }
    assert forall|k: int| n1 + 1 <= k < n implies crate::text::is_digit(#[trigger] s[k]) by {
        assert(s[k] == b[k - n1 - 1]);
    }
    lemma_digits_end_at(s, 0, n1);
    lemma_digits_end_at(s, n1 + 1, n);
    lemma_digits_value_shift(s, a, 0, n1);
    lemma_digits_value_shift(s, b, n1 + 1, b.len() as int);
    let ca = ExprModel::Const(va);
    let cb = ExprModel::Const(vb);
    let d = binary(op, ca, cb);
    assert(skip_ws(s, 0) == 0);
    assert(e_atom(s, 0) == Ok::<(ExprModel, int), (Seq<char>, int)>((ca, n1)));
    assert(skip_ws(s, n1) == n1);
    assert(skip_ws(s, n1 + 1) == n1 + 1);
    assert(e_atom(s, n1 + 1) == Ok::<(ExprModel, int), (Seq<char>, int)>((cb, n)));
    assert(skip_ws(s, n) == n);
    assert(e_prod_rest(s, n, cb) == Ok::<(ExprModel, int), (Seq<char>, int)>((cb, n)));
    assert(e_sum_rest(s, n, d) == Ok::<(ExprModel, int), (Seq<char>, int)>((d, n)));
    if op == '+' || op == '-' {
        assert(e_prod_rest(s, n1, ca) == Ok::<(ExprModel, int), (Seq<char>, int)>((ca, n1)));
        assert(e_prod(s, 0) == Ok::<(ExprModel, int), (Seq<char>, int)>((ca, n1)));
        assert(e_prod(s, n1 + 1) == Ok::<(ExprModel, int), (Seq<char>, int)>((cb, n)));
        assert(e_sum_rest(s, n1, ca) == Ok::<(ExprModel, int), (Seq<char>, int)>((d, n)));
    } else {
        assert(e_prod_rest(s, n, d) == Ok::<(ExprModel, int), (Seq<char>, int)>((d, n)));
        assert(e_prod_rest(s, n1, ca) == Ok::<(ExprModel, int), (Seq<char>, int)>((d, n)));
        assert(e_prod(s, 0) == Ok::<(ExprModel, int), (Seq<char>, int)>((d, n)));
    }
    assert(e_sum(s, 0) == Ok::<(ExprModel, int), (Seq<char>, int)>((d, n)));
}

/// A number standing at `p..e` and followed by no operator, space or digit is, as a sum,
/// that constant.
proof fn lemma_number_sum(s: Seq<char>, p: int, e: int)
    requires
        0 <= p < e <= s.len(),
        forall|k: int| p <= k < e ==> crate::text::is_digit(#[trigger] s[k]),
        digits_value(s, p, e) <= i64::MAX,
        e == s.len() || !(crate::text::is_digit(s[e]) || crate::text::is_space(s[e]) || s[e] == '+' || s[e] == '-'
            || s[e] == '*' || s[e] == '/'),
    ensures
        e_sum(s, p) == Ok::<(ExprModel, int), (Seq<char>, int)>((ExprModel::Const(digits_value(s, p, e)), e)),
{
    lemma_digits_end_at(s, p, e);
    let c = ExprModel::Const(digits_value(s, p, e));
    assert(skip_ws(s, p) == p);
    assert(e_atom(s, p) == Ok::<(ExprModel, int), (Seq<char>, int)>((c, e)));
    assert(skip_ws(s, e) == e);
    assert(e_prod_rest(s, e, c) == Ok::<(ExprModel, int), (Seq<char>, int)>((c, e)));
    assert(e_prod(s, p) == Ok::<(ExprModel, int), (Seq<char>, int)>((c, e)));
    assert(e_sum_rest(s, e, c) == Ok::<(ExprModel, int), (Seq<char>, int)>((c, e)));
}

/// One of the comparison operators `>= <= == != > <`.
pub open spec fn comparison_op(op: Seq<char>) -> bool {
    ||| op == seq!['>', '=']
    ||| op == seq!['<', '=']
    ||| op == seq!['=', '=']
    ||| op == seq!['!', '=']
    ||| op == seq!['>']
    ||| op == seq!['<']
}

/// What the comparison `x op y` says of two integers.
pub open spec fn compares(op: Seq<char>, x: int, y: int) -> bool {
    if op == seq!['>', '='] {
        x >= y
    } else if op == seq!['<', '='] {
        x <= y
    } else if op == seq!['=', '='] {
        x == y
    } else if op == seq!['!', '='] {
        x != y
    } else if op == seq!['>'] {
        x > y
    } else {
        x < y
    }
}

proof fn lemma_unary_of_rel(s: Seq<char>)
    requires
        0 < s.len(),
        crate::text::is_digit(s[0]),
        c_rel(s, 0) is Ok,
    ensures
        c_unary(s, 0) == c_rel(s, 0),
{
    reveal_strlit("true");
    reveal_strlit("false");
    reveal_strlit("divisible");
    assert(skip_ws(s, 0) == 0);
    assert(!keyword_at(s, 0, "true"@)) by {
        if 4 <= s.len() { assert(s.subrange(0, 4)[0] == s[0]); }
    }
    assert(!keyword_at(s, 0, "false"@)) by {
        if 5 <= s.len() { assert(s.subrange(0, 5)[0] == s[0]); }
    }
    assert(!keyword_at(s, 0, "divisible"@)) by {
        if 9 <= s.len() { assert(s.subrange(0, 9)[0] == s[0]); }
    }
}

proof fn lemma_constraint_of_unary(s: Seq<char>, u: ConstraintModel)
    requires
        0 < s.len(),
        c_unary(s, 0) == Ok::<(ConstraintModel, int), (Seq<char>, int)>((u, s.len() as int)),
    ensures
        constraint_text(s) == Ok::<ConstraintModel, (Seq<char>, int)>(u),
{
    let n = s.len() as int;
    assert(skip_ws(s, n) == n);
    assert(chain(seq![u], true) == u);
    assert(chain(seq![u], false) == u);
    assert(c_and_rest(s, n, seq![u]) == Ok::<(ConstraintModel, int), (Seq<char>, int)>((u, n)));
    assert(c_and(s, 0) == Ok::<(ConstraintModel, int), (Seq<char>, int)>((u, n)));
    assert(c_or_rest(s, n, seq![u]) == Ok::<(ConstraintModel, int), (Seq<char>, int)>((u, n)));
    assert(c_or(s, 0) == Ok::<(ConstraintModel, int), (Seq<char>, int)>((u, n)));
}

/// The comparison kind that `rel_op` reads for an operator text, and what it says.
proof fn lemma_rel_kind(s: Seq<char>, n1: int, op: Seq<char>, x: int, y: int)
    requires
        comparison_op(op),
        0 <= n1,
        n1 + op.len() < s.len(),
        forall|k: int| 0 <= k < op.len() ==> s[n1 + k] == #[trigger] op[k],
        crate::text::is_digit(s[n1 + op.len()]),
    ensures
        rel_op(s, n1) matches Some((kind, len)) && len == op.len()
            && crate::math::expr::ceval(make_rel(kind, ExprModel::Const(x), ExprModel::Const(y))) == Some(compares(op, x, y)),
{
    assert(s[n1] == op[0]);
    if op.len() == 2 {
        assert(s[n1 + 1] == op[1]);
    }
    assert(crate::math::expr::eval(ExprModel::Const(x)) == Some(x));
    assert(crate::math::expr::eval(ExprModel::Const(y)) == Some(y));
}

proof fn lemma_rel_of_sums(s: Seq<char>, ca: ExprModel, n1: int, kind: int, m: int, cb: ExprModel)
    requires
        0 < n1 < m < s.len(),
        e_sum(s, 0) == Ok::<(ExprModel, int), (Seq<char>, int)>((ca, n1)),
        skip_ws(s, n1) == n1,
        rel_op(s, n1) == Some((kind, m - n1)),
        e_sum(s, m) == Ok::<(ExprModel, int), (Seq<char>, int)>((cb, s.len() as int)),
    ensures
        c_rel(s, 0) == Ok::<(ConstraintModel, int), (Seq<char>, int)>((make_rel(kind, ca, cb), s.len() as int)),
{
}

/// The constraint text `a op b` of two numbers, for each comparison operator, holds
/// exactly when the left number stands in that relation to the right one.
pub proof fn law_parse_comparison(a: Seq<char>, op: Seq<char>, b: Seq<char>)
    requires
        numeral(a),
        numeral(b),
        comparison_op(op),
    ensures
        constraint_text(a + op + b) is Ok,
        crate::math::expr::ceval(constraint_text(a + op + b)->Ok_0)
            == Some(compares(op, digits_value(a, 0, a.len() as int), digits_value(b, 0, b.len() as int))),
{
    let s = a + op + b;
    let n1 = a.len() as int;
    let m = n1 + op.len();
    let n = s.len() as int;
    let va = digits_value(a, 0, n1);
    let vb = digits_value(b, 0, b.len() as int);
    assert(n == m + b.len());
    assert forall|k: int| 0 <= k < n1 implies s[0 + k] == #[trigger] a[k] by {}
    assert forall|k: int| 0 <= k < op.len() implies s[n1 + k] == #[trigger] op[k] by {}
    assert forall|k: int| 0 <= k < b.len() implies s[m + k] == #[trigger] b[k] by {}
    assert forall|k: int| 0 <= k < n1 implies crate::text::is_digit(#[trigger] s[k]) by { assert(s[k] == a[k]); }
    assert forall|k: int| m <= k < n implies crate::text::is_digit(#[trigger] s[k]) by {
        assert(s[k] == b[k - m]);
    }
    lemma_digits_value_shift(s, a, 0, n1);
    lemma_digits_value_shift(s, b, m, b.len() as int);
    assert(s[n1] == op[0]);
    lemma_number_sum(s, 0, n1);
    lemma_number_sum(s, m, n);
    lemma_rel_kind(s, n1, op, va, vb);
    let ca = ExprModel::Const(va);
    let cb = ExprModel::Const(vb);
    assert(skip_ws(s, n1) == n1);
    let (kind, len) = rel_op(s, n1)->Some_0;
    let u = make_rel(kind, ca, cb);
    lemma_rel_of_sums(s, ca, n1, kind, m, cb);
    lemma_unary_of_rel(s);
    lemma_constraint_of_unary(s, u);
}

/// Whether `op` is `*` or `/`, which bind tighter than `+` and `-`.
pub open spec fn multiplicative(op: char) -> bool {
    op == '*' || op == '/'
}

/// One of `+ - * /`.
pub open spec fn arithmetic(op: char) -> bool {
    op == '+' || op == '-' || op == '*' || op == '/'
}

/// The expression `x op1 y op2 z`: `*` and `/` bind tighter than `+` and `-`, and
/// operators of one level group from the left.
pub open spec fn grouped(op1: char, op2: char, x: ExprModel, y: ExprModel, z: ExprModel) -> ExprModel {
    if multiplicative(op2) && !multiplicative(op1) {
        binary(op1, x, binary(op2, y, z))
    } else {
        binary(op2, binary(op1, x, y), z)
    }
}

proof fn lemma_number_atom(s: Seq<char>, p: int, e: int)
    requires
        0 <= p < e <= s.len(),
        forall|k: int| p <= k < e ==> crate::text::is_digit(#[trigger] s[k]),
        digits_value(s, p, e) <= i64::MAX,
        e == s.len() || !crate::text::is_digit(s[e]),
    ensures
        e_atom(s, p) == Ok::<(ExprModel, int), (Seq<char>, int)>((ExprModel::Const(digits_value(s, p, e)), e)),
{
    lemma_digits_end_at(s, p, e);
    assert(skip_ws(s, p) == p);
}

proof fn lemma_at_end(s: Seq<char>, x: ExprModel)
    ensures
        e_prod_rest(s, s.len() as int, x) == Ok::<(ExprModel, int), (Seq<char>, int)>((x, s.len() as int)),
        e_sum_rest(s, s.len() as int, x) == Ok::<(ExprModel, int), (Seq<char>, int)>((x, s.len() as int)),
{
    assert(skip_ws(s, s.len() as int) == s.len());
}

/// Positions of the text `a op1 b op2 c` of three numbers.
pub open spec fn three_ok(s: Seq<char>, e1: int, e2: int, op1: char, op2: char, x: ExprModel, y: ExprModel, z: ExprModel) -> bool {
    &&& 0 < e1 && e1 + 1 < e2 && e2 + 1 < s.len()
    &&& s[e1] == op1 && s[e2] == op2
    &&& e_atom(s, 0) == Ok::<(ExprModel, int), (Seq<char>, int)>((x, e1))
    &&& e_atom(s, e1 + 1) == Ok::<(ExprModel, int), (Seq<char>, int)>((y, e2))
    &&& e_atom(s, e2 + 1) == Ok::<(ExprModel, int), (Seq<char>, int)>((z, s.len() as int))
    &&& arithmetic(op1) && arithmetic(op2)
}

proof fn lemma_three_mm(s: Seq<char>, e1: int, e2: int, op1: char, op2: char, x: ExprModel, y: ExprModel, z: ExprModel)
    requires
        three_ok(s, e1, e2, op1, op2, x, y, z),
        multiplicative(op1),
        multiplicative(op2),
    ensures
        e_sum(s, 0) == Ok::<(ExprModel, int), (Seq<char>, int)>((grouped(op1, op2, x, y, z), s.len() as int)),
{
    let n = s.len() as int;
    let m1 = binary(op1, x, y);
    let t = binary(op2, m1, z);
    lemma_at_end(s, t);
    assert(skip_ws(s, e2) == e2);
    assert(e_prod_rest(s, e2, m1) == Ok::<(ExprModel, int), (Seq<char>, int)>((t, n)));
    assert(skip_ws(s, e1) == e1);
    assert(e_prod_rest(s, e1, x) == Ok::<(ExprModel, int), (Seq<char>, int)>((t, n)));
    assert(e_prod(s, 0) == Ok::<(ExprModel, int), (Seq<char>, int)>((t, n)));
}

proof fn lemma_three_am(s: Seq<char>, e1: int, e2: int, op1: char, op2: char, x: ExprModel, y: ExprModel, z: ExprModel)
    requires
        three_ok(s, e1, e2, op1, op2, x, y, z),
        !multiplicative(op1),
        multiplicative(op2),
    ensures
        e_sum(s, 0) == Ok::<(ExprModel, int), (Seq<char>, int)>((grouped(op1, op2, x, y, z), s.len() as int)),
{
    let n = s.len() as int;
    let m = binary(op2, y, z);
    let t = binary(op1, x, m);
    lemma_at_end(s, m);
    lemma_at_end(s, t);
    assert(skip_ws(s, e1) == e1);
    assert(e_prod_rest(s, e1, x) == Ok::<(ExprModel, int), (Seq<char>, int)>((x, e1)));
    assert(e_prod(s, 0) == Ok::<(ExprModel, int), (Seq<char>, int)>((x, e1)));
    assert(skip_ws(s, e2) == e2);
    assert(e_prod_rest(s, e2, y) == Ok::<(ExprModel, int), (Seq<char>, int)>((m, n)));
    assert(e_prod(s, e1 + 1) == Ok::<(ExprModel, int), (Seq<char>, int)>((m, n)));
    assert(e_sum_rest(s, e1, x) == Ok::<(ExprModel, int), (Seq<char>, int)>((t, n)));
}

proof fn lemma_three_ma(s: Seq<char>, e1: int, e2: int, op1: char, op2: char, x: ExprModel, y: ExprModel, z: ExprModel)
    requires
        three_ok(s, e1, e2, op1, op2, x, y, z),
        multiplicative(op1),
        !multiplicative(op2),
    ensures
        e_sum(s, 0) == Ok::<(ExprModel, int), (Seq<char>, int)>((grouped(op1, op2, x, y, z), s.len() as int)),
{
    let n = s.len() as int;
    let m1 = binary(op1, x, y);
    let t = binary(op2, m1, z);
    lemma_at_end(s, z);
    lemma_at_end(s, t);
    assert(skip_ws(s, e2) == e2);
    assert(e_prod_rest(s, e2, m1) == Ok::<(ExprModel, int), (Seq<char>, int)>((m1, e2)));
    assert(skip_ws(s, e1) == e1);
    assert(e_prod_rest(s, e1, x) == Ok::<(ExprModel, int), (Seq<char>, int)>((m1, e2)));
    assert(e_prod(s, 0) == Ok::<(ExprModel, int), (Seq<char>, int)>((m1, e2)));
    assert(e_prod(s, e2 + 1) == Ok::<(ExprModel, int), (Seq<char>, int)>((z, n)));
    assert(e_sum_rest(s, e2, m1) == Ok::<(ExprModel, int), (Seq<char>, int)>((t, n)));
}

proof fn lemma_three_aa(s: Seq<char>, e1: int, e2: int, op1: char, op2: char, x: ExprModel, y: ExprModel, z: ExprModel)
    requires
        three_ok(s, e1, e2, op1, op2, x, y, z),
        !multiplicative(op1),
        !multiplicative(op2),
    ensures
        e_sum(s, 0) == Ok::<(ExprModel, int), (Seq<char>, int)>((grouped(op1, op2, x, y, z), s.len() as int)),
{
    let n = s.len() as int;
    let s1 = binary(op1, x, y);
    let t = binary(op2, s1, z);
    lemma_at_end(s, z);
    lemma_at_end(s, t);
    assert(skip_ws(s, e1) == e1);
    assert(e_prod_rest(s, e1, x) == Ok::<(ExprModel, int), (Seq<char>, int)>((x, e1)));
    assert(e_prod(s, 0) == Ok::<(ExprModel, int), (Seq<char>, int)>((x, e1)));
    assert(skip_ws(s, e2) == e2);
    assert(e_prod_rest(s, e2, y) == Ok::<(ExprModel, int), (Seq<char>, int)>((y, e2)));
    assert(e_prod(s, e1 + 1) == Ok::<(ExprModel, int), (Seq<char>, int)>((y, e2)));
    assert(e_prod(s, e2 + 1) == Ok::<(ExprModel, int), (Seq<char>, int)>((z, n)));
    assert(e_sum_rest(s, e2, s1) == Ok::<(ExprModel, int), (Seq<char>, int)>((t, n)));
    assert(e_sum_rest(s, e1, x) == Ok::<(ExprModel, int), (Seq<char>, int)>((t, n)));
}

/// The text `a op1 b op2 c` of three numbers groups as arithmetic does: `*` and `/` bind
/// tighter than `+` and `-`, operators of one level group from the left, and each number
/// keeps its place as an operand.
pub proof fn law_parse_grouping(a: Seq<char>, op1: char, b: Seq<char>, op2: char, c: Seq<char>)
    requires
        numeral(a),
        numeral(b),
        numeral(c),
        arithmetic(op1),
        arithmetic(op2),
    ensures
        expr_text(a.push(op1) + b.push(op2) + c) == Ok::<ExprModel, (Seq<char>, int)>(grouped(op1, op2,
            ExprModel::Const(digits_value(a, 0, a.len() as int)),
            ExprModel::Const(digits_value(b, 0, b.len() as int)),
            ExprModel::Const(digits_value(c, 0, c.len() as int)),
        )),
{
    let s = a.push(op1) + b.push(op2) + c;
    let e1 = a.len() as int;
    let e2 = e1 + 1 + b.len();
    let n = s.len() as int;
    assert(n == e2 + 1 + c.len());
    assert forall|k: int| 0 <= k < a.len() implies s[0 + k] == #[trigger] a[k] by {}
    assert forall|k: int| 0 <= k < b.len() implies s[e1 + 1 + k] == #[trigger] b[k] by {}
    assert forall|k: int| 0 <= k < c.len() implies s[e2 + 1 + k] == #[trigger] c[k] by {}
    assert(s[e1] == op1);
    assert(s[e2] == op2);
    assert forall|k: int| 0 <= k < e1 implies crate::text::is_digit(#[trigger] s[k]) by { assert(s[k] == a[k]); }
    assert forall|k: int| e1 + 1 <= k < e2 implies crate::text::is_digit(#[trigger] s[k]) by { assert(s[k] == b[k - e1 - 1]); }
    assert forall|k: int| e2 + 1 <= k < n implies crate::text::is_digit(#[trigger] s[k]) by { assert(s[k] == c[k - e2 - 1]); }
    lemma_digits_value_shift(s, a, 0, a.len() as int);
    lemma_digits_value_shift(s, b, e1 + 1, b.len() as int);
    lemma_digits_value_shift(s, c, e2 + 1, c.len() as int);
    lemma_number_atom(s, 0, e1);
    lemma_number_atom(s, e1 + 1, e2);
    lemma_number_atom(s, e2 + 1, n);
    let x = ExprModel::Const(digits_value(a, 0, a.len() as int));
    let y = ExprModel::Const(digits_value(b, 0, b.len() as int));
    let z = ExprModel::Const(digits_value(c, 0, c.len() as int));
    assert(three_ok(s, e1, e2, op1, op2, x, y, z));
    if multiplicative(op1) && multiplicative(op2) {
        lemma_three_mm(s, e1, e2, op1, op2, x, y, z);
    } else if multiplicative(op2) {
        lemma_three_am(s, e1, e2, op1, op2, x, y, z);
    } else if multiplicative(op1) {
        lemma_three_ma(s, e1, e2, op1, op2, x, y, z);
    } else {
        lemma_three_aa(s, e1, e2, op1, op2, x, y, z);
    }
    assert(skip_ws(s, n) == n);
}

} // verus!
