//! Evaluation of constant expressions that reports an overflow of `i64` instead of
//! assuming there is none.
use vstd::prelude::*;

use super::expr::{
    ExprModel, abs_int, ceval, ceval_and, ceval_or, cfits, cfits_list, constraint_model, constraints_model,
    eval, fits, in_i64, lemma_constraints_model_len, opt_int, trunc_div, ConstraintExpr,
    ConstraintModel, Expr,
};

verus! {

fn add_checked(x: i64, y: i64) -> (r: Result<i64, ()>)
    ensures
        match r {
            Ok(v) => v == x + y,
            Err(_) => !in_i64(x + y),
        },
{
    match x.checked_add(y) {
        Some(v) => Ok(v),
        None => Err(()),
    }
}

fn sub_checked(x: i64, y: i64) -> (r: Result<i64, ()>)
    ensures
        match r {
            Ok(v) => v == x - y,
            Err(_) => !in_i64(x - y),
        },
{
    match x.checked_sub(y) {
        Some(v) => Ok(v),
        None => Err(()),
    }
}

fn mul_checked(x: i64, y: i64) -> (r: Result<i64, ()>)
    ensures
        match r {
            Ok(v) => v == x * y,
            Err(_) => !in_i64(x * y),
        },
{
    match x.checked_mul(y) {
        Some(v) => Ok(v),
        None => Err(()),
    }
}

fn div_checked(x: i64, d: i64) -> (r: Result<i64, ()>)
    requires
        d != 0,
    ensures
        match r {
            Ok(v) => v == trunc_div(x as int, d as int),
            Err(_) => !in_i64(trunc_div(x as int, d as int)),
        },
{
    let a: i128 = if x < 0 { -(x as i128) } else { x as i128 };
    let b: i128 = if d < 0 { -(d as i128) } else { d as i128 };
    let q: i128 = a / b;
    let r: i128 = if (x < 0) != (d < 0) { -q } else { q };
    if r < i64::MIN as i128 || r > i64::MAX as i128 {
        Err(())
    } else {
        Ok(r as i64)
    }
}

/// The value of a constant expression; `Err` where a step of its evaluation leaves `i64`.
pub fn checked_eval(e: &Expr) -> (r: Result<Option<i64>, ()>)
    ensures
        match r {
            Ok(v) => fits(e@) && opt_int(v) == eval(e@),
            Err(_) => !fits(e@),
        },
    decreases e@, 1nat,
{
    match e {
        Expr::Const(v) => Ok(Some(*v)),
        Expr::Sym(_) => Ok(None),
        Expr::Add(a, b) | Expr::Sub(a, b) | Expr::Mul(a, b) => {
            let x = match checked_eval(a)? { Some(x) => x, None => { return Ok(None); } };
            let y = match checked_eval(b)? { Some(y) => y, None => { return Ok(None); } };
            let v = match e {
                Expr::Add(_, _) => add_checked(x, y)?,
                Expr::Sub(_, _) => sub_checked(x, y)?,
                _ => mul_checked(x, y)?,
            };
            Ok(Some(v))
        },
        Expr::Div(a, b) => {
            let d = match checked_eval(b)? { Some(d) => d, None => { return Ok(None); } };
            if d == 0 {
                return Ok(None);
            }
            let x = match checked_eval(a)? { Some(x) => x, None => { return Ok(None); } };
            Ok(Some(div_checked(x, d)?))
        },
        Expr::Min(a, b) | Expr::Max(a, b) => {
            let x = match checked_eval(a)? { Some(x) => x, None => { return Ok(None); } };
            let y = match checked_eval(b)? { Some(y) => y, None => { return Ok(None); } };
            let is_min = match e { Expr::Min(_, _) => true, _ => false };
            if is_min {
                Ok(Some(if x <= y { x } else { y }))
            } else {
                Ok(Some(if x >= y { x } else { y }))
            }
        },
        Expr::IfElse { cond, then_expr, else_expr } => {
            match checked_ceval(cond)? {
                None => Ok(None),
                Some(true) => checked_eval(then_expr),
                Some(false) => checked_eval(else_expr),
            }
        },
    }
}

/// The truth of a constant constraint; `Err` where a step of its evaluation leaves `i64`.
pub fn checked_ceval(c: &ConstraintExpr) -> (r: Result<Option<bool>, ()>)
    ensures
        match r {
            Ok(v) => cfits(c@) && v == ceval(c@),
            Err(_) => !cfits(c@),
        },
    decreases c@, 1nat,
{
    match c {
        ConstraintExpr::True => Ok(Some(true)),
        ConstraintExpr::False => Ok(Some(false)),
        ConstraintExpr::And(v) => checked_list(v, true, Ghost(c@)),
        ConstraintExpr::Or(v) => checked_list(v, false, Ghost(c@)),
        ConstraintExpr::Not(a) => {
            match checked_ceval(a)? {
                Some(b) => Ok(Some(!b)),
                None => Ok(None),
            }
        },
        ConstraintExpr::Eq(a, b) | ConstraintExpr::Ne(a, b) | ConstraintExpr::Lt(a, b)
        | ConstraintExpr::Le(a, b) | ConstraintExpr::Gt(a, b) | ConstraintExpr::Ge(a, b) => {
            let x = match checked_eval(a)? { Some(x) => x, None => { return Ok(None); } };
            let y = match checked_eval(b)? { Some(y) => y, None => { return Ok(None); } };
            let t = match c {
                ConstraintExpr::Eq(_, _) => x == y,
                ConstraintExpr::Ne(_, _) => x != y,
                ConstraintExpr::Lt(_, _) => x < y,
                ConstraintExpr::Le(_, _) => x <= y,
                ConstraintExpr::Gt(_, _) => x > y,
                _ => x >= y,
            };
            Ok(Some(t))
        },
        ConstraintExpr::Divisible { x, by } => {
            let v = match checked_eval(x)? { Some(v) => v, None => { return Ok(None); } };
            let d = match checked_eval(by)? { Some(d) => d, None => { return Ok(None); } };
            if d == 0 {
                Ok(None)
            } else {
                let a: i128 = if v < 0 { -(v as i128) } else { v as i128 };
                let b: i128 = if d < 0 { -(d as i128) } else { d as i128 };
                Ok(Some(a % b == 0))
            }
        },
    }
}

fn checked_list(v: &Vec<ConstraintExpr>, conj: bool, Ghost(outer): Ghost<ConstraintModel>) -> (r: Result<Option<bool>, ()>)
    requires
        outer == (if conj { ConstraintModel::And(constraints_model(v@)) } else { ConstraintModel::Or(constraints_model(v@)) }),
    ensures
        match r {
            Ok(b) => cfits_list(constraints_model(v@))
                && b == (if conj { ceval_and(constraints_model(v@)) } else { ceval_or(constraints_model(v@)) }),
            Err(_) => !cfits_list(constraints_model(v@)),
        },
    decreases outer, 0nat,
{
    let ghost m = constraints_model(v@);
    proof { lemma_constraints_model_len(v@); }
    let mut acc: bool = conj;
    let mut i: usize = 0;
    proof { assert(m.subrange(0, m.len() as int) =~= m); }
    while i < v.len()
        invariant
            i <= v.len(),
            m == constraints_model(v@),
            m.len() == v@.len(),
            forall|j: int| 0 <= j < v@.len() ==> #[trigger] m[j] == constraint_model(v@[j]),
            outer == (if conj { ConstraintModel::And(m) } else { ConstraintModel::Or(m) }),
            cfits_list(m) == cfits_list(m.subrange(i as int, m.len() as int)),
            cfits_list(m.subrange(i as int, m.len() as int)) ==>
                (if conj { ceval_and(m) } else { ceval_or(m) }) == (match (if conj { ceval_and(m.subrange(i as int, m.len() as int)) } else { ceval_or(m.subrange(i as int, m.len() as int)) }) {
                    None => None,
                    Some(b) => Some(if conj { acc && b } else { acc || b }),
                }),
        decreases v.len() - i,
    {
        let ghost rest = m.subrange(i as int, m.len() as int);
        proof {
            assert(rest[0] == m[i as int]);
            assert(rest.subrange(1, rest.len() as int) =~= m.subrange(i + 1, m.len() as int));
            if conj {
                assert(decreases_to!(outer => outer->And_0));
            } else {
                assert(decreases_to!(outer => outer->Or_0));
            }
            assert(decreases_to!(m => m[i as int]));
        }
        match checked_ceval(&v[i])? {
            None => { return Ok(None); },
            Some(b) => {
                acc = if conj { acc && b } else { acc || b };
            },
        }
        i += 1;
    }
    proof {
        assert(m.subrange(v.len() as int, m.len() as int) =~= Seq::<ConstraintModel>::empty());
    }
    Ok(Some(acc))
}

// ---------------------------------------------------------------------------
// The first symbol outside a declared list

/// The first symbol of `e`, left to right, that `declared` does not hold.
pub open spec fn first_undeclared(e: ExprModel, declared: Seq<Seq<char>>) -> Option<Seq<char>>
    decreases e,
{
    match e {
        ExprModel::Const(_) => None,
        ExprModel::Sym(n) => if declared.contains(n) { None } else { Some(n) },
        ExprModel::Add(a, b) | ExprModel::Sub(a, b) | ExprModel::Mul(a, b) | ExprModel::Div(a, b)
        | ExprModel::Min(a, b) | ExprModel::Max(a, b) => match first_undeclared(*a, declared) {
            Some(n) => Some(n),
            None => first_undeclared(*b, declared),
        },
        ExprModel::IfElse(c, t, f) => match cfirst_undeclared(*c, declared) {
            Some(n) => Some(n),
            None => match first_undeclared(*t, declared) {
                Some(n) => Some(n),
                None => first_undeclared(*f, declared),
            },
        },
    }
}

pub open spec fn cfirst_undeclared(c: ConstraintModel, declared: Seq<Seq<char>>) -> Option<Seq<char>>
    decreases c,
{
    match c {
        ConstraintModel::True | ConstraintModel::False => None,
        ConstraintModel::And(s) | ConstraintModel::Or(s) => lfirst_undeclared(s, declared),
        ConstraintModel::Not(a) => cfirst_undeclared(*a, declared),
        ConstraintModel::Eq(a, b) | ConstraintModel::Ne(a, b) | ConstraintModel::Lt(a, b)
        | ConstraintModel::Le(a, b) | ConstraintModel::Gt(a, b) | ConstraintModel::Ge(a, b)
        | ConstraintModel::Divisible(a, b) => match first_undeclared(a, declared) {
            Some(n) => Some(n),
            None => first_undeclared(b, declared),
        },
    }
}

pub open spec fn lfirst_undeclared(s: Seq<ConstraintModel>, declared: Seq<Seq<char>>) -> Option<Seq<char>>
    decreases s,
{
    if s.len() == 0 {
        None
    } else {
        match cfirst_undeclared(s[0], declared) {
            Some(n) => Some(n),
            None => lfirst_undeclared(s.subrange(1, s.len() as int), declared),
        }
    }
}

pub fn contains_text(declared: &[String], n: &str) -> (r: bool)
    ensures
        r == crate::text::texts(declared@).contains(n@),
{
    let mut i: usize = 0;
    while i < declared.len()
        invariant
            i <= declared@.len(),
            forall|k: int| 0 <= k < i ==> declared@[k]@ != n@,
        decreases declared.len() - i,
    {
        if crate::text::str_eq(declared[i].as_str(), n) {
            proof { assert(crate::text::texts(declared@)[i as int] == n@); }
            return true;
        }
        i += 1;
    }
    proof {
        if crate::text::texts(declared@).contains(n@) {
            let k = choose|k: int| 0 <= k < crate::text::texts(declared@).len() && crate::text::texts(declared@)[k] == n@;
            assert(declared@[k]@ == n@);
        }
    }
    false
}

/// The first symbol of `e` that `declared` does not hold.
pub fn first_undeclared_symbol(e: &Expr, declared: &[String]) -> (r: Option<String>)
    ensures
        match r {
            Some(n) => first_undeclared(e@, crate::text::texts(declared@)) == Some(n@),
            None => first_undeclared(e@, crate::text::texts(declared@)) is None,
        },
    decreases e@, 1nat,
{
    match e {
        Expr::Const(_) => None,
        Expr::Sym(n) => if contains_text(declared, n.0.as_str()) { None } else { Some(n.0.clone()) },
        Expr::Add(a, b) | Expr::Sub(a, b) | Expr::Mul(a, b) | Expr::Div(a, b) | Expr::Min(a, b)
        | Expr::Max(a, b) => {
            match first_undeclared_symbol(a, declared) {
                Some(n) => Some(n),
                None => first_undeclared_symbol(b, declared),
            }
        },
        Expr::IfElse { cond, then_expr, else_expr } => {
            match cfirst_undeclared_symbol(cond, declared) {
                Some(n) => Some(n),
                None => match first_undeclared_symbol(then_expr, declared) {
                    Some(n) => Some(n),
                    None => first_undeclared_symbol(else_expr, declared),
                },
            }
        },
    }
}

fn cfirst_undeclared_symbol(c: &ConstraintExpr, declared: &[String]) -> (r: Option<String>)
    ensures
        match r {
            Some(n) => cfirst_undeclared(c@, crate::text::texts(declared@)) == Some(n@),
            None => cfirst_undeclared(c@, crate::text::texts(declared@)) is None,
        },
    decreases c@, 1nat,
{
    match c {
        ConstraintExpr::True | ConstraintExpr::False => None,
        ConstraintExpr::And(v) => lfirst_undeclared_symbol(v, declared, Ghost(c@)),
        ConstraintExpr::Or(v) => lfirst_undeclared_symbol(v, declared, Ghost(c@)),
        ConstraintExpr::Not(a) => cfirst_undeclared_symbol(a, declared),
        ConstraintExpr::Eq(a, b) | ConstraintExpr::Ne(a, b) | ConstraintExpr::Lt(a, b)
        | ConstraintExpr::Le(a, b) | ConstraintExpr::Gt(a, b) | ConstraintExpr::Ge(a, b) => {
            match first_undeclared_symbol(a, declared) {
                Some(n) => Some(n),
                None => first_undeclared_symbol(b, declared),
            }
        },
        ConstraintExpr::Divisible { x, by } => {
            match first_undeclared_symbol(x, declared) {
                Some(n) => Some(n),
                None => first_undeclared_symbol(by, declared),
            }
        },
    }
}

fn lfirst_undeclared_symbol(v: &Vec<ConstraintExpr>, declared: &[String], Ghost(outer): Ghost<ConstraintModel>) -> (r: Option<String>)
    requires
        outer == ConstraintModel::And(constraints_model(v@)) || outer == ConstraintModel::Or(constraints_model(v@)),
    ensures
        match r {
            Some(n) => lfirst_undeclared(constraints_model(v@), crate::text::texts(declared@)) == Some(n@),
            None => lfirst_undeclared(constraints_model(v@), crate::text::texts(declared@)) is None,
        },
    decreases outer, 0nat,
{
    let ghost m = constraints_model(v@);
    let ghost d = crate::text::texts(declared@);
    proof { lemma_constraints_model_len(v@); }
    let mut i: usize = 0;
    proof { assert(m.subrange(0, m.len() as int) =~= m); }
    while i < v.len()
        invariant
            i <= v.len(),
            m == constraints_model(v@),
            d == crate::text::texts(declared@),
            m.len() == v@.len(),
            forall|j: int| 0 <= j < v@.len() ==> #[trigger] m[j] == constraint_model(v@[j]),
            outer == ConstraintModel::And(m) || outer == ConstraintModel::Or(m),
            lfirst_undeclared(m, d) == lfirst_undeclared(m.subrange(i as int, m.len() as int), d),
        decreases v.len() - i,
    {
        let ghost rest = m.subrange(i as int, m.len() as int);
        proof {
            assert(rest[0] == m[i as int]);
            assert(rest.subrange(1, rest.len() as int) =~= m.subrange(i + 1, m.len() as int));
            if outer == ConstraintModel::And(m) {
                assert(decreases_to!(outer => outer->And_0));
            } else {
                assert(decreases_to!(outer => outer->Or_0));
            }
            assert(decreases_to!(m => m[i as int]));
        }
        match cfirst_undeclared_symbol(&v[i], declared) {
            Some(n) => { return Some(n); },
            None => {},
        }
        i += 1;
    }
    proof { assert(m.subrange(v.len() as int, m.len() as int) =~= Seq::<ConstraintModel>::empty()); }
    None
}

} // verus!
