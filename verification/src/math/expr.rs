//! Symbolic cost expressions and the constraints that guard them.
use vstd::prelude::*;

use crate::text::{seq_lt, chars_lt, lemma_seq_lt_total, lemma_seq_lt_transitive, lemma_seq_lt_irreflexive};

verus! {

/// Scalar type of constant leaves.
pub type Const = i64;

/// A symbolic name.
#[derive(Debug, PartialEq, Eq, Hash, PartialOrd, Ord)]
pub struct Sym(pub String);

impl View for Sym {
    type V = Seq<char>;

    open spec fn view(&self) -> Seq<char> {
        self.0@
    }
}

impl Clone for Sym {
    fn clone(&self) -> (r: Self)
        ensures
            r == *self,
    {
        Sym(self.0.clone())
    }
}

impl Sym {
    pub fn new(name: &str) -> (r: Sym)
        ensures
            r@ == name@,
    {
        Sym(crate::text::owned(name))
    }

    /// Symbols with the given names, in order.
    pub fn from_names(names: &[&str]) -> (r: Vec<Sym>)
        ensures
            r@.len() == names@.len(),
            forall|i: int| 0 <= i < names@.len() ==> #[trigger] r@[i]@ == names@[i]@,
    {
        let mut out: Vec<Sym> = Vec::new();
        let mut i: usize = 0;
        while i < names.len()
            invariant
                i <= names@.len(),
                out@.len() == i,
                forall|j: int| 0 <= j < i ==> #[trigger] out@[j]@ == names@[j]@,
            decreases names.len() - i,
        {
            out.push(Sym::new(names[i]));
            i += 1;
        }
        out
    }

    /// The name as a string slice.
    pub fn as_str(&self) -> (r: &str)
        ensures
            r@ == self@,
    {
        self.0.as_str()
    }
}

/// Symbolic arithmetic for cost models.
#[derive(Debug, PartialEq, Eq, Hash)]
pub enum Expr {
    Const(i64),
    Sym(Sym),
    Add(Box<Expr>, Box<Expr>),
    Sub(Box<Expr>, Box<Expr>),
    Mul(Box<Expr>, Box<Expr>),
    Div(Box<Expr>, Box<Expr>),
    Min(Box<Expr>, Box<Expr>),
    Max(Box<Expr>, Box<Expr>),
    IfElse { cond: Box<ConstraintExpr>, then_expr: Box<Expr>, else_expr: Box<Expr> },
}

/// Boolean conditions over expressions.
#[derive(Debug, PartialEq, Eq, Hash)]
pub enum ConstraintExpr {
    True,
    False,
    And(Vec<ConstraintExpr>),
    Or(Vec<ConstraintExpr>),
    Not(Box<ConstraintExpr>),
    Eq(Expr, Expr),
    Ne(Expr, Expr),
    Lt(Expr, Expr),
    Le(Expr, Expr),
    Gt(Expr, Expr),
    Ge(Expr, Expr),
    Divisible { x: Expr, by: Expr },
}

/// Mathematical model of an [`Expr`]: names as character sequences, constants as integers.
pub ghost enum ExprModel {
    Const(int),
    Sym(Seq<char>),
    Add(Box<ExprModel>, Box<ExprModel>),
    Sub(Box<ExprModel>, Box<ExprModel>),
    Mul(Box<ExprModel>, Box<ExprModel>),
    Div(Box<ExprModel>, Box<ExprModel>),
    Min(Box<ExprModel>, Box<ExprModel>),
    Max(Box<ExprModel>, Box<ExprModel>),
    IfElse(Box<ConstraintModel>, Box<ExprModel>, Box<ExprModel>),
}

/// Mathematical model of a [`ConstraintExpr`].
pub ghost enum ConstraintModel {
    True,
    False,
    And(Seq<ConstraintModel>),
    Or(Seq<ConstraintModel>),
    Not(Box<ConstraintModel>),
    Eq(ExprModel, ExprModel),
    Ne(ExprModel, ExprModel),
    Lt(ExprModel, ExprModel),
    Le(ExprModel, ExprModel),
    Gt(ExprModel, ExprModel),
    Ge(ExprModel, ExprModel),
    Divisible(ExprModel, ExprModel),
}

pub open spec fn expr_model(e: Expr) -> ExprModel
    decreases e,
{
    match e {
        Expr::Const(v) => ExprModel::Const(v as int),
        Expr::Sym(s) => ExprModel::Sym(s@),
        Expr::Add(a, b) => ExprModel::Add(Box::new(expr_model(*a)), Box::new(expr_model(*b))),
        Expr::Sub(a, b) => ExprModel::Sub(Box::new(expr_model(*a)), Box::new(expr_model(*b))),
        Expr::Mul(a, b) => ExprModel::Mul(Box::new(expr_model(*a)), Box::new(expr_model(*b))),
        Expr::Div(a, b) => ExprModel::Div(Box::new(expr_model(*a)), Box::new(expr_model(*b))),
        Expr::Min(a, b) => ExprModel::Min(Box::new(expr_model(*a)), Box::new(expr_model(*b))),
        Expr::Max(a, b) => ExprModel::Max(Box::new(expr_model(*a)), Box::new(expr_model(*b))),
        Expr::IfElse { cond, then_expr, else_expr } => ExprModel::IfElse(
            Box::new(constraint_model(*cond)),
            Box::new(expr_model(*then_expr)),
            Box::new(expr_model(*else_expr)),
        ),
    }
}

pub open spec fn constraint_model(c: ConstraintExpr) -> ConstraintModel
    decreases c,
{
    match c {
        ConstraintExpr::True => ConstraintModel::True,
        ConstraintExpr::False => ConstraintModel::False,
        ConstraintExpr::And(v) => ConstraintModel::And(constraints_model(v@)),
        ConstraintExpr::Or(v) => ConstraintModel::Or(constraints_model(v@)),
        ConstraintExpr::Not(a) => ConstraintModel::Not(Box::new(constraint_model(*a))),
        ConstraintExpr::Eq(a, b) => ConstraintModel::Eq(expr_model(a), expr_model(b)),
        ConstraintExpr::Ne(a, b) => ConstraintModel::Ne(expr_model(a), expr_model(b)),
        ConstraintExpr::Lt(a, b) => ConstraintModel::Lt(expr_model(a), expr_model(b)),
        ConstraintExpr::Le(a, b) => ConstraintModel::Le(expr_model(a), expr_model(b)),
        ConstraintExpr::Gt(a, b) => ConstraintModel::Gt(expr_model(a), expr_model(b)),
        ConstraintExpr::Ge(a, b) => ConstraintModel::Ge(expr_model(a), expr_model(b)),
        ConstraintExpr::Divisible { x, by } => ConstraintModel::Divisible(expr_model(x), expr_model(by)),
    }
}

pub open spec fn constraints_model(s: Seq<ConstraintExpr>) -> Seq<ConstraintModel>
    decreases s,
{
    if s.len() == 0 {
        Seq::empty()
    } else {
        constraints_model(s.drop_last()).push(constraint_model(s.last()))
    }
}

impl View for Expr {
    type V = ExprModel;

    open spec fn view(&self) -> ExprModel {
        expr_model(*self)
    }
}

impl View for ConstraintExpr {
    type V = ConstraintModel;

    open spec fn view(&self) -> ConstraintModel {
        constraint_model(*self)
    }
}

pub proof fn lemma_constraints_model_len(s: Seq<ConstraintExpr>)
    ensures
        constraints_model(s).len() == s.len(),
        forall|i: int| 0 <= i < s.len() ==> #[trigger] constraints_model(s)[i] == constraint_model(s[i]),
    decreases s.len(),
{
    if s.len() > 0 {
        lemma_constraints_model_len(s.drop_last());
    }
}

} // verus!

verus! {

/// Appends `x` to a model sequence: the model of a push is the push of the model.
pub proof fn lemma_constraints_model_push(s: Seq<ConstraintExpr>, x: ConstraintExpr)
    ensures
        constraints_model(s.push(x)) == constraints_model(s).push(constraint_model(x)),
{
    assert(s.push(x).drop_last() =~= s);
}

impl Clone for Expr {
    fn clone(&self) -> (r: Self)
        ensures
            r@ == self@,
    {
        copy_expr(self)
    }
}

impl Clone for ConstraintExpr {
    fn clone(&self) -> (r: Self)
        ensures
            r@ == self@,
    {
        copy_constraint(self, Ghost(*self))
    }
}

fn copy_expr(e: &Expr) -> (r: Expr)
    ensures
        r@ == e@,
    decreases *e, 2nat,
{
    match e {
        Expr::Const(v) => Expr::Const(*v),
        Expr::Sym(s) => Expr::Sym(s.clone()),
        Expr::Add(a, b) => Expr::Add(Box::new(copy_expr(a)), Box::new(copy_expr(b))),
        Expr::Sub(a, b) => Expr::Sub(Box::new(copy_expr(a)), Box::new(copy_expr(b))),
        Expr::Mul(a, b) => Expr::Mul(Box::new(copy_expr(a)), Box::new(copy_expr(b))),
        Expr::Div(a, b) => Expr::Div(Box::new(copy_expr(a)), Box::new(copy_expr(b))),
        Expr::Min(a, b) => Expr::Min(Box::new(copy_expr(a)), Box::new(copy_expr(b))),
        Expr::Max(a, b) => Expr::Max(Box::new(copy_expr(a)), Box::new(copy_expr(b))),
        Expr::IfElse { cond, then_expr, else_expr } => Expr::IfElse {
            cond: Box::new(copy_constraint(cond, Ghost(**cond))),
            then_expr: Box::new(copy_expr(then_expr)),
            else_expr: Box::new(copy_expr(else_expr)),
        },
    }
}

/// A copy of a list of constraints held by the constraint `outer`.
fn copy_constraints(v: &Vec<ConstraintExpr>, Ghost(outer): Ghost<ConstraintExpr>) -> (r: Vec<ConstraintExpr>)
    requires
        decreases_to!(outer => *v),
    ensures
        constraints_model(r@) == constraints_model(v@),
    decreases outer, 0nat,
{
    let mut out: Vec<ConstraintExpr> = Vec::new();
    let mut i: usize = 0;
    while i < v.len()
        invariant
            i <= v.len(),
            decreases_to!(outer => *v),
            constraints_model(out@) == constraints_model(v@.take(i as int)),
        decreases v.len() - i,
    {
        proof {
            assert(decreases_to!(*v => v[i as int]));
        }
        let c = copy_constraint(&v[i], Ghost(v@[i as int]));
        proof {
            lemma_constraints_model_push(out@, c);
            lemma_constraints_model_push(v@.take(i as int), v@[i as int]);
            assert(v@.take(i + 1) =~= v@.take(i as int).push(v@[i as int]));
        }
        out.push(c);
        i += 1;
    }
    proof {
        assert(v@.take(v.len() as int) =~= v@);
    }
    out
}

/// A copy of a constraint that is `outer` or lies within it.
fn copy_constraint(c: &ConstraintExpr, Ghost(outer): Ghost<ConstraintExpr>) -> (r: ConstraintExpr)
    requires
        outer == *c || decreases_to!(outer => *c),
    ensures
        r@ == c@,
    decreases outer, 1nat,
{
    match c {
        ConstraintExpr::True => ConstraintExpr::True,
        ConstraintExpr::False => ConstraintExpr::False,
        ConstraintExpr::And(v) => ConstraintExpr::And(copy_constraints(v, Ghost(outer))),
        ConstraintExpr::Or(v) => ConstraintExpr::Or(copy_constraints(v, Ghost(outer))),
        ConstraintExpr::Not(a) => ConstraintExpr::Not(Box::new(copy_constraint(a, Ghost(**a)))),
        ConstraintExpr::Eq(a, b) => ConstraintExpr::Eq(copy_expr(a), copy_expr(b)),
        ConstraintExpr::Ne(a, b) => ConstraintExpr::Ne(copy_expr(a), copy_expr(b)),
        ConstraintExpr::Lt(a, b) => ConstraintExpr::Lt(copy_expr(a), copy_expr(b)),
        ConstraintExpr::Le(a, b) => ConstraintExpr::Le(copy_expr(a), copy_expr(b)),
        ConstraintExpr::Gt(a, b) => ConstraintExpr::Gt(copy_expr(a), copy_expr(b)),
        ConstraintExpr::Ge(a, b) => ConstraintExpr::Ge(copy_expr(a), copy_expr(b)),
        ConstraintExpr::Divisible { x, by } => ConstraintExpr::Divisible { x: copy_expr(x), by: copy_expr(by) },
    }
}

} // verus!

verus! {

pub open spec fn in_i64(v: int) -> bool {
    i64::MIN <= v <= i64::MAX
}

/// Integer division rounding toward zero, as Rust's `/` on integers.
pub open spec fn trunc_div(a: int, b: int) -> int {
    let q = (if a < 0 { -a } else { a }) / (if b < 0 { -b } else { b });
    if (a < 0) != (b < 0) { -q } else { q }
}

pub open spec fn abs_int(a: int) -> int {
    if a < 0 { -a } else { a }
}

pub open spec fn min_int(a: int, b: int) -> int {
    if a <= b { a } else { b }
}

pub open spec fn max_int(a: int, b: int) -> int {
    if a >= b { a } else { b }
}

/// Value of an expression whose leaves are all constants; `None` on a symbol or a zero divisor.
pub open spec fn eval(e: ExprModel) -> Option<int>
    decreases e,
{
    match e {
        ExprModel::Const(v) => Some(v),
        ExprModel::Sym(_) => None,
        ExprModel::Add(a, b) => match (eval(*a), eval(*b)) {
            (Some(x), Some(y)) => Some(x + y),
            _ => None,
        },
        ExprModel::Sub(a, b) => match (eval(*a), eval(*b)) {
            (Some(x), Some(y)) => Some(x - y),
            _ => None,
        },
        ExprModel::Mul(a, b) => match (eval(*a), eval(*b)) {
            (Some(x), Some(y)) => Some(x * y),
            _ => None,
        },
        ExprModel::Div(a, b) => match (eval(*a), eval(*b)) {
            (Some(x), Some(y)) => if y == 0 { None } else { Some(trunc_div(x, y)) },
            _ => None,
        },
        ExprModel::Min(a, b) => match (eval(*a), eval(*b)) {
            (Some(x), Some(y)) => Some(min_int(x, y)),
            _ => None,
        },
        ExprModel::Max(a, b) => match (eval(*a), eval(*b)) {
            (Some(x), Some(y)) => Some(max_int(x, y)),
            _ => None,
        },
        ExprModel::IfElse(c, t, f) => match ceval(*c) {
            Some(true) => eval(*t),
            Some(false) => eval(*f),
            None => None,
        },
    }
}

/// Truth value of a constraint whose expressions are all constant.
pub open spec fn ceval(c: ConstraintModel) -> Option<bool>
    decreases c,
{
    match c {
        ConstraintModel::True => Some(true),
        ConstraintModel::False => Some(false),
        ConstraintModel::And(s) => ceval_and(s),
        ConstraintModel::Or(s) => ceval_or(s),
        ConstraintModel::Not(a) => match ceval(*a) {
            Some(b) => Some(!b),
            None => None,
        },
        ConstraintModel::Eq(a, b) => match (eval(a), eval(b)) {
            (Some(x), Some(y)) => Some(x == y),
            _ => None,
        },
        ConstraintModel::Ne(a, b) => match (eval(a), eval(b)) {
            (Some(x), Some(y)) => Some(x != y),
            _ => None,
        },
        ConstraintModel::Lt(a, b) => match (eval(a), eval(b)) {
            (Some(x), Some(y)) => Some(x < y),
            _ => None,
        },
        ConstraintModel::Le(a, b) => match (eval(a), eval(b)) {
            (Some(x), Some(y)) => Some(x <= y),
            _ => None,
        },
        ConstraintModel::Gt(a, b) => match (eval(a), eval(b)) {
            (Some(x), Some(y)) => Some(x > y),
            _ => None,
        },
        ConstraintModel::Ge(a, b) => match (eval(a), eval(b)) {
            (Some(x), Some(y)) => Some(x >= y),
            _ => None,
        },
        ConstraintModel::Divisible(x, by) => match (eval(x), eval(by)) {
            (Some(v), Some(d)) => if d == 0 { None } else { Some(abs_int(v) % abs_int(d) == 0) },
            _ => None,
        },
    }
}

/// Conjunction of a list, undefined as soon as one member is.
pub open spec fn ceval_and(s: Seq<ConstraintModel>) -> Option<bool>
    decreases s,
{
    if s.len() == 0 {
        Some(true)
    } else {
        match ceval(s[0]) {
            None => None,
            Some(b) => match ceval_and(s.subrange(1, s.len() as int)) {
                None => None,
                Some(r) => Some(b && r),
            },
        }
    }
}

/// Disjunction of a list, undefined as soon as one member is.
pub open spec fn ceval_or(s: Seq<ConstraintModel>) -> Option<bool>
    decreases s,
{
    if s.len() == 0 {
        Some(false)
    } else {
        match ceval(s[0]) {
            None => None,
            Some(b) => match ceval_or(s.subrange(1, s.len() as int)) {
                None => None,
                Some(r) => Some(b || r),
            },
        }
    }
}

/// Every step of evaluating `e` in order (left operand first, divisor before dividend)
/// stays within `i64`.
pub open spec fn fits(e: ExprModel) -> bool
    decreases e,
{
    match e {
        ExprModel::Const(_) => true,
        ExprModel::Sym(_) => true,
        ExprModel::Add(a, b) => fits(*a) && (eval(*a) is Some ==> fits(*b) && (eval(*b) is Some
            ==> in_i64(eval(*a)->0 + eval(*b)->0))),
        ExprModel::Sub(a, b) => fits(*a) && (eval(*a) is Some ==> fits(*b) && (eval(*b) is Some
            ==> in_i64(eval(*a)->0 - eval(*b)->0))),
        ExprModel::Mul(a, b) => fits(*a) && (eval(*a) is Some ==> fits(*b) && (eval(*b) is Some
            ==> in_i64(eval(*a)->0 * eval(*b)->0))),
        ExprModel::Div(a, b) => fits(*b) && (eval(*b) is Some && eval(*b)->0 != 0 ==> fits(*a) && (
        eval(*a) is Some ==> in_i64(trunc_div(eval(*a)->0, eval(*b)->0)))),
        ExprModel::Min(a, b) => fits(*a) && (eval(*a) is Some ==> fits(*b)),
        ExprModel::Max(a, b) => fits(*a) && (eval(*a) is Some ==> fits(*b)),
        ExprModel::IfElse(c, t, f) => cfits(*c) && match ceval(*c) {
            Some(true) => fits(*t),
            Some(false) => fits(*f),
            None => true,
        },
    }
}

pub open spec fn cfits(c: ConstraintModel) -> bool
    decreases c,
{
    match c {
        ConstraintModel::True => true,
        ConstraintModel::False => true,
        ConstraintModel::And(s) => cfits_list(s),
        ConstraintModel::Or(s) => cfits_list(s),
        ConstraintModel::Not(a) => cfits(*a),
        ConstraintModel::Eq(a, b) => fits(a) && (eval(a) is Some ==> fits(b)),
        ConstraintModel::Ne(a, b) => fits(a) && (eval(a) is Some ==> fits(b)),
        ConstraintModel::Lt(a, b) => fits(a) && (eval(a) is Some ==> fits(b)),
        ConstraintModel::Le(a, b) => fits(a) && (eval(a) is Some ==> fits(b)),
        ConstraintModel::Gt(a, b) => fits(a) && (eval(a) is Some ==> fits(b)),
        ConstraintModel::Ge(a, b) => fits(a) && (eval(a) is Some ==> fits(b)),
        ConstraintModel::Divisible(x, by) => fits(x) && (eval(x) is Some ==> fits(by)),
    }
}

pub open spec fn cfits_list(s: Seq<ConstraintModel>) -> bool
    decreases s,
{
    if s.len() == 0 {
        true
    } else {
        cfits(s[0]) && (ceval(s[0]) is Some ==> cfits_list(s.subrange(1, s.len() as int)))
    }
}

pub open spec fn opt_int(o: Option<i64>) -> Option<int> {
    match o {
        Some(v) => Some(v as int),
        None => None,
    }
}

fn div_trunc(a: i64, b: i64) -> (r: i64)
    requires
        b != 0,
        in_i64(trunc_div(a as int, b as int)),
    ensures
        r == trunc_div(a as int, b as int),
{
    let x: i128 = if a < 0 { -(a as i128) } else { a as i128 };
    let y: i128 = if b < 0 { -(b as i128) } else { b as i128 };
    let q: i128 = x / y;
    let r: i128 = if (a < 0) != (b < 0) { -q } else { q };
    r as i64
}

fn eval_expr(e: &Expr) -> (r: Option<i64>)
    requires
        fits(e@),
    ensures
        opt_int(r) == eval(e@),
    decreases e@, 1nat,
{
    match e {
        Expr::Const(v) => Some(*v),
        Expr::Sym(_) => None,
        Expr::Add(a, b) => {
            let x = eval_expr(a)?;
            let y = eval_expr(b)?;
            Some(x + y)
        },
        Expr::Sub(a, b) => {
            let x = eval_expr(a)?;
            let y = eval_expr(b)?;
            Some(x - y)
        },
        Expr::Mul(a, b) => {
            let x = eval_expr(a)?;
            let y = eval_expr(b)?;
            Some(x * y)
        },
        Expr::Div(a, b) => {
            let d = eval_expr(b)?;
            if d == 0 {
                None
            } else {
                let x = eval_expr(a)?;
                Some(div_trunc(x, d))
            }
        },
        Expr::Min(a, b) => {
            let x = eval_expr(a)?;
            let y = eval_expr(b)?;
            Some(if x <= y { x } else { y })
        },
        Expr::Max(a, b) => {
            let x = eval_expr(a)?;
            let y = eval_expr(b)?;
            Some(if x >= y { x } else { y })
        },
        Expr::IfElse { cond, then_expr, else_expr } => {
            match eval_constraint(cond)? {
                true => eval_expr(then_expr),
                false => eval_expr(else_expr),
            }
        },
    }
}

fn eval_constraint(c: &ConstraintExpr) -> (r: Option<bool>)
    requires
        cfits(c@),
    ensures
        r == ceval(c@),
    decreases c@, 1nat,
{
    match c {
        ConstraintExpr::True => Some(true),
        ConstraintExpr::False => Some(false),
        ConstraintExpr::And(v) => eval_list(v, true, Ghost(c@)),
        ConstraintExpr::Or(v) => eval_list(v, false, Ghost(c@)),
        ConstraintExpr::Not(a) => {
            let b = eval_constraint(a)?;
            Some(!b)
        },
        ConstraintExpr::Eq(a, b) => {
            let x = eval_expr(a)?;
            let y = eval_expr(b)?;
            Some(x == y)
        },
        ConstraintExpr::Ne(a, b) => {
            let x = eval_expr(a)?;
            let y = eval_expr(b)?;
            Some(x != y)
        },
        ConstraintExpr::Lt(a, b) => {
            let x = eval_expr(a)?;
            let y = eval_expr(b)?;
            Some(x < y)
        },
        ConstraintExpr::Le(a, b) => {
            let x = eval_expr(a)?;
            let y = eval_expr(b)?;
            Some(x <= y)
        },
        ConstraintExpr::Gt(a, b) => {
            let x = eval_expr(a)?;
            let y = eval_expr(b)?;
            Some(x > y)
        },
        ConstraintExpr::Ge(a, b) => {
            let x = eval_expr(a)?;
            let y = eval_expr(b)?;
            Some(x >= y)
        },
        ConstraintExpr::Divisible { x, by } => {
            let v = eval_expr(x)?;
            let d = eval_expr(by)?;
            if d == 0 {
                None
            } else {
                let x: i128 = if v < 0 { -(v as i128) } else { v as i128 };
                let y: i128 = if d < 0 { -(d as i128) } else { d as i128 };
                Some(x % y == 0)
            }
        },
    }
}

/// Evaluates the members of a conjunction (`conj`) or a disjunction, in order.
fn eval_list(v: &Vec<ConstraintExpr>, conj: bool, Ghost(outer): Ghost<ConstraintModel>) -> (r: Option<bool>)
    requires
        outer == (if conj { ConstraintModel::And(constraints_model(v@)) } else { ConstraintModel::Or(constraints_model(v@)) }),
        cfits_list(constraints_model(v@)),
    ensures
        r == (if conj { ceval_and(constraints_model(v@)) } else { ceval_or(constraints_model(v@)) }),
    decreases outer, 0nat,
{
    let ghost m = constraints_model(v@);
    proof { lemma_constraints_model_len(v@); }
    let mut acc: bool = conj;
    let mut i: usize = 0;
    proof { assert(m.subrange(0, m.len() as int) =~= m); }
    while i < v.len()
        invariant
            i <= v.len(),
            m == constraints_model(v@),
            m.len() == v@.len(),
            forall|j: int| 0 <= j < v@.len() ==> #[trigger] m[j] == constraint_model(v@[j]),
            outer == (if conj { ConstraintModel::And(m) } else { ConstraintModel::Or(m) }),
            cfits_list(m.subrange(i as int, m.len() as int)),
            (if conj { ceval_and(m) } else { ceval_or(m) }) == (match (if conj { ceval_and(m.subrange(i as int, m.len() as int)) } else { ceval_or(m.subrange(i as int, m.len() as int)) }) {
                None => None,
                Some(b) => Some(if conj { acc && b } else { acc || b }),
            }),
        decreases v.len() - i,
    {
        let ghost rest = m.subrange(i as int, m.len() as int);
        proof {
            assert(rest[0] == m[i as int]);
            assert(rest.subrange(1, rest.len() as int) =~= m.subrange(i + 1, m.len() as int));
            if conj {
                assert(decreases_to!(outer => outer->And_0));
            } else {
                assert(decreases_to!(outer => outer->Or_0));
            }
            assert(decreases_to!(m => m[i as int]));
        }
        let b = eval_constraint(&v[i]);
        match b {
            None => { return None; },
            Some(b) => {
                acc = if conj { acc && b } else { acc || b };
            },
        }
        i += 1;
    }
    proof {
        assert(m.subrange(v.len() as int, m.len() as int) =~= Seq::<ConstraintModel>::empty());
    }
    Some(acc)
}

impl Expr {
    pub fn constant(value: i64) -> (r: Expr)
        ensures
            r@ == ExprModel::Const(value as int),
    {
        Expr::Const(value)
    }

    /// Convenience constructor used for architecture sizes.
    pub fn integer(value: i64) -> (r: Expr)
        ensures
            r@ == ExprModel::Const(value as int),
    {
        Expr::Const(value)
    }

    pub fn sym(name: &str) -> (r: Expr)
        ensures
            r@ == ExprModel::Sym(name@),
    {
        Expr::Sym(Sym::new(name))
    }

    pub fn add(a: Expr, b: Expr) -> (r: Expr)
        ensures
            r@ == ExprModel::Add(Box::new(a@), Box::new(b@)),
    {
        Expr::Add(Box::new(a), Box::new(b))
    }

    pub fn sub(a: Expr, b: Expr) -> (r: Expr)
        ensures
            r@ == ExprModel::Sub(Box::new(a@), Box::new(b@)),
    {
        Expr::Sub(Box::new(a), Box::new(b))
    }

    pub fn mul(a: Expr, b: Expr) -> (r: Expr)
        ensures
            r@ == ExprModel::Mul(Box::new(a@), Box::new(b@)),
    {
        Expr::Mul(Box::new(a), Box::new(b))
    }

    pub fn div(a: Expr, b: Expr) -> (r: Expr)
        ensures
            r@ == ExprModel::Div(Box::new(a@), Box::new(b@)),
    {
        Expr::Div(Box::new(a), Box::new(b))
    }

    pub fn min(a: Expr, b: Expr) -> (r: Expr)
        ensures
            r@ == ExprModel::Min(Box::new(a@), Box::new(b@)),
    {
        Expr::Min(Box::new(a), Box::new(b))
    }

    pub fn max(a: Expr, b: Expr) -> (r: Expr)
        ensures
            r@ == ExprModel::Max(Box::new(a@), Box::new(b@)),
    {
        Expr::Max(Box::new(a), Box::new(b))
    }

    pub fn if_then_else(cond: ConstraintExpr, then_expr: Expr, else_expr: Expr) -> (r: Expr)
        ensures
            r@ == ExprModel::IfElse(Box::new(cond@), Box::new(then_expr@), Box::new(else_expr@)),
    {
        Expr::IfElse { cond: Box::new(cond), then_expr: Box::new(then_expr), else_expr: Box::new(else_expr) }
    }

    /// The value of the expression when all its leaves are constants.
    pub fn eval_const(&self) -> (r: Option<i64>)
        requires
            fits(self@),
        ensures
            opt_int(r) == eval(self@),
    {
        eval_expr(self)
    }

    pub fn is_const(&self) -> (r: bool)
        ensures
            r == self@ is Const,
    {
        match self {
            Expr::Const(_) => true,
            _ => false,
        }
    }

    pub fn is_sym(&self) -> (r: bool)
        ensures
            r == self@ is Sym,
    {
        match self {
            Expr::Sym(_) => true,
            _ => false,
        }
    }

    /// The value as a non-negative constant, if it has one.
    pub fn as_const(&self) -> (r: Option<u64>)
        requires
            fits(self@),
        ensures
            r matches Some(v) ==> eval(self@) == Some(v as int),
            r is None ==> !(eval(self@) matches Some(v) && v >= 0),
    {
        match self.eval_const() {
            Some(v) => if v >= 0 { Some(v as u64) } else { None },
            None => None,
        }
    }
}

} // verus!

verus! {

/// Names of the symbols that occur in an expression.
pub open spec fn syms(e: ExprModel) -> Set<Seq<char>>
    decreases e,
{
    match e {
        ExprModel::Const(_) => Set::empty(),
        ExprModel::Sym(n) => set![n],
        ExprModel::Add(a, b) => syms(*a) + syms(*b),
        ExprModel::Sub(a, b) => syms(*a) + syms(*b),
        ExprModel::Mul(a, b) => syms(*a) + syms(*b),
        ExprModel::Div(a, b) => syms(*a) + syms(*b),
        ExprModel::Min(a, b) => syms(*a) + syms(*b),
        ExprModel::Max(a, b) => syms(*a) + syms(*b),
        ExprModel::IfElse(c, t, f) => csyms(*c) + syms(*t) + syms(*f),
    }
}

pub open spec fn csyms(c: ConstraintModel) -> Set<Seq<char>>
    decreases c,
{
    match c {
        ConstraintModel::True => Set::empty(),
        ConstraintModel::False => Set::empty(),
        ConstraintModel::And(s) => csyms_list(s),
        ConstraintModel::Or(s) => csyms_list(s),
        ConstraintModel::Not(a) => csyms(*a),
        ConstraintModel::Eq(a, b) => syms(a) + syms(b),
        ConstraintModel::Ne(a, b) => syms(a) + syms(b),
        ConstraintModel::Lt(a, b) => syms(a) + syms(b),
        ConstraintModel::Le(a, b) => syms(a) + syms(b),
        ConstraintModel::Gt(a, b) => syms(a) + syms(b),
        ConstraintModel::Ge(a, b) => syms(a) + syms(b),
        ConstraintModel::Divisible(x, by) => syms(x) + syms(by),
    }
}

pub open spec fn csyms_list(s: Seq<ConstraintModel>) -> Set<Seq<char>>
    decreases s,
{
    if s.len() == 0 {
        Set::empty()
    } else {
        csyms(s[0]) + csyms_list(s.subrange(1, s.len() as int))
    }
}

/// The names held by a list of symbols.
pub open spec fn names(v: Seq<Sym>) -> Set<Seq<char>> {
    Set::new(|n: Seq<char>| exists|i: int| 0 <= i < v.len() && #[trigger] v[i]@ == n)
}

/// No name occurs twice.
pub open spec fn distinct_names(v: Seq<Sym>) -> bool {
    forall|i: int, j: int| 0 <= i < j < v.len() ==> v[i]@ != v[j]@
}

/// Names in strictly increasing order.
pub open spec fn sorted_names(v: Seq<Sym>) -> bool {
    forall|i: int, j: int| 0 <= i < j < v.len() ==> crate::text::seq_lt(v[i]@, v[j]@)
}

/// Whether a list of symbols holds a name.
pub fn contains_name(v: &Vec<Sym>, s: &Sym) -> (r: bool)
    ensures
        r == names(v@).contains(s@),
{
    let mut i: usize = 0;
    while i < v.len()
        invariant
            i <= v.len(),
            forall|j: int| 0 <= j < i ==> v@[j]@ != s@,
        decreases v.len() - i,
    {
        if v[i].0 == s.0 {
            assert(names(v@).contains(s@)) by { assert(v@[i as int]@ == s@); }
            return true;
        }
        i += 1;
    }
    false
}

/// Appends `s` unless a symbol of the same name is already present.
pub fn add_sym(out: &mut Vec<Sym>, s: &Sym)
    ensures
        names(final(out)@) == names(old(out)@).insert(s@),
        distinct_names(old(out)@) ==> distinct_names(final(out)@),
        final(out)@.len() >= old(out)@.len(),
        final(out)@.subrange(0, old(out)@.len() as int) == old(out)@,
{
    if !contains_name(out, s) {
        out.push(s.clone());
        proof {
            assert(names(out@) =~= names(old(out)@).insert(s@)) by {
                assert forall|n: Seq<char>| names(out@).contains(n) implies names(old(out)@).insert(s@).contains(n) by {
                    let i = choose|i: int| 0 <= i < out@.len() && #[trigger] out@[i]@ == n;
                    if i < old(out)@.len() {
                        assert(old(out)@[i] == out@[i]);
                    }
                }
                assert forall|n: Seq<char>| names(old(out)@).insert(s@).contains(n) implies names(out@).contains(n) by {
                    if n == s@ {
                        assert(out@[old(out)@.len() as int]@ == n);
                    } else {
                        let i = choose|i: int| 0 <= i < old(out)@.len() && #[trigger] old(out)@[i]@ == n;
                        assert(out@[i]@ == n);
                    }
                }
            }
        }
    } else {
        proof {
            assert(names(old(out)@).insert(s@) =~= names(old(out)@));
        }
    }
    proof {
        assert(out@.subrange(0, old(out)@.len() as int) =~= old(out)@);
    }
}

fn collect_expr(e: &Expr, out: &mut Vec<Sym>)
    ensures
        names(final(out)@) == names(old(out)@) + syms(e@),
        distinct_names(old(out)@) ==> distinct_names(final(out)@),
    decreases e@, 1nat,
{
    match e {
        Expr::Const(_) => {
            assert(names(old(out)@) + syms(e@) =~= names(old(out)@));
        },
        Expr::Sym(s) => {
            add_sym(out, s);
            assert(names(old(out)@).insert(s@) =~= names(old(out)@) + syms(e@));
        },
        Expr::Add(a, b) | Expr::Sub(a, b) | Expr::Mul(a, b) | Expr::Div(a, b) | Expr::Min(a, b) | Expr::Max(a, b) => {
            collect_expr(a, out);
            collect_expr(b, out);
            assert(names(old(out)@) + syms(a@) + syms(b@) =~= names(old(out)@) + syms(e@));
        },
        Expr::IfElse { cond, then_expr, else_expr } => {
            collect_constraint(cond, out);
            collect_expr(then_expr, out);
            collect_expr(else_expr, out);
            assert(names(old(out)@) + csyms(cond@) + syms(then_expr@) + syms(else_expr@) =~= names(old(out)@) + syms(e@));
        },
    }
}

fn collect_constraint(c: &ConstraintExpr, out: &mut Vec<Sym>)
    ensures
        names(final(out)@) == names(old(out)@) + csyms(c@),
        distinct_names(old(out)@) ==> distinct_names(final(out)@),
    decreases c@, 1nat,
{
    match c {
        ConstraintExpr::True => {
            assert(names(old(out)@) + csyms(c@) =~= names(old(out)@));
        },
        ConstraintExpr::False => {
            assert(names(old(out)@) + csyms(c@) =~= names(old(out)@));
        },
        ConstraintExpr::And(v) => {
            collect_list(v, out, Ghost(c@));
        },
        ConstraintExpr::Or(v) => {
            collect_list(v, out, Ghost(c@));
        },
        ConstraintExpr::Not(a) => {
            collect_constraint(a, out);
        },
        ConstraintExpr::Eq(a, b) => {
            collect_expr(a, out);
            collect_expr(b, out);
            assert(names(old(out)@) + syms(a@) + syms(b@) =~= names(old(out)@) + csyms(c@));
        },
        ConstraintExpr::Ne(a, b) => {
            collect_expr(a, out);
            collect_expr(b, out);
            assert(names(old(out)@) + syms(a@) + syms(b@) =~= names(old(out)@) + csyms(c@));
        },
        ConstraintExpr::Lt(a, b) => {
            collect_expr(a, out);
            collect_expr(b, out);
            assert(names(old(out)@) + syms(a@) + syms(b@) =~= names(old(out)@) + csyms(c@));
        },
        ConstraintExpr::Le(a, b) => {
            collect_expr(a, out);
            collect_expr(b, out);
            assert(names(old(out)@) + syms(a@) + syms(b@) =~= names(old(out)@) + csyms(c@));
        },
        ConstraintExpr::Gt(a, b) => {
            collect_expr(a, out);
            collect_expr(b, out);
            assert(names(old(out)@) + syms(a@) + syms(b@) =~= names(old(out)@) + csyms(c@));
        },
        ConstraintExpr::Ge(a, b) => {
            collect_expr(a, out);
            collect_expr(b, out);
            assert(names(old(out)@) + syms(a@) + syms(b@) =~= names(old(out)@) + csyms(c@));
        },
        ConstraintExpr::Divisible { x, by } => {
            collect_expr(x, out);
            collect_expr(by, out);
            assert(names(old(out)@) + syms(x@) + syms(by@) =~= names(old(out)@) + csyms(c@));
        },
    }
}

fn collect_list(v: &Vec<ConstraintExpr>, out: &mut Vec<Sym>, Ghost(outer): Ghost<ConstraintModel>)
    requires
        outer == ConstraintModel::And(constraints_model(v@)) || outer == ConstraintModel::Or(constraints_model(v@)),
    ensures
        names(final(out)@) == names(old(out)@) + csyms_list(constraints_model(v@)),
        distinct_names(old(out)@) ==> distinct_names(final(out)@),
    decreases outer, 0nat,
{
    let ghost m = constraints_model(v@);
    proof { lemma_constraints_model_len(v@); assert(m.subrange(0, m.len() as int) =~= m); }
    let mut i: usize = 0;
    while i < v.len()
        invariant
            i <= v.len(),
            m == constraints_model(v@),
            m.len() == v@.len(),
            forall|j: int| 0 <= j < v@.len() ==> #[trigger] m[j] == constraint_model(v@[j]),
            outer == ConstraintModel::And(m) || outer == ConstraintModel::Or(m),
            names(old(out)@) + csyms_list(m) == names(out@) + csyms_list(m.subrange(i as int, m.len() as int)),
            distinct_names(old(out)@) ==> distinct_names(out@),
        decreases v.len() - i,
    {
        let ghost rest = m.subrange(i as int, m.len() as int);
        proof {
            assert(rest[0] == m[i as int]);
            assert(rest.subrange(1, rest.len() as int) =~= m.subrange(i + 1, m.len() as int));
            if outer is And {
                assert(decreases_to!(outer => outer->And_0));
            } else {
                assert(decreases_to!(outer => outer->Or_0));
            }
            assert(decreases_to!(m => m[i as int]));
        }
        let ghost before = names(out@);
        collect_constraint(&v[i], out);
        proof {
            assert(before + csyms_list(rest) =~= names(out@) + csyms_list(m.subrange(i + 1, m.len() as int)));
        }
        i += 1;
    }
    proof {
        assert(m.subrange(v.len() as int, m.len() as int) =~= Seq::<ConstraintModel>::empty());
        assert(names(out@) + Set::<Seq<char>>::empty() =~= names(out@));
    }
}

impl Expr {
    /// Adds the symbols of this expression that `out` does not hold yet.
    pub fn collect_symbols(&self, out: &mut Vec<Sym>)
        ensures
            names(final(out)@) == names(old(out)@) + syms(self@),
            distinct_names(old(out)@) ==> distinct_names(final(out)@),
    {
        collect_expr(self, out)
    }

    /// The symbols of this expression, each once, in order of first occurrence.
    pub fn free_symbols(&self) -> (r: Vec<Sym>)
        ensures
            names(r@) == syms(self@),
            distinct_names(r@),
    {
        let mut out: Vec<Sym> = Vec::new();
        proof { assert(names(out@) =~= Set::<Seq<char>>::empty()); }
        collect_expr(self, &mut out);
        proof { assert(Set::<Seq<char>>::empty() + syms(self@) =~= syms(self@)); }
        out
    }

    /// The symbols of this expression, each once, sorted by name.
    pub fn symbols(&self) -> (r: Vec<Sym>)
        ensures
            names(r@) == syms(self@),
            sorted_names(r@),
    {
        let free = self.free_symbols();
        sort_symbols(free)
    }
}

impl ConstraintExpr {
    /// Truth value when every expression in the constraint is constant.
    pub fn eval_const(&self) -> (r: Option<bool>)
        requires
            cfits(self@),
        ensures
            r == ceval(self@),
    {
        eval_constraint(self)
    }

    /// Adds the symbols of this constraint that `out` does not hold yet.
    pub fn collect_symbols(&self, out: &mut Vec<Sym>)
        ensures
            names(final(out)@) == names(old(out)@) + csyms(self@),
            distinct_names(old(out)@) ==> distinct_names(final(out)@),
    {
        collect_constraint(self, out)
    }

    /// The symbols of this constraint, each once.
    pub fn free_symbols(&self) -> (r: Vec<Sym>)
        ensures
            names(r@) == csyms(self@),
            distinct_names(r@),
    {
        let mut out: Vec<Sym> = Vec::new();
        proof { assert(names(out@) =~= Set::<Seq<char>>::empty()); }
        collect_constraint(self, &mut out);
        proof { assert(Set::<Seq<char>>::empty() + csyms(self@) =~= csyms(self@)); }
        out
    }
}

/// Sorts distinct symbols by name.
pub fn sort_symbols(v: Vec<Sym>) -> (r: Vec<Sym>)
    requires
        distinct_names(v@),
    ensures
        names(r@) == names(v@),
        sorted_names(r@),
        r@.len() == v@.len(),
{
    let mut out: Vec<Sym> = Vec::new();
    let mut i: usize = 0;
    while i < v.len()
        invariant
            i <= v.len(),
            distinct_names(v@),
            sorted_names(out@),
            out@.len() == i,
            names(out@) == names(v@.take(i as int)),
        decreases v.len() - i,
    {
        let ghost before = out@;
        let x = v[i].clone();
        let mut p: usize = 0;
        while p < out.len() && !chars_lt_str(x.0.as_str(), out[p].0.as_str())
            invariant
                p <= out@.len(),
                out@ == before,
                forall|k: int| 0 <= k < p ==> !seq_lt(x@, #[trigger] out@[k]@),
            decreases out.len() - p,
        {
            p += 1;
        }
        proof {
            assert(!names(before).contains(x@)) by {
                if names(before).contains(x@) {
                    assert(names(v@.take(i as int)).contains(x@));
                    let t0 = v@.take(i as int);
                    let k = choose|k: int| 0 <= k < t0.len() && #[trigger] t0[k]@ == x@;
                    assert(v@[k]@ == v@[i as int]@);
                }
            }
            assert forall|k: int| 0 <= k < p implies seq_lt(#[trigger] before[k]@, x@) by {
                lemma_seq_lt_total(x@, before[k]@);
                assert(names(before).contains(before[k]@));
            }
            assert forall|k: int| p <= k < before.len() implies seq_lt(x@, #[trigger] before[k]@) by {
                assert(seq_lt(x@, before[p as int]@));
                if k > p {
                    lemma_seq_lt_transitive(x@, before[p as int]@, before[k]@);
                }
            }
        }
        out.insert(p, x);
        proof {
            assert forall|a: int, b: int| 0 <= a < b < out@.len() implies seq_lt(out@[a]@, out@[b]@) by {
                if a < p && b == p {
                } else if a < p && b > p {
                    assert(out@[b] == before[b - 1]);
                } else if a == p {
                    assert(out@[b] == before[b - 1]);
                } else if a > p {
                    assert(out@[a] == before[a - 1]);
                    assert(out@[b] == before[b - 1]);
                } else {
                    assert(out@[a] == before[a]);
                    assert(out@[b] == before[b]);
                }
            }
            let ghost t1 = v@.take(i + 1);
            let ghost t0 = v@.take(i as int);
            assert(names(out@) =~= names(t1)) by {
                assert(t1 =~= t0.push(v@[i as int]));
                assert forall|n: Seq<char>| names(out@).contains(n) implies names(t1).contains(n) by {
                    let k = choose|k: int| 0 <= k < out@.len() && #[trigger] out@[k]@ == n;
                    if k == p {
                        assert(t1[i as int]@ == n);
                    } else {
                        let kk = if k < p { k } else { k - 1 };
                        assert(out@[k] == before[kk]);
                        assert(names(before).contains(n));
                        let j = choose|j: int| 0 <= j < t0.len() && #[trigger] t0[j]@ == n;
                        assert(t1[j]@ == n);
                    }
                }
                assert forall|n: Seq<char>| names(t1).contains(n) implies names(out@).contains(n) by {
                    let j = choose|j: int| 0 <= j < t1.len() && #[trigger] t1[j]@ == n;
                    if j == i {
                        assert(out@[p as int]@ == n);
                    } else {
                        assert(t0[j]@ == n);
                        assert(names(before).contains(n));
                        let k = choose|k: int| 0 <= k < before.len() && #[trigger] before[k]@ == n;
                        if k < p {
                            assert(out@[k] == before[k]);
                        } else {
                            assert(out@[k + 1] == before[k]);
                        }
                    }
                }
            }
        }
        i += 1;
    }
    proof {
        assert(v@.take(v.len() as int) =~= v@);
    }
    out
}

fn chars_lt_str(a: &str, b: &str) -> (r: bool)
    ensures
        r == seq_lt(a@, b@),
{
    let x = crate::text::chars_of(a);
    let y = crate::text::chars_of(b);
    chars_lt(x.as_slice(), y.as_slice())
}

} // verus!

verus! {

/// Model of a substitution list: name and replacement of each entry, in order.
pub open spec fn mappings_model(m: Seq<(Sym, Expr)>) -> Seq<(Seq<char>, ExprModel)> {
    m.map_values(|p: (Sym, Expr)| (p.0@, p.1@))
}

/// Replacement of the first entry named `n`.
pub open spec fn lookup(m: Seq<(Seq<char>, ExprModel)>, n: Seq<char>) -> Option<ExprModel>
    decreases m.len(),
{
    if m.len() == 0 {
        None
    } else if m[0].0 == n {
        Some(m[0].1)
    } else {
        lookup(m.subrange(1, m.len() as int), n)
    }
}

/// `e` with every symbol replaced by its first image in `m`.
pub open spec fn subst(e: ExprModel, m: Seq<(Seq<char>, ExprModel)>) -> ExprModel
    decreases e,
{
    match e {
        ExprModel::Const(v) => ExprModel::Const(v),
        ExprModel::Sym(n) => match lookup(m, n) {
            Some(r) => r,
            None => ExprModel::Sym(n),
        },
        ExprModel::Add(a, b) => ExprModel::Add(Box::new(subst(*a, m)), Box::new(subst(*b, m))),
        ExprModel::Sub(a, b) => ExprModel::Sub(Box::new(subst(*a, m)), Box::new(subst(*b, m))),
        ExprModel::Mul(a, b) => ExprModel::Mul(Box::new(subst(*a, m)), Box::new(subst(*b, m))),
        ExprModel::Div(a, b) => ExprModel::Div(Box::new(subst(*a, m)), Box::new(subst(*b, m))),
        ExprModel::Min(a, b) => ExprModel::Min(Box::new(subst(*a, m)), Box::new(subst(*b, m))),
        ExprModel::Max(a, b) => ExprModel::Max(Box::new(subst(*a, m)), Box::new(subst(*b, m))),
        ExprModel::IfElse(c, t, f) => ExprModel::IfElse(
            Box::new(csubst(*c, m)),
            Box::new(subst(*t, m)),
            Box::new(subst(*f, m)),
        ),
    }
}

pub open spec fn csubst(c: ConstraintModel, m: Seq<(Seq<char>, ExprModel)>) -> ConstraintModel
    decreases c,
{
    match c {
        ConstraintModel::True => ConstraintModel::True,
        ConstraintModel::False => ConstraintModel::False,
        ConstraintModel::And(s) => ConstraintModel::And(csubst_list(s, m)),
        ConstraintModel::Or(s) => ConstraintModel::Or(csubst_list(s, m)),
        ConstraintModel::Not(a) => ConstraintModel::Not(Box::new(csubst(*a, m))),
        ConstraintModel::Eq(a, b) => ConstraintModel::Eq(subst(a, m), subst(b, m)),
        ConstraintModel::Ne(a, b) => ConstraintModel::Ne(subst(a, m), subst(b, m)),
        ConstraintModel::Lt(a, b) => ConstraintModel::Lt(subst(a, m), subst(b, m)),
        ConstraintModel::Le(a, b) => ConstraintModel::Le(subst(a, m), subst(b, m)),
        ConstraintModel::Gt(a, b) => ConstraintModel::Gt(subst(a, m), subst(b, m)),
        ConstraintModel::Ge(a, b) => ConstraintModel::Ge(subst(a, m), subst(b, m)),
        ConstraintModel::Divisible(x, by) => ConstraintModel::Divisible(subst(x, m), subst(by, m)),
    }
}

pub open spec fn csubst_list(s: Seq<ConstraintModel>, m: Seq<(Seq<char>, ExprModel)>) -> Seq<ConstraintModel>
    decreases s,
{
    if s.len() == 0 {
        Seq::empty()
    } else {
        seq![csubst(s[0], m)] + csubst_list(s.subrange(1, s.len() as int), m)
    }
}

/// No key of `m` is named `n`: the lookup finds nothing.
pub proof fn lemma_lookup_absent(m: Seq<(Seq<char>, ExprModel)>, n: Seq<char>)
    requires
        forall|k: int| 0 <= k < m.len() ==> #[trigger] m[k].0 != n,
    ensures
        lookup(m, n) is None,
    decreases m.len(),
{
    if m.len() > 0 {
        let rest = m.subrange(1, m.len() as int);
        assert forall|k: int| 0 <= k < rest.len() implies #[trigger] rest[k].0 != n by {
            assert(rest[k] == m[k + 1]);
        }
        lemma_lookup_absent(rest, n);
    }
}

/// Substituting symbols that an expression does not use leaves it unchanged.
pub proof fn lemma_subst_unused(e: ExprModel, m: Seq<(Seq<char>, ExprModel)>)
    requires
        forall|k: int| 0 <= k < m.len() ==> !syms(e).contains(#[trigger] m[k].0),
    ensures
        subst(e, m) == e,
    decreases e,
{
    match e {
        ExprModel::Const(_) => {},
        ExprModel::Sym(n) => {
            assert forall|k: int| 0 <= k < m.len() implies #[trigger] m[k].0 != n by {
                assert(syms(e).contains(n));
            }
            lemma_lookup_absent(m, n);
        },
        ExprModel::Add(a, b) | ExprModel::Sub(a, b) | ExprModel::Mul(a, b) | ExprModel::Div(a, b)
        | ExprModel::Min(a, b) | ExprModel::Max(a, b) => {
            assert forall|k: int| 0 <= k < m.len() implies !syms(*a).contains(#[trigger] m[k].0) by {
                assert(!syms(e).contains(m[k].0));
            }
            assert forall|k: int| 0 <= k < m.len() implies !syms(*b).contains(#[trigger] m[k].0) by {
                assert(!syms(e).contains(m[k].0));
            }
            lemma_subst_unused(*a, m);
            lemma_subst_unused(*b, m);
        },
        ExprModel::IfElse(c, t, f) => {
            assert forall|k: int| 0 <= k < m.len() implies !csyms(*c).contains(#[trigger] m[k].0) by {
                assert(!syms(e).contains(m[k].0));
            }
            assert forall|k: int| 0 <= k < m.len() implies !syms(*t).contains(#[trigger] m[k].0) by {
                assert(!syms(e).contains(m[k].0));
            }
            assert forall|k: int| 0 <= k < m.len() implies !syms(*f).contains(#[trigger] m[k].0) by {
                assert(!syms(e).contains(m[k].0));
            }
            lemma_csubst_unused(*c, m);
            lemma_subst_unused(*t, m);
            lemma_subst_unused(*f, m);
        },
    }
}

/// Substituting symbols that a constraint does not use leaves it unchanged.
pub proof fn lemma_csubst_unused(c: ConstraintModel, m: Seq<(Seq<char>, ExprModel)>)
    requires
        forall|k: int| 0 <= k < m.len() ==> !csyms(c).contains(#[trigger] m[k].0),
    ensures
        csubst(c, m) == c,
    decreases c,
{
    match c {
        ConstraintModel::True => {},
        ConstraintModel::False => {},
        ConstraintModel::And(s) => { lemma_csubst_list_unused(s, m); },
        ConstraintModel::Or(s) => { lemma_csubst_list_unused(s, m); },
        ConstraintModel::Not(a) => { lemma_csubst_unused(*a, m); },
        ConstraintModel::Eq(a, b) | ConstraintModel::Ne(a, b) | ConstraintModel::Lt(a, b)
        | ConstraintModel::Le(a, b) | ConstraintModel::Gt(a, b) | ConstraintModel::Ge(a, b)
        | ConstraintModel::Divisible(a, b) => {
            assert forall|k: int| 0 <= k < m.len() implies !syms(a).contains(#[trigger] m[k].0) by {
                assert(!csyms(c).contains(m[k].0));
            }
            assert forall|k: int| 0 <= k < m.len() implies !syms(b).contains(#[trigger] m[k].0) by {
                assert(!csyms(c).contains(m[k].0));
            }
            lemma_subst_unused(a, m);
            lemma_subst_unused(b, m);
        },
    }
}

pub proof fn lemma_csubst_list_unused(s: Seq<ConstraintModel>, m: Seq<(Seq<char>, ExprModel)>)
    requires
        forall|k: int| 0 <= k < m.len() ==> !csyms_list(s).contains(#[trigger] m[k].0),
    ensures
        csubst_list(s, m) == s,
    decreases s,
{
    if s.len() > 0 {
        let rest = s.subrange(1, s.len() as int);
        assert forall|k: int| 0 <= k < m.len() implies !csyms(s[0]).contains(#[trigger] m[k].0) by {
            assert(!csyms_list(s).contains(m[k].0));
        }
        assert forall|k: int| 0 <= k < m.len() implies !csyms_list(rest).contains(#[trigger] m[k].0) by {
            assert(!csyms_list(s).contains(m[k].0));
        }
        lemma_csubst_unused(s[0], m);
        lemma_csubst_list_unused(rest, m);
        assert(csubst_list(s, m) =~= s);
    }
}

/// `substitute` with no mappings, or only mappings for symbols the expression does not
/// use, gives the expression back.
pub proof fn lemma_substitute_unused(e: ExprModel, m: Seq<(Seq<char>, ExprModel)>)
    requires
        forall|k: int| 0 <= k < m.len() ==> !syms(e).contains(#[trigger] m[k].0),
    ensures
        subst(e, m) == e,
        subst(e, Seq::empty()) == e,
{
    lemma_subst_unused(e, m);
    lemma_subst_unused(e, Seq::empty());
}

/// What `Expr::substitute` gives: the expression itself for an empty mapping, and for a
/// mapping whose symbols the expression does not use.
pub proof fn law_substitute_unused(e: Expr, m: Seq<(Sym, Expr)>)
    requires
        forall|k: int| 0 <= k < m.len() ==> !syms(e@).contains(#[trigger] m[k].0@),
    ensures
        subst(e@, mappings_model(m)) == e@,
        subst(e@, mappings_model(Seq::<(Sym, Expr)>::empty())) == e@,
{
    let mm = mappings_model(m);
    assert forall|k: int| 0 <= k < mm.len() implies !syms(e@).contains(#[trigger] mm[k].0) by {
        assert(mm[k].0 == m[k].0@);
    }
    lemma_substitute_unused(e@, mm);
    assert(mappings_model(Seq::<(Sym, Expr)>::empty()) =~= Seq::<(Seq<char>, ExprModel)>::empty());
}

fn lookup_mapping(mappings: &[(Sym, Expr)], s: &Sym) -> (r: Option<Expr>)
    ensures
        match r {
            Some(e) => lookup(mappings_model(mappings@), s@) == Some(e@),
            None => lookup(mappings_model(mappings@), s@) is None,
        },
{
    let ghost m = mappings_model(mappings@);
    let mut i: usize = 0;
    proof { assert(m.subrange(0, m.len() as int) =~= m); }
    while i < mappings.len()
        invariant
            i <= mappings@.len(),
            m == mappings_model(mappings@),
            m.len() == mappings@.len(),
            lookup(m, s@) == lookup(m.subrange(i as int, m.len() as int), s@),
        decreases mappings.len() - i,
    {
        let ghost rest = m.subrange(i as int, m.len() as int);
        proof {
            assert(rest[0] == m[i as int]);
            assert(rest.subrange(1, rest.len() as int) =~= m.subrange(i + 1, m.len() as int));
        }
        if mappings[i].0.0 == s.0 {
            return Some(mappings[i].1.clone());
        }
        i += 1;
    }
    None
}

fn subst_expr(e: &Expr, mappings: &[(Sym, Expr)]) -> (r: Expr)
    ensures
        r@ == subst(e@, mappings_model(mappings@)),
    decreases e@, 1nat,
{
    match e {
        Expr::Const(v) => Expr::Const(*v),
        Expr::Sym(s) => match lookup_mapping(mappings, s) {
            Some(x) => x,
            None => Expr::Sym(s.clone()),
        },
        Expr::Add(a, b) => Expr::add(subst_expr(a, mappings), subst_expr(b, mappings)),
        Expr::Sub(a, b) => Expr::sub(subst_expr(a, mappings), subst_expr(b, mappings)),
        Expr::Mul(a, b) => Expr::mul(subst_expr(a, mappings), subst_expr(b, mappings)),
        Expr::Div(a, b) => Expr::div(subst_expr(a, mappings), subst_expr(b, mappings)),
        Expr::Min(a, b) => Expr::min(subst_expr(a, mappings), subst_expr(b, mappings)),
        Expr::Max(a, b) => Expr::max(subst_expr(a, mappings), subst_expr(b, mappings)),
        Expr::IfElse { cond, then_expr, else_expr } => Expr::if_then_else(
            subst_constraint(cond, mappings),
            subst_expr(then_expr, mappings),
            subst_expr(else_expr, mappings),
        ),
    }
}

fn subst_constraint(c: &ConstraintExpr, mappings: &[(Sym, Expr)]) -> (r: ConstraintExpr)
    ensures
        r@ == csubst(c@, mappings_model(mappings@)),
    decreases c@, 1nat,
{
    match c {
        ConstraintExpr::True => ConstraintExpr::True,
        ConstraintExpr::False => ConstraintExpr::False,
        ConstraintExpr::And(v) => ConstraintExpr::And(subst_list(v, mappings, Ghost(c@))),
        ConstraintExpr::Or(v) => ConstraintExpr::Or(subst_list(v, mappings, Ghost(c@))),
        ConstraintExpr::Not(a) => ConstraintExpr::Not(Box::new(subst_constraint(a, mappings))),
        ConstraintExpr::Eq(a, b) => ConstraintExpr::Eq(subst_expr(a, mappings), subst_expr(b, mappings)),
        ConstraintExpr::Ne(a, b) => ConstraintExpr::Ne(subst_expr(a, mappings), subst_expr(b, mappings)),
        ConstraintExpr::Lt(a, b) => ConstraintExpr::Lt(subst_expr(a, mappings), subst_expr(b, mappings)),
        ConstraintExpr::Le(a, b) => ConstraintExpr::Le(subst_expr(a, mappings), subst_expr(b, mappings)),
        ConstraintExpr::Gt(a, b) => ConstraintExpr::Gt(subst_expr(a, mappings), subst_expr(b, mappings)),
        ConstraintExpr::Ge(a, b) => ConstraintExpr::Ge(subst_expr(a, mappings), subst_expr(b, mappings)),
        ConstraintExpr::Divisible { x, by } => ConstraintExpr::Divisible {
            x: subst_expr(x, mappings),
            by: subst_expr(by, mappings),
        },
    }
}

fn subst_list(v: &Vec<ConstraintExpr>, mappings: &[(Sym, Expr)], Ghost(outer): Ghost<ConstraintModel>) -> (r: Vec<ConstraintExpr>)
    requires
        outer == ConstraintModel::And(constraints_model(v@)) || outer == ConstraintModel::Or(constraints_model(v@)),
    ensures
        constraints_model(r@) == csubst_list(constraints_model(v@), mappings_model(mappings@)),
    decreases outer, 0nat,
{
    let ghost m = constraints_model(v@);
    let ghost mm = mappings_model(mappings@);
    proof { lemma_constraints_model_len(v@); assert(m.subrange(0, m.len() as int) =~= m); }
    let mut out: Vec<ConstraintExpr> = Vec::new();
    let mut i: usize = 0;
    while i < v.len()
        invariant
            i <= v.len(),
            m == constraints_model(v@),
            mm == mappings_model(mappings@),
            m.len() == v@.len(),
            forall|j: int| 0 <= j < v@.len() ==> #[trigger] m[j] == constraint_model(v@[j]),
            outer == ConstraintModel::And(m) || outer == ConstraintModel::Or(m),
            csubst_list(m, mm) == constraints_model(out@) + csubst_list(m.subrange(i as int, m.len() as int), mm),
        decreases v.len() - i,
    {
        let ghost rest = m.subrange(i as int, m.len() as int);
        proof {
            assert(rest[0] == m[i as int]);
            assert(rest.subrange(1, rest.len() as int) =~= m.subrange(i + 1, m.len() as int));
            if outer is And {
                assert(decreases_to!(outer => outer->And_0));
            } else {
                assert(decreases_to!(outer => outer->Or_0));
            }
            assert(decreases_to!(m => m[i as int]));
        }
        let c = subst_constraint(&v[i], mappings);
        proof {
            lemma_constraints_model_push(out@, c);
            assert(constraints_model(out@) + csubst_list(rest, mm) =~= constraints_model(out@.push(c))
                + csubst_list(m.subrange(i + 1, m.len() as int), mm));
        }
        out.push(c);
        i += 1;
    }
    proof {
        assert(m.subrange(v.len() as int, m.len() as int) =~= Seq::<ConstraintModel>::empty());
        assert(constraints_model(out@) + Seq::<ConstraintModel>::empty() =~= constraints_model(out@));
    }
    out
}

impl Expr {
    /// A new expression with every symbol replaced by its first image in `mappings`;
    /// unmatched symbols stay.
    pub fn substitute(&self, mappings: &[(Sym, Expr)]) -> (r: Expr)
        ensures
            r@ == subst(self@, mappings_model(mappings@)),
    {
        subst_expr(self, mappings)
    }
}

impl ConstraintExpr {
    /// A new constraint with every symbol replaced by its first image in `mappings`.
    pub fn substitute(&self, mappings: &[(Sym, Expr)]) -> (r: ConstraintExpr)
        ensures
            r@ == csubst(self@, mappings_model(mappings@)),
    {
        subst_constraint(self, mappings)
    }
}

/// Non-negative value of an expression built from constants by `+` and `*` without
/// leaving `u64`; other forms count when they evaluate to a non-negative `i64`.
pub open spec fn simp(e: ExprModel) -> Option<int>
    decreases e,
{
    match e {
        ExprModel::Const(v) => if v >= 0 { Some(v) } else { None },
        ExprModel::Sym(_) => None,
        ExprModel::Add(a, b) => match (simp(*a), simp(*b)) {
            (Some(x), Some(y)) => if x + y <= u64::MAX { Some(x + y) } else { None },
            _ => None,
        },
        ExprModel::Mul(a, b) => match (simp(*a), simp(*b)) {
            (Some(x), Some(y)) => if x * y <= u64::MAX { Some(x * y) } else { None },
            _ => None,
        },
        _ => match eval(e) {
            Some(v) => if v >= 0 { Some(v) } else { None },
            None => None,
        },
    }
}

/// The forms that `simp` evaluates through `eval` do not overflow `i64`.
pub open spec fn simp_fits(e: ExprModel) -> bool
    decreases e,
{
    match e {
        ExprModel::Const(_) => true,
        ExprModel::Sym(_) => true,
        ExprModel::Add(a, b) => simp_fits(*a) && (simp(*a) is Some ==> simp_fits(*b)),
        ExprModel::Mul(a, b) => simp_fits(*a) && (simp(*a) is Some ==> simp_fits(*b)),
        _ => fits(e),
    }
}

fn simplify(e: &Expr) -> (r: Option<u64>)
    requires
        simp_fits(e@),
    ensures
        match r {
            Some(v) => simp(e@) == Some(v as int),
            None => simp(e@) is None,
        },
    decreases e@,
{
    match e {
        Expr::Const(v) => if *v >= 0 { Some(*v as u64) } else { None },
        Expr::Sym(_) => None,
        Expr::Add(a, b) => {
            let x = simplify(a)?;
            let y = simplify(b)?;
            x.checked_add(y)
        },
        Expr::Mul(a, b) => {
            let x = simplify(a)?;
            let y = simplify(b)?;
            x.checked_mul(y)
        },
        _ => e.as_const(),
    }
}

impl Expr {
    /// Reduces the expression to a non-negative constant where it can.
    pub fn simplify_constant(&self) -> (r: Option<u64>)
        requires
            simp_fits(self@),
        ensures
            match r {
                Some(v) => simp(self@) == Some(v as int),
                None => simp(self@) is None,
            },
    {
        simplify(self)
    }
}

} // verus!
