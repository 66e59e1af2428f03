//! Expressions and constraints written out as text, operators fully parenthesised.
use vstd::prelude::*;

use crate::text::{push_signed, push_str, signed_decimal};
use super::expr::{
    constraint_model, constraints_model, lemma_constraints_model_len, ConstraintExpr,
    ConstraintModel, Expr, ExprModel,
};

verus! {

/// The text of an expression: `(a + b)`, `min(a, b)`, `IF (c) {a} ELSE {b}`.
pub open spec fn expr_show(e: ExprModel) -> Seq<char>
    decreases e,
{
    match e {
        ExprModel::Const(v) => signed_decimal(v),
        ExprModel::Sym(n) => n,
        ExprModel::Add(a, b) => "("@ + expr_show(*a) + " + "@ + expr_show(*b) + ")"@,
        ExprModel::Sub(a, b) => "("@ + expr_show(*a) + " - "@ + expr_show(*b) + ")"@,
        ExprModel::Mul(a, b) => "("@ + expr_show(*a) + " * "@ + expr_show(*b) + ")"@,
        ExprModel::Div(a, b) => "("@ + expr_show(*a) + " / "@ + expr_show(*b) + ")"@,
        ExprModel::Min(a, b) => "min("@ + expr_show(*a) + ", "@ + expr_show(*b) + ")"@,
        ExprModel::Max(a, b) => "max("@ + expr_show(*a) + ", "@ + expr_show(*b) + ")"@,
        ExprModel::IfElse(c, t, f) => "IF ("@ + cons_show(*c) + ") {"@ + expr_show(*t) + "} ELSE {"@
            + expr_show(*f) + "}"@,
    }
}

/// The text of a constraint: `true`, `(a && b)`, `!(a)`, `x <= y`, `divisible(x, y)`.
pub open spec fn cons_show(c: ConstraintModel) -> Seq<char>
    decreases c,
{
    match c {
        ConstraintModel::True => "true"@,
        ConstraintModel::False => "false"@,
        ConstraintModel::And(s) => "("@ + cons_list_show(s, " && "@) + ")"@,
        ConstraintModel::Or(s) => "("@ + cons_list_show(s, " || "@) + ")"@,
        ConstraintModel::Not(a) => "!("@ + cons_show(*a) + ")"@,
        ConstraintModel::Eq(a, b) => expr_show(a) + " == "@ + expr_show(b),
        ConstraintModel::Ne(a, b) => expr_show(a) + " != "@ + expr_show(b),
        ConstraintModel::Lt(a, b) => expr_show(a) + " < "@ + expr_show(b),
        ConstraintModel::Le(a, b) => expr_show(a) + " <= "@ + expr_show(b),
        ConstraintModel::Gt(a, b) => expr_show(a) + " > "@ + expr_show(b),
        ConstraintModel::Ge(a, b) => expr_show(a) + " >= "@ + expr_show(b),
        ConstraintModel::Divisible(x, by) => "divisible("@ + expr_show(x) + ", "@ + expr_show(by) + ")"@,
    }
}

/// The members' texts joined by `sep`.
pub open spec fn cons_list_show(s: Seq<ConstraintModel>, sep: Seq<char>) -> Seq<char>
    decreases s,
{
    if s.len() == 0 {
        Seq::empty()
    } else if s.len() == 1 {
        cons_show(s[0])
    } else {
        cons_show(s[0]) + sep + cons_list_show(s.subrange(1, s.len() as int), sep)
    }
}

/// Appends the text of an expression.
pub fn push_expr(s: &mut String, e: &Expr)
    ensures
        final(s)@ == old(s)@ + expr_show(e@),
    decreases e@, 1nat,
{
    match e {
        Expr::Const(v) => push_signed(s, *v),
        Expr::Sym(n) => push_str(s, n.0.as_str()),
        Expr::Add(a, b) => {
            proof {
                assert(e@ == ExprModel::Add(Box::new(a@), Box::new(b@)));
                assert(decreases_to!(e@ => e@->Add_0));
                assert(decreases_to!(e@ => e@->Add_1));
            }
            push_str(s, "(");
            push_expr(s, a);
            push_str(s, " + ");
            push_expr(s, b);
            push_str(s, ")");
            proof { assert(s@ =~= old(s)@ + expr_show(e@)); }
        },
        Expr::Sub(a, b) => {
            proof { assert(e@ == ExprModel::Sub(Box::new(a@), Box::new(b@))); }
            push_str(s, "(");
            push_expr(s, a);
            push_str(s, " - ");
            push_expr(s, b);
            push_str(s, ")");
            proof { assert(s@ =~= old(s)@ + expr_show(e@)); }
        },
        Expr::Mul(a, b) => {
            proof { assert(e@ == ExprModel::Mul(Box::new(a@), Box::new(b@))); }
            push_str(s, "(");
            push_expr(s, a);
            push_str(s, " * ");
            push_expr(s, b);
            push_str(s, ")");
            proof { assert(s@ =~= old(s)@ + expr_show(e@)); }
        },
        Expr::Div(a, b) => {
            proof { assert(e@ == ExprModel::Div(Box::new(a@), Box::new(b@))); }
            push_str(s, "(");
            push_expr(s, a);
            push_str(s, " / ");
            push_expr(s, b);
            push_str(s, ")");
            proof { assert(s@ =~= old(s)@ + expr_show(e@)); }
        },
        Expr::Min(a, b) => {
            proof { assert(e@ == ExprModel::Min(Box::new(a@), Box::new(b@))); }
            push_str(s, "min(");
            push_expr(s, a);
            push_str(s, ", ");
            push_expr(s, b);
            push_str(s, ")");
            proof { assert(s@ =~= old(s)@ + expr_show(e@)); }
        },
        Expr::Max(a, b) => {
            proof { assert(e@ == ExprModel::Max(Box::new(a@), Box::new(b@))); }
            push_str(s, "max(");
            push_expr(s, a);
            push_str(s, ", ");
            push_expr(s, b);
            push_str(s, ")");
            proof { assert(s@ =~= old(s)@ + expr_show(e@)); }
        },
        Expr::IfElse { cond, then_expr, else_expr } => {
            push_str(s, "IF (");
            push_cons(s, cond);
            push_str(s, ") {");
            push_expr(s, then_expr);
            push_str(s, "} ELSE {");
            push_expr(s, else_expr);
            push_str(s, "}");
            proof {
                assert(s@ =~= old(s)@ + expr_show(e@));
            }
        },
    }
}

/// Appends the text of a constraint.
pub fn push_cons(s: &mut String, c: &ConstraintExpr)
    ensures
        final(s)@ == old(s)@ + cons_show(c@),
    decreases c@, 1nat,
{
    match c {
        ConstraintExpr::True => push_str(s, "true"),
        ConstraintExpr::False => push_str(s, "false"),
        ConstraintExpr::And(v) => {
            push_str(s, "(");
            push_cons_list(s, v, " && ", Ghost(c@));
            push_str(s, ")");
            proof { assert(s@ =~= old(s)@ + cons_show(c@)); }
        },
        ConstraintExpr::Or(v) => {
            push_str(s, "(");
            push_cons_list(s, v, " || ", Ghost(c@));
            push_str(s, ")");
            proof { assert(s@ =~= old(s)@ + cons_show(c@)); }
        },
        ConstraintExpr::Not(a) => {
            push_str(s, "!(");
            push_cons(s, a);
            push_str(s, ")");
            proof { assert(s@ =~= old(s)@ + cons_show(c@)); }
        },
        ConstraintExpr::Eq(a, b) => {
            push_expr(s, a);
            push_str(s, " == ");
            push_expr(s, b);
            proof { assert(s@ =~= old(s)@ + cons_show(c@)); }
        },
        ConstraintExpr::Ne(a, b) => {
            push_expr(s, a);
            push_str(s, " != ");
            push_expr(s, b);
            proof { assert(s@ =~= old(s)@ + cons_show(c@)); }
        },
        ConstraintExpr::Lt(a, b) => {
            push_expr(s, a);
            push_str(s, " < ");
            push_expr(s, b);
            proof { assert(s@ =~= old(s)@ + cons_show(c@)); }
        },
        ConstraintExpr::Le(a, b) => {
            push_expr(s, a);
            push_str(s, " <= ");
            push_expr(s, b);
            proof { assert(s@ =~= old(s)@ + cons_show(c@)); }
        },
        ConstraintExpr::Gt(a, b) => {
            push_expr(s, a);
            push_str(s, " > ");
            push_expr(s, b);
            proof { assert(s@ =~= old(s)@ + cons_show(c@)); }
        },
        ConstraintExpr::Ge(a, b) => {
            push_expr(s, a);
            push_str(s, " >= ");
            push_expr(s, b);
            proof { assert(s@ =~= old(s)@ + cons_show(c@)); }
        },
        ConstraintExpr::Divisible { x, by } => {
            push_str(s, "divisible(");
            push_expr(s, x);
            push_str(s, ", ");
            push_expr(s, by);
            push_str(s, ")");
            proof { assert(s@ =~= old(s)@ + cons_show(c@)); }
        },
    }
}

fn push_cons_list(s: &mut String, v: &Vec<ConstraintExpr>, sep: &str, Ghost(outer): Ghost<ConstraintModel>)
    requires
        outer == ConstraintModel::And(constraints_model(v@)) || outer == ConstraintModel::Or(constraints_model(v@)),
    ensures
        final(s)@ == old(s)@ + cons_list_show(constraints_model(v@), sep@),
    decreases outer, 0nat,
{
    let ghost m = constraints_model(v@);
    proof { lemma_constraints_model_len(v@); }
    let mut i: usize = 0;
    proof { assert(m.subrange(0, m.len() as int) =~= m); }
    while i < v.len()
        invariant
            i <= v.len(),
            m == constraints_model(v@),
            m.len() == v@.len(),
            forall|j: int| 0 <= j < v@.len() ==> #[trigger] m[j] == constraint_model(v@[j]),
            outer == ConstraintModel::And(m) || outer == ConstraintModel::Or(m),
            old(s)@ + cons_list_show(m, sep@) == s@ + (if i == 0 || i >= m.len() { Seq::empty() } else { sep@ })
                + cons_list_show(m.subrange(i as int, m.len() as int), sep@),
        decreases v.len() - i,
    {
        let ghost rest = m.subrange(i as int, m.len() as int);
        proof {
            assert(rest[0] == m[i as int]);
            assert(rest.subrange(1, rest.len() as int) =~= m.subrange(i + 1, m.len() as int));
            if outer == ConstraintModel::And(m) {
                assert(decreases_to!(outer => outer->And_0));
            } else {
                assert(decreases_to!(outer => outer->Or_0));
            }
            assert(decreases_to!(m => m[i as int]));
        }
        if i > 0 {
            push_str(s, sep);
        }
        let ghost before = s@;
        push_cons(s, &v[i]);
        proof {
            if rest.len() == 1 {
                assert(m.subrange(i + 1, m.len() as int) =~= Seq::<ConstraintModel>::empty());
                assert(s@ + cons_list_show(m.subrange(i + 1, m.len() as int), sep@) =~= s@);
            } else {
                assert(before + (cons_show(m[i as int]) + sep@ + cons_list_show(m.subrange(i + 1, m.len() as int), sep@))
                    =~= s@ + sep@ + cons_list_show(m.subrange(i + 1, m.len() as int), sep@));
            }
        }
        i += 1;
    }
    proof {
        assert(m.subrange(v.len() as int, m.len() as int) =~= Seq::<ConstraintModel>::empty());
        assert(s@ + Seq::<char>::empty() =~= s@);
    }
}

impl Expr {
    /// The expression as text.
    pub fn text(&self) -> (r: String)
        ensures
            r@ == expr_show(self@),
    {
        let mut s = String::new();
        push_expr(&mut s, self);
        proof { assert(s@ =~= expr_show(self@)); }
        s
    }
}

impl ConstraintExpr {
    /// The constraint as text.
    pub fn text(&self) -> (r: String)
        ensures
            r@ == cons_show(self@),
    {
        let mut s = String::new();
        push_cons(&mut s, self);
        proof { assert(s@ =~= cons_show(self@)); }
        s
    }
}

} // verus!
