//! Checked coordinate maps over named architecture axes.
use vstd::prelude::*;

use crate::arch::axis::Axis;
use crate::arch::index::{affine_eval, affine_fits, affine_vars, AffineExpression, AffineModel, EndpointParseError};
use crate::text::{seq_lt, signed_decimal};

verus! {

/// Why an affine map could not be built or applied.
#[derive(Debug, PartialEq, Eq)]
pub enum AffineError {
    Parse(EndpointParseError),
    InvalidMap(String),
    UnknownAxis(String),
    UnknownVariable(String),
    Arity { expected: usize, actual: usize },
    Evaluation(String),
}

/// Model of an [`AffineError`].
pub ghost enum AffineErrorModel {
    Parse(Seq<char>, int),
    InvalidMap(Seq<char>),
    UnknownAxis(Seq<char>),
    UnknownVariable(Seq<char>),
    Arity(int, int),
    Evaluation(Seq<char>),
}

impl View for AffineError {
    type V = AffineErrorModel;

    open spec fn view(&self) -> AffineErrorModel {
        match self {
            AffineError::Parse(e) => AffineErrorModel::Parse(e.message@, e.position as int),
            AffineError::InvalidMap(m) => AffineErrorModel::InvalidMap(m@),
            AffineError::UnknownAxis(n) => AffineErrorModel::UnknownAxis(n@),
            AffineError::UnknownVariable(n) => AffineErrorModel::UnknownVariable(n@),
            AffineError::Arity { expected, actual } => AffineErrorModel::Arity(*expected as int, *actual as int),
            AffineError::Evaluation(m) => AffineErrorModel::Evaluation(m@),
        }
    }
}

impl AffineError {
    /// The message of this error, as `Display` shows it.
    pub fn message(&self) -> (r: String)
        ensures
            r@ == error_text(self@),
    {
        match self {
            AffineError::Parse(e) => {
                let mut s = e.message.clone();
                crate::text::push_str(&mut s, " at position ");
                crate::text::push_decimal(&mut s, e.position as u64);
                s
            },
            AffineError::InvalidMap(m) => m.clone(),
            AffineError::UnknownAxis(n) => {
                let mut s = crate::text::owned("unknown affine-map axis '");
                crate::text::push_str(&mut s, n.as_str());
                crate::text::push_str(&mut s, "'");
                s
            },
            AffineError::UnknownVariable(n) => {
                let mut s = crate::text::owned("unknown affine variable '");
                crate::text::push_str(&mut s, n.as_str());
                crate::text::push_str(&mut s, "'");
                s
            },
            AffineError::Arity { expected, actual } => {
                let mut s = crate::text::owned("affine map expects ");
                crate::text::push_decimal(&mut s, *expected as u64);
                crate::text::push_str(&mut s, " coordinates, got ");
                crate::text::push_decimal(&mut s, *actual as u64);
                s
            },
            AffineError::Evaluation(m) => m.clone(),
        }
    }
}

/// The text of an error.
pub open spec fn error_text(e: AffineErrorModel) -> Seq<char> {
    match e {
        AffineErrorModel::Parse(m, p) => m + " at position "@ + crate::text::decimal(p as nat),
        AffineErrorModel::InvalidMap(m) => m,
        AffineErrorModel::UnknownAxis(n) => "unknown affine-map axis '"@ + n + "'"@,
        AffineErrorModel::UnknownVariable(n) => "unknown affine variable '"@ + n + "'"@,
        AffineErrorModel::Arity(e, a) => "affine map expects "@ + crate::text::decimal(e as nat)
            + " coordinates, got "@ + crate::text::decimal(a as nat),
        AffineErrorModel::Evaluation(m) => m,
    }
}

/// A checked coordinate map over named architecture axes.
#[derive(Debug, PartialEq, Eq)]
pub struct AffineMap {
    source_axes: Vec<Axis>,
    target_axes: Vec<Axis>,
    expressions: Vec<AffineExpression>,
}

/// Model of an [`AffineMap`]: its axes and one expression per target axis.
pub ghost struct AffineMapModel {
    pub source: Seq<Axis>,
    pub target: Seq<Axis>,
    pub exprs: Seq<AffineModel>,
}

impl View for AffineMap {
    type V = AffineMapModel;

    closed spec fn view(&self) -> AffineMapModel {
        AffineMapModel {
            source: self.source_axes@,
            target: self.target_axes@,
            exprs: exprs_model(self.expressions@),
        }
    }
}

pub open spec fn exprs_model(v: Seq<AffineExpression>) -> Seq<AffineModel> {
    v.map_values(|e: AffineExpression| e@)
}

/// The names of a list of axes.
pub open spec fn axis_names(axes: Seq<Axis>) -> Set<Seq<char>> {
    Set::new(|n: Seq<char>| exists|i: int| 0 <= i < axes.len() && #[trigger] axes[i].name@ == n)
}

/// `v` occurs in `e` and names no axis.
pub open spec fn unknown_in(e: AffineModel, names: Set<Seq<char>>, v: Seq<char>) -> bool {
    affine_vars(e).contains(v) && !names.contains(v)
}

pub open spec fn has_unknown(e: AffineModel, names: Set<Seq<char>>) -> bool {
    exists|v: Seq<char>| unknown_in(e, names, v)
}

/// `v` is the least (in string order) unknown variable of `e`.
pub open spec fn least_unknown(e: AffineModel, names: Set<Seq<char>>, v: Seq<char>) -> bool {
    unknown_in(e, names, v) && forall|w: Seq<char>| unknown_in(e, names, w) ==> !seq_lt(w, v)
}

/// `i` is the first expression with an unknown variable.
pub open spec fn first_unknown_expr(exprs: Seq<AffineModel>, names: Set<Seq<char>>, i: int) -> bool {
    0 <= i < exprs.len() && has_unknown(exprs[i], names)
        && forall|j: int| 0 <= j < i ==> !has_unknown(#[trigger] exprs[j], names)
}

/// What [`AffineMap::new`] gives for these parts.
pub open spec fn new_outcome(src: Seq<Axis>, tgt: Seq<Axis>, exprs: Seq<AffineModel>) -> Result<AffineMapModel, AffineErrorModel> {
    if exprs.len() != tgt.len() {
        Err(AffineErrorModel::Arity(tgt.len() as int, exprs.len() as int))
    } else if exists|i: int| first_unknown_expr(exprs, axis_names(src), i) {
        let i = choose|i: int| first_unknown_expr(exprs, axis_names(src), i);
        Err(AffineErrorModel::UnknownVariable(choose|v: Seq<char>| least_unknown(exprs[i], axis_names(src), v)))
    } else {
        Ok(AffineMapModel { source: src, target: tgt, exprs })
    }
}

pub open spec fn map_outcome(r: Result<AffineMap, AffineError>) -> Result<AffineMapModel, AffineErrorModel> {
    match r {
        Ok(m) => Ok(m@),
        Err(e) => Err(e@),
    }
}

/// Whether some axis is named `n`.
fn axis_known(axes: &[Axis], n: &str) -> (r: bool)
    ensures
        r == axis_names(axes@).contains(n@),
{
    let mut i: usize = 0;
    while i < axes.len()
        invariant
            i <= axes.len(),
            forall|k: int| 0 <= k < i ==> axes@[k].name@ != n@,
        decreases axes.len() - i,
    {
        if crate::text::str_eq(axes[i].name.as_str(), n) {
            assert(axis_names(axes@).contains(n@)) by { assert(axes@[i as int].name@ == n@); }
            return true;
        }
        i += 1;
    }
    false
}

proof fn lemma_least_unique(e: AffineModel, names: Set<Seq<char>>, v: Seq<char>)
    requires
        least_unknown(e, names, v),
    ensures
        (choose|w: Seq<char>| least_unknown(e, names, w)) == v,
{
    let w = choose|w: Seq<char>| least_unknown(e, names, w);
    crate::text::lemma_seq_lt_total(v, w);
}

/// The least unknown variable of `e`, if it has one.
fn least_unknown_var(e: &AffineExpression, axes: &[Axis]) -> (r: Option<String>)
    ensures
        match r {
            Some(v) => least_unknown(e@, axis_names(axes@), v@),
            None => !has_unknown(e@, axis_names(axes@)),
        },
{
    let vars = e.variables();
    let ghost names = axis_names(axes@);
    let mut best: Option<usize> = None;
    let mut k: usize = 0;
    while k < vars.len()
        invariant
            k <= vars.len(),
            crate::arch::index::string_names(vars@) == affine_vars(e@),
            names == axis_names(axes@),
            match best {
                Some(b) => b < k && unknown_in(e@, names, vars@[b as int]@)
                    && forall|j: int| 0 <= j < k && unknown_in(e@, names, #[trigger] vars@[j]@) ==> !seq_lt(vars@[j]@, vars@[b as int]@),
                None => forall|j: int| 0 <= j < k ==> !unknown_in(e@, names, #[trigger] vars@[j]@),
            },
        decreases vars.len() - k,
    {
        proof {
            assert(affine_vars(e@).contains(vars@[k as int]@)) by {
                assert(crate::arch::index::string_names(vars@).contains(vars@[k as int]@));
            }
        }
        if !axis_known(axes, vars[k].as_str()) {
            match best {
                None => {
                    proof { crate::text::lemma_seq_lt_irreflexive(vars@[k as int]@); }
                    best = Some(k);
                },
                Some(b) => {
                    let ck = crate::text::chars_of(vars[k].as_str());
                    let cb = crate::text::chars_of(vars[b].as_str());
                    if crate::text::chars_lt(ck.as_slice(), cb.as_slice()) {
                        proof {
                            crate::text::lemma_seq_lt_irreflexive(vars@[k as int]@);
                            assert forall|j: int| 0 <= j < k + 1 && unknown_in(e@, names, #[trigger] vars@[j]@)
                                implies !seq_lt(vars@[j]@, vars@[k as int]@) by {
                                if j < k && seq_lt(vars@[j]@, vars@[k as int]@) {
                                    crate::text::lemma_seq_lt_transitive(vars@[j]@, vars@[k as int]@, vars@[b as int]@);
                                }
                            }
                        }
                        best = Some(k);
                    }
                },
            }
        }
        k += 1;
    }
    match best {
        None => {
            proof {
                assert forall|v: Seq<char>| !unknown_in(e@, names, v) by {
                    if unknown_in(e@, names, v) {
                        assert(crate::arch::index::string_names(vars@).contains(v));
                        let j = choose|j: int| 0 <= j < vars@.len() && #[trigger] vars@[j]@ == v;
                        assert(!unknown_in(e@, names, vars@[j]@));
                    }
                }
            }
            None
        },
        Some(b) => {
            proof {
                assert forall|w: Seq<char>| unknown_in(e@, names, w) implies !seq_lt(w, vars@[b as int]@) by {
                    assert(crate::arch::index::string_names(vars@).contains(w));
                    let j = choose|j: int| 0 <= j < vars@.len() && #[trigger] vars@[j]@ == w;
                    assert(unknown_in(e@, names, vars@[j]@));
                }
            }
            Some(vars[b].clone())
        },
    }
}

impl AffineMap {
    /// A map from `source_axes` to `target_axes`, one expression per target axis, whose
    /// variables all name source axes.
    pub fn new(source_axes: &[Axis], target_axes: &[Axis], expressions: Vec<AffineExpression>) -> (r: Result<AffineMap, AffineError>)
        ensures
            map_outcome(r) == new_outcome(source_axes@, target_axes@, exprs_model(expressions@)),
    {
        let ghost exprs = exprs_model(expressions@);
        let ghost names = axis_names(source_axes@);
        if expressions.len() != target_axes.len() {
            return Err(AffineError::Arity { expected: target_axes.len(), actual: expressions.len() });
        }
        let mut i: usize = 0;
        while i < expressions.len()
            invariant
                i <= expressions.len(),
                expressions.len() == target_axes.len(),
                exprs == exprs_model(expressions@),
                names == axis_names(source_axes@),
                forall|j: int| 0 <= j < i ==> !has_unknown(#[trigger] exprs[j], names),
            decreases expressions.len() - i,
        {
            match least_unknown_var(&expressions[i], source_axes) {
                Some(v) => {
                    proof {
                        assert(exprs[i as int] == expressions@[i as int]@);
                        assert(first_unknown_expr(exprs, names, i as int));
                        let c = choose|c: int| first_unknown_expr(exprs, names, c);
                        assert(first_unknown_expr(exprs, names, c));
                        if c < i {
                            assert(!has_unknown(exprs[c], names));
                            assert(false);
                        }
                        if c > i {
                            assert(!has_unknown(exprs[i as int], names));
                            assert(false);
                        }
                        assert(c == i);
                        lemma_least_unique(exprs[i as int], names, v@);
                    }
                    return Err(AffineError::UnknownVariable(v));
                },
                None => {},
            }
            i += 1;
        }
        proof {
            assert forall|c: int| !first_unknown_expr(exprs, names, c) by {
                if 0 <= c < exprs.len() {
                    assert(!has_unknown(exprs[c], names));
                }
            }
        }
        Ok(AffineMap {
            source_axes: crate::arch::axis::clone_axes(source_axes),
            target_axes: crate::arch::axis::clone_axes(target_axes),
            expressions,
        })
    }

    /// The map that sends every coordinate of `axes` to itself.
    pub fn identity(axes: &[Axis]) -> (r: AffineMap)
        ensures
            r@ == identity_model(axes@),
    {
        let mut expressions: Vec<AffineExpression> = Vec::new();
        let mut i: usize = 0;
        while i < axes.len()
            invariant
                i <= axes.len(),
                expressions@.len() == i,
                forall|k: int| 0 <= k < i ==> (#[trigger] expressions@[k])@ == AffineModel::Variable(axes@[k].name@),
            decreases axes.len() - i,
        {
            expressions.push(AffineExpression::variable(axes[i].name.as_str()));
            i += 1;
        }
        proof { assert(identity_model(axes@).exprs =~= exprs_model(expressions@)); }
        AffineMap {
            source_axes: crate::arch::axis::clone_axes(axes),
            target_axes: crate::arch::axis::clone_axes(axes),
            expressions,
        }
    }

    pub fn source_axes(&self) -> (r: &[Axis])
        ensures
            r@ == self@.source,
    {
        self.source_axes.as_slice()
    }

    pub fn target_axes(&self) -> (r: &[Axis])
        ensures
            r@ == self@.target,
    {
        self.target_axes.as_slice()
    }

    pub fn expressions(&self) -> (r: &[AffineExpression])
        ensures
            exprs_model(r@) == self@.exprs,
    {
        self.expressions.as_slice()
    }
}

/// The identity map over `axes`.
pub open spec fn identity_model(axes: Seq<Axis>) -> AffineMapModel {
    AffineMapModel {
        source: axes,
        target: axes,
        exprs: axes.map_values(|a: Axis| AffineModel::Variable(a.name@)),
    }
}


/// The text that `Debug` shows for an expression.
pub open spec fn debug_text(e: AffineModel) -> Seq<char>
    decreases e,
{
    match e {
        AffineModel::Constant(v) => "Constant("@ + signed_decimal(v) + ")"@,
        AffineModel::Variable(n) => "Variable(\""@ + n + "\")"@,
        AffineModel::Add(a, b) => "Add("@ + debug_text(*a) + ", "@ + debug_text(*b) + ")"@,
        AffineModel::Sub(a, b) => "Sub("@ + debug_text(*a) + ", "@ + debug_text(*b) + ")"@,
        AffineModel::Mul(c, a) => "Mul("@ + signed_decimal(c) + ", "@ + debug_text(*a) + ")"@,
        AffineModel::FloorDiv(a, d) => "FloorDiv("@ + debug_text(*a) + ", "@ + signed_decimal(d) + ")"@,
        AffineModel::CeilDiv(a, d) => "CeilDiv("@ + debug_text(*a) + ", "@ + signed_decimal(d) + ")"@,
        AffineModel::Mod(a, d) => "Mod("@ + debug_text(*a) + ", "@ + signed_decimal(d) + ")"@,
    }
}

/// Appends the `Debug` text of `e`.
pub fn push_debug(e: &AffineExpression, s: &mut String)
    ensures
        final(s)@ == old(s)@ + debug_text(e@),
    decreases e,
{
    match e {
        AffineExpression::Constant(v) => {
            crate::text::push_str(s, "Constant(");
            crate::text::push_signed(s, *v);
            crate::text::push_str(s, ")");
            proof { assert(old(s)@ + "Constant("@ + signed_decimal(*v as int) + ")"@ =~= old(s)@ + debug_text(e@)); }
        },
        AffineExpression::Variable(n) => {
            crate::text::push_str(s, "Variable(\"");
            crate::text::push_str(s, n.as_str());
            crate::text::push_str(s, "\")");
            proof { assert(old(s)@ + "Variable(\""@ + n@ + "\")"@ =~= old(s)@ + debug_text(e@)); }
        },
        AffineExpression::Add(a, b) => {
            crate::text::push_str(s, "Add(");
            push_debug(a, s);
            crate::text::push_str(s, ", ");
            push_debug(b, s);
            crate::text::push_str(s, ")");
            proof { assert(old(s)@ + "Add("@ + debug_text(a@) + ", "@ + debug_text(b@) + ")"@ =~= old(s)@ + debug_text(e@)); }
        },
        AffineExpression::Sub(a, b) => {
            crate::text::push_str(s, "Sub(");
            push_debug(a, s);
            crate::text::push_str(s, ", ");
            push_debug(b, s);
            crate::text::push_str(s, ")");
            proof { assert(old(s)@ + "Sub("@ + debug_text(a@) + ", "@ + debug_text(b@) + ")"@ =~= old(s)@ + debug_text(e@)); }
        },
        AffineExpression::Mul(c, a) => {
            crate::text::push_str(s, "Mul(");
            crate::text::push_signed(s, *c);
            crate::text::push_str(s, ", ");
            push_debug(a, s);
            crate::text::push_str(s, ")");
            proof { assert(old(s)@ + "Mul("@ + signed_decimal(*c as int) + ", "@ + debug_text(a@) + ")"@ =~= old(s)@ + debug_text(e@)); }
        },
        AffineExpression::FloorDiv(a, d) => {
            crate::text::push_str(s, "FloorDiv(");
            push_debug(a, s);
            crate::text::push_str(s, ", ");
            crate::text::push_signed(s, *d);
            crate::text::push_str(s, ")");
            proof { assert(old(s)@ + "FloorDiv("@ + debug_text(a@) + ", "@ + signed_decimal(*d as int) + ")"@ =~= old(s)@ + debug_text(e@)); }
        },
        AffineExpression::CeilDiv(a, d) => {
            crate::text::push_str(s, "CeilDiv(");
            push_debug(a, s);
            crate::text::push_str(s, ", ");
            crate::text::push_signed(s, *d);
            crate::text::push_str(s, ")");
            proof { assert(old(s)@ + "CeilDiv("@ + debug_text(a@) + ", "@ + signed_decimal(*d as int) + ")"@ =~= old(s)@ + debug_text(e@)); }
        },
        AffineExpression::Mod(a, d) => {
            crate::text::push_str(s, "Mod(");
            push_debug(a, s);
            crate::text::push_str(s, ", ");
            crate::text::push_signed(s, *d);
            crate::text::push_str(s, ")");
            proof { assert(old(s)@ + "Mod("@ + debug_text(a@) + ", "@ + signed_decimal(*d as int) + ")"@ =~= old(s)@ + debug_text(e@)); }
        },
    }
}

/// The bindings of the source axes to the coordinates, the last axis first (so that, as
/// with a map, a later axis of the same name wins).
pub open spec fn coord_bindings(src: Seq<Axis>, coords: Seq<i64>) -> Seq<(String, i64)> {
    Seq::new(src.len(), |k: int| (src[src.len() - 1 - k].name, coords[src.len() - 1 - k]))
}

/// `i` is the first expression that does not evaluate.
pub open spec fn first_failing(exprs: Seq<AffineModel>, vals: Seq<(String, i64)>, i: int) -> bool {
    0 <= i < exprs.len() && affine_eval(exprs[i], vals) is None
        && forall|j: int| 0 <= j < i ==> affine_eval(#[trigger] exprs[j], vals) is Some
}

/// Evaluation stays in `i64` for every expression that is reached.
pub open spec fn apply_fits(m: AffineMapModel, coords: Seq<i64>) -> bool {
    coords.len() == m.source.len() ==> forall|i: int|
        0 <= i < m.exprs.len() && (forall|j: int| 0 <= j < i ==> affine_eval(#[trigger] m.exprs[j], coord_bindings(m.source, coords)) is Some)
            ==> affine_fits(#[trigger] m.exprs[i], coord_bindings(m.source, coords))
}

/// What [`AffineMap::apply`] gives.
pub open spec fn apply_outcome(m: AffineMapModel, coords: Seq<i64>) -> Result<Seq<int>, AffineErrorModel> {
    if coords.len() != m.source.len() {
        Err(AffineErrorModel::Arity(m.source.len() as int, coords.len() as int))
    } else if exists|i: int| first_failing(m.exprs, coord_bindings(m.source, coords), i) {
        let i = choose|i: int| first_failing(m.exprs, coord_bindings(m.source, coords), i);
        Err(AffineErrorModel::Evaluation("could not evaluate affine expression "@ + debug_text(m.exprs[i])))
    } else {
        Ok(Seq::new(m.exprs.len(), |i: int| affine_eval(m.exprs[i], coord_bindings(m.source, coords))->0))
    }
}

/// The values of a list of `i64`, as integers.
pub open spec fn ints(v: Seq<i64>) -> Seq<int> {
    v.map_values(|x: i64| x as int)
}

pub open spec fn values_outcome(r: Result<Vec<i64>, AffineError>) -> Result<Seq<int>, AffineErrorModel> {
    match r {
        Ok(v) => Ok(ints(v@)),
        Err(e) => Err(e@),
    }
}

impl AffineMap {
    /// The target coordinates of `coordinates`.
    pub fn apply(&self, coordinates: &[i64]) -> (r: Result<Vec<i64>, AffineError>)
        requires
            apply_fits(self@, coordinates@),
        ensures
            values_outcome(r) == apply_outcome(self@, coordinates@),
    {
        let n = self.source_axes.len();
        if coordinates.len() != n {
            return Err(AffineError::Arity { expected: n, actual: coordinates.len() });
        }
        let ghost m = self@;
        let mut vals: Vec<(String, i64)> = Vec::new();
        let mut j: usize = 0;
        while j < n
            invariant
                j <= n,
                n == self.source_axes@.len(),
                n == coordinates@.len(),
                vals@.len() == j,
                forall|t: int| 0 <= t < j ==> #[trigger] vals@[t] == coord_bindings(self.source_axes@, coordinates@)[t],
            decreases n - j,
        {
            let k = n - 1 - j;
            vals.push((self.source_axes[k].name.clone(), coordinates[k]));
            j += 1;
        }
        let ghost bind = coord_bindings(self.source_axes@, coordinates@);
        proof { assert(vals@ =~= bind); }
        let mut out: Vec<i64> = Vec::new();
        let mut i: usize = 0;
        while i < self.expressions.len()
            invariant
                i <= self.expressions.len(),
                m == self@,
                vals@ == bind,
                bind == coord_bindings(m.source, coordinates@),
                coordinates@.len() == m.source.len(),
                apply_fits(m, coordinates@),
                m.exprs == exprs_model(self.expressions@),
                out@.len() == i,
                forall|t: int| 0 <= t < i ==> affine_eval(#[trigger] m.exprs[t], bind) == Some(out@[t] as int),
            decreases self.expressions.len() - i,
        {
            assert(m.exprs[i as int] == self.expressions@[i as int]@);
            assert forall|t: int| 0 <= t < i implies affine_eval(#[trigger] m.exprs[t], bind) is Some by {
                assert(affine_eval(m.exprs[t], bind) == Some(out@[t] as int));
            }
            match self.expressions[i].evaluate(vals.as_slice()) {
                Some(v) => {
                    out.push(v);
                },
                None => {
                    let mut msg = crate::text::owned("could not evaluate affine expression ");
                    push_debug(&self.expressions[i], &mut msg);
                    proof {
                        assert(first_failing(m.exprs, bind, i as int));
                        let c = choose|c: int| first_failing(m.exprs, bind, c);
                        assert(first_failing(m.exprs, bind, c));
                        if c < i {
                            assert(affine_eval(m.exprs[c], bind) is Some);
                            assert(false);
                        }
                        if c > i {
                            assert(affine_eval(m.exprs[i as int], bind) is Some);
                            assert(false);
                        }
                    }
                    return Err(AffineError::Evaluation(msg));
                },
            }
            i += 1;
        }
        proof {
            assert forall|c: int| !first_failing(m.exprs, bind, c) by {
                if 0 <= c < m.exprs.len() {
                    assert(affine_eval(m.exprs[c], bind) == Some(out@[c] as int));
                }
            }
            assert(ints(out@) =~= Seq::new(m.exprs.len(), |t: int| affine_eval(m.exprs[t], bind)->0));
        }
        Ok(out)
    }
}


// ---------------------------------------------------------------------------
// Text form: `[x, y] -> [x, y]: ((x + 1) mod 8, y)`

/// First `i >= a` where `->` starts, or `s.len()`.
pub open spec fn find_arrow(s: Seq<char>, a: int) -> int
    decreases s.len() - a,
{
    if a + 1 < s.len() {
        if s[a] == '-' && s[a + 1] == '>' { a } else { find_arrow(s, a + 1) }
    } else {
        s.len() as int
    }
}

pub proof fn lemma_find_char_ge(s: Seq<char>, a: int, b: int, c: char)
    ensures
        crate::text::find_char(s, a, b, c) >= a,
    decreases b - a,
{
    if a < b && s[a] != c {
        lemma_find_char_ge(s, a + 1, b, c);
    }
}

/// The comma-separated axis names of `s[a..b)`, each trimmed and made of identifier characters.
pub open spec fn axis_items(s: Seq<char>, a: int, b: int) -> Result<Seq<Seq<char>>, AffineErrorModel>
    decreases b - a,
{
    let k = crate::text::find_char(s, a, b, ',');
    let (lo, hi) = crate::text::trimmed(s, a, k);
    let name = s.subrange(lo, hi);
    if lo >= hi || !crate::text::all_ident(s, lo, hi) {
        Err(AffineErrorModel::InvalidMap("invalid affine-map axis '"@ + name + "'"@))
    } else if k >= b {
        Ok(seq![name])
    } else {
        proof { lemma_find_char_ge(s, a, b, ','); }
        match axis_items(s, k + 1, b) {
            Ok(rest) => Ok(seq![name] + rest),
            Err(e) => Err(e),
        }
    }
}

/// A bracketed axis list `[a, b, ...]` in `s[a..b)` (surrounding whitespace allowed).
pub open spec fn axis_list(s: Seq<char>, a: int, b: int) -> Result<Seq<Seq<char>>, AffineErrorModel> {
    let (lo, hi) = crate::text::trimmed(s, a, b);
    if !(hi - lo >= 2 && s[lo] == '[' && s[hi - 1] == ']') {
        Err(AffineErrorModel::InvalidMap("affine-map axes must use '[...]'"@))
    } else if crate::text::trim_lo(s, lo + 1, hi - 1) == hi - 1 {
        Ok(Seq::empty())
    } else {
        axis_items(s, lo + 1, hi - 1)
    }
}

/// The first axis from `k` on named `n`.
pub open spec fn find_axis(axes: Seq<Axis>, n: Seq<char>, k: int) -> Option<Axis>
    decreases axes.len() - k,
{
    if 0 <= k < axes.len() {
        if axes[k].name@ == n { Some(axes[k]) } else { find_axis(axes, n, k + 1) }
    } else {
        None
    }
}

/// Each name resolved to the first axis of that name.
pub open spec fn resolve(names: Seq<Seq<char>>, axes: Seq<Axis>) -> Result<Seq<Axis>, AffineErrorModel>
    decreases names.len(),
{
    if names.len() == 0 {
        Ok(Seq::empty())
    } else {
        match find_axis(axes, names[0], 0) {
            None => Err(AffineErrorModel::UnknownAxis(names[0])),
            Some(x) => match resolve(names.drop_first(), axes) {
                Ok(r) => Ok(seq![x] + r),
                Err(e) => Err(e),
            },
        }
    }
}

/// The ranges of `s[start..end)` between commas that no parenthesis encloses; `i` is the
/// scan position and `depth` the open-parenthesis count (a stray `)` leaves it at zero).
pub open spec fn top_split(s: Seq<char>, start: int, i: int, end: int, depth: nat) -> Seq<(int, int)>
    decreases end - i,
{
    if i >= end {
        seq![(start, end)]
    } else if s[i] == '(' {
        top_split(s, start, i + 1, end, depth + 1)
    } else if s[i] == ')' {
        top_split(s, start, i + 1, end, if depth > 0 { (depth - 1) as nat } else { 0 })
    } else if s[i] == ',' && depth == 0 {
        seq![(start, i)] + top_split(s, i + 1, i + 1, end, 0)
    } else {
        top_split(s, start, i + 1, end, depth)
    }
}

/// Every identifier of `t` bound in `b` replaced by the decimal text of its value.
pub open spec fn subst_ids(t: Seq<char>, b: Seq<(String, i64)>) -> Seq<char>
    decreases t.len(),
{
    if t.len() == 0 {
        Seq::empty()
    } else if crate::text::is_alpha(t[0]) || t[0] == '_' {
        let e = crate::arch::index_parser::ident_end(t, 0);
        proof { crate::arch::index_parser::lemma_run_ends(t, 1); }
        let id = t.take(e);
        (match crate::arch::index::bound_value(b, id) {
            Some(v) => signed_decimal(v),
            None => id,
        }) + subst_ids(t.skip(e), b)
    } else {
        seq![t[0]] + subst_ids(t.skip(1), b)
    }
}

/// The expressions of the given ranges, trimmed, with bindings substituted, each parsed.
pub open spec fn parse_items(s: Seq<char>, ranges: Seq<(int, int)>, b: Seq<(String, i64)>) -> Result<Seq<AffineModel>, AffineErrorModel>
    decreases ranges.len(),
{
    if ranges.len() == 0 {
        Ok(Seq::empty())
    } else {
        let (lo, hi) = crate::text::trimmed(s, ranges[0].0, ranges[0].1);
        match crate::arch::index_parser::p_affine(subst_ids(s.subrange(lo, hi), b)) {
            Err((m, p)) => Err(AffineErrorModel::Parse(m, p)),
            Ok(e) => match parse_items(s, ranges.drop_first(), b) {
                Ok(r) => Ok(seq![e] + r),
                Err(x) => Err(x),
            },
        }
    }
}

/// What [`AffineMap::parse_with_bindings`] gives for the text `s`.
pub open spec fn map_text(s: Seq<char>, axes: Seq<Axis>, b: Seq<(String, i64)>) -> Result<AffineMapModel, AffineErrorModel> {
    let arrow = find_arrow(s, 0);
    if arrow >= s.len() {
        Err(AffineErrorModel::InvalidMap("affine map is missing '->'"@))
    } else {
        let colon = crate::text::find_char(s, arrow + 2, s.len() as int, ':');
        if colon >= s.len() {
            Err(AffineErrorModel::InvalidMap("affine map is missing ':'"@))
        } else {
            match axis_list(s, 0, arrow) {
                Err(e) => Err(e),
                Ok(src_names) => match axis_list(s, arrow + 2, colon) {
                    Err(e) => Err(e),
                    Ok(tgt_names) => match resolve(src_names, axes) {
                        Err(e) => Err(e),
                        Ok(src) => match resolve(tgt_names, axes) {
                            Err(e) => Err(e),
                            Ok(tgt) => {
                                let (lo, hi) = crate::text::trimmed(s, colon + 1, s.len() as int);
                                if !(hi - lo >= 2 && s[lo] == '(' && s[hi - 1] == ')') {
                                    Err(AffineErrorModel::InvalidMap("affine map results must be parenthesized"@))
                                } else {
                                    match parse_items(s, top_split(s, lo + 1, lo + 1, hi - 1, 0), b) {
                                        Err(e) => Err(e),
                                        Ok(exprs) => new_outcome(src, tgt, exprs),
                                    }
                                }
                            },
                        },
                    },
                },
            }
        }
    }
}

fn x_find_arrow(s: &[char]) -> (r: usize)
    ensures
        r as int == find_arrow(s@, 0),
        r <= s@.len(),
        r < s@.len() ==> r + 1 < s@.len(),
{
    let mut i: usize = 0;
    while i < s.len() && s.len() - i > 1
        invariant
            i <= s@.len(),
            find_arrow(s@, 0) == find_arrow(s@, i as int),
        decreases s.len() - i,
    {
        if s[i] == '-' && s[i + 1] == '>' {
            return i;
        }
        i += 1;
    }
    s.len()
}

fn x_axis_items(s: &[char], a: usize, b: usize) -> (r: Result<Vec<String>, AffineError>)
    requires
        a <= b <= s@.len(),
    ensures
        match r {
            Ok(v) => axis_items(s@, a as int, b as int) == Ok::<Seq<Seq<char>>, AffineErrorModel>(v@.map_values(|x: String| x@)),
            Err(e) => axis_items(s@, a as int, b as int) == Err::<Seq<Seq<char>>, AffineErrorModel>(e@),
        },
    decreases b - a,
{
    let k = crate::text::find_char_in(s, a, b, ',');
    let (lo, hi) = crate::text::trim_range(s, a, k);
    if lo >= hi || !crate::text::all_ident_in(s, lo, hi) {
        let mut m = crate::text::owned("invalid affine-map axis '");
        let name = crate::text::from_char_range(s, lo, hi);
        crate::text::push_str(&mut m, name.as_str());
        crate::text::push_str(&mut m, "'");
        return Err(AffineError::InvalidMap(m));
    }
    let name = crate::text::from_char_range(s, lo, hi);
    if k >= b {
        let mut v: Vec<String> = Vec::new();
        v.push(name);
        proof { assert(v@.map_values(|x: String| x@) =~= seq![s@.subrange(lo as int, hi as int)]); }
        return Ok(v);
    }
    match x_axis_items(s, k + 1, b) {
        Err(e) => Err(e),
        Ok(mut rest) => {
            let ghost before = rest@;
            rest.insert(0, name);
            proof {
                assert(rest@.map_values(|x: String| x@) =~= seq![s@.subrange(lo as int, hi as int)] + before.map_values(|x: String| x@));
            }
            Ok(rest)
        },
    }
}

fn x_axis_list(s: &[char], a: usize, b: usize) -> (r: Result<Vec<String>, AffineError>)
    requires
        a <= b <= s@.len(),
    ensures
        match r {
            Ok(v) => axis_list(s@, a as int, b as int) == Ok::<Seq<Seq<char>>, AffineErrorModel>(v@.map_values(|x: String| x@)),
            Err(e) => axis_list(s@, a as int, b as int) == Err::<Seq<Seq<char>>, AffineErrorModel>(e@),
        },
{
    let (lo, hi) = crate::text::trim_range(s, a, b);
    if !(hi - lo >= 2 && s[lo] == '[' && s[hi - 1] == ']') {
        return Err(AffineError::InvalidMap(crate::text::owned("affine-map axes must use '[...]'")));
    }
    let (ilo, _ihi) = crate::text::trim_range(s, lo + 1, hi - 1);
    if ilo == hi - 1 {
        let v: Vec<String> = Vec::new();
        proof { assert(v@.map_values(|x: String| x@) =~= Seq::<Seq<char>>::empty()); }
        return Ok(v);
    }
    x_axis_items(s, lo + 1, hi - 1)
}

pub open spec fn names_model(v: Seq<String>) -> Seq<Seq<char>> {
    v.map_values(|x: String| x@)
}

fn x_find_axis(axes: &[Axis], n: &str) -> (r: Option<Axis>)
    ensures
        r == find_axis(axes@, n@, 0),
{
    let mut k: usize = 0;
    while k < axes.len()
        invariant
            k <= axes.len(),
            find_axis(axes@, n@, 0) == find_axis(axes@, n@, k as int),
        decreases axes.len() - k,
    {
        if crate::text::str_eq(axes[k].name.as_str(), n) {
            return Some(axes[k].clone());
        }
        k += 1;
    }
    None
}

fn x_resolve(names: &[String], i: usize, axes: &[Axis]) -> (r: Result<Vec<Axis>, AffineError>)
    requires
        i <= names@.len(),
    ensures
        match r {
            Ok(v) => resolve(names_model(names@).skip(i as int), axes@) == Ok::<Seq<Axis>, AffineErrorModel>(v@),
            Err(e) => resolve(names_model(names@).skip(i as int), axes@) == Err::<Seq<Axis>, AffineErrorModel>(e@),
        },
    decreases names@.len() - i,
{
    let ghost ns = names_model(names@).skip(i as int);
    if i == names.len() {
        proof { assert(ns.len() == 0); }
        return Ok(Vec::new());
    }
    proof {
        assert(ns[0] == names@[i as int]@);
        assert(ns.drop_first() =~= names_model(names@).skip(i + 1));
    }
    match x_find_axis(axes, names[i].as_str()) {
        None => Err(AffineError::UnknownAxis(names[i].clone())),
        Some(x) => match x_resolve(names, i + 1, axes) {
            Err(e) => Err(e),
            Ok(mut rest) => {
                let ghost before = rest@;
                rest.insert(0, x);
                proof { assert(rest@ =~= seq![x] + before); }
                Ok(rest)
            },
        },
    }
}

pub open spec fn ranges_model(v: Seq<(usize, usize)>) -> Seq<(int, int)> {
    v.map_values(|p: (usize, usize)| (p.0 as int, p.1 as int))
}

fn x_top_split(s: &[char], a: usize, b: usize) -> (r: Vec<(usize, usize)>)
    requires
        a <= b <= s@.len(),
    ensures
        ranges_model(r@) == top_split(s@, a as int, a as int, b as int, 0),
        forall|k: int| 0 <= k < r@.len() ==> a <= (#[trigger] r@[k]).0 <= r@[k].1 <= b,
{
    let mut out: Vec<(usize, usize)> = Vec::new();
    let mut start = a;
    let mut i = a;
    let mut depth: usize = 0;
    while i < b
        invariant
            a <= start <= i <= b <= s@.len(),
            depth <= i,
            ranges_model(out@) + top_split(s@, start as int, i as int, b as int, depth as nat)
                == top_split(s@, a as int, a as int, b as int, 0),
            forall|k: int| 0 <= k < out@.len() ==> a <= (#[trigger] out@[k]).0 <= out@[k].1 <= start,
        decreases b - i,
    {
        let c = s[i];
        if c == '(' {
            depth += 1;
        } else if c == ')' {
            if depth > 0 {
                depth -= 1;
            }
        } else if c == ',' && depth == 0 {
            let ghost before = out@;
            out.push((start, i));
            proof {
                assert(ranges_model(out@) =~= ranges_model(before) + seq![(start as int, i as int)]);
                assert(ranges_model(out@) + top_split(s@, i + 1, i + 1, b as int, 0)
                    =~= ranges_model(before) + (seq![(start as int, i as int)] + top_split(s@, i + 1, i + 1, b as int, 0)));
            }
            start = i + 1;
        }
        i += 1;
    }
    let ghost before = out@;
    out.push((start, b));
    proof {
        assert(ranges_model(out@) =~= ranges_model(before) + seq![(start as int, b as int)]);
    }
    out
}

fn x_subst(t: &[char], b: &[(String, i64)]) -> (r: String)
    ensures
        r@ == subst_ids(t@, b@),
{
    let mut out = String::new();
    let mut i: usize = 0;
    proof { assert(t@.skip(0) =~= t@); }
    while i < t.len()
        invariant
            i <= t@.len(),
            out@ + subst_ids(t@.skip(i as int), b@) == subst_ids(t@, b@),
        decreases t.len() - i,
    {
        let ghost rest = t@.skip(i as int);
        let ghost before = out@;
        if crate::text::alpha(t[i]) || t[i] == '_' {
            let mut e = i;
            while e < t.len() && crate::text::ident_char(t[e])
                invariant
                    i <= e <= t@.len(),
                    rest == t@.skip(i as int),
                    crate::arch::index_parser::ident_end(rest, 0) == crate::arch::index_parser::ident_end(rest, e - i),
                decreases t.len() - e,
            {
                e += 1;
            }
            let id = crate::text::from_char_range(t, i, e);
            proof {
                assert(id@ =~= rest.take(e - i));
                assert(rest.skip(e - i) =~= t@.skip(e as int));
            }
            match lookup(b, id.as_str()) {
                Some(v) => crate::text::push_signed(&mut out, v),
                None => crate::text::push_str(&mut out, id.as_str()),
            }
            proof {
                assert(before + subst_ids(rest, b@) =~= out@ + subst_ids(t@.skip(e as int), b@));
            }
            i = e;
        } else {
            crate::text::push_chars(&mut out, &t[i..i + 1]);
            proof {
                assert(t@.subrange(i as int, i + 1) =~= seq![rest[0]]);
                assert(rest.skip(1) =~= t@.skip(i + 1));
                assert(before + subst_ids(rest, b@) =~= out@ + subst_ids(t@.skip(i + 1), b@));
            }
            i += 1;
        }
    }
    proof { assert(subst_ids(t@.skip(t@.len() as int), b@) =~= Seq::<char>::empty()); }
    out
}

/// The first value bound to `name`.
fn lookup(b: &[(String, i64)], name: &str) -> (r: Option<i64>)
    ensures
        crate::math::expr::opt_int(r) == crate::arch::index::bound_value(b@, name@),
{
    let mut i: usize = 0;
    proof { assert(b@.subrange(0, b@.len() as int) =~= b@); }
    while i < b.len()
        invariant
            i <= b@.len(),
            crate::arch::index::bound_value(b@, name@) == crate::arch::index::bound_value(b@.subrange(i as int, b@.len() as int), name@),
        decreases b.len() - i,
    {
        let ghost rest = b@.subrange(i as int, b@.len() as int);
        proof {
            assert(rest[0] == b@[i as int]);
            assert(rest.subrange(1, rest.len() as int) =~= b@.subrange(i + 1, b@.len() as int));
        }
        if crate::text::str_eq(b[i].0.as_str(), name) {
            return Some(b[i].1);
        }
        i += 1;
    }
    None
}

fn x_parse_items(s: &[char], ranges: &[(usize, usize)], i: usize, b: &[(String, i64)]) -> (r: Result<Vec<AffineExpression>, AffineError>)
    requires
        i <= ranges@.len(),
        forall|k: int| 0 <= k < ranges@.len() ==> (#[trigger] ranges@[k]).0 <= ranges@[k].1 <= s@.len(),
    ensures
        match r {
            Ok(v) => parse_items(s@, ranges_model(ranges@).skip(i as int), b@) == Ok::<Seq<AffineModel>, AffineErrorModel>(exprs_model(v@)),
            Err(e) => parse_items(s@, ranges_model(ranges@).skip(i as int), b@) == Err::<Seq<AffineModel>, AffineErrorModel>(e@),
        },
    decreases ranges@.len() - i,
{
    let ghost rs = ranges_model(ranges@).skip(i as int);
    if i == ranges.len() {
        proof { assert(rs.len() == 0); }
        let v: Vec<AffineExpression> = Vec::new();
        proof { assert(exprs_model(v@) =~= Seq::<AffineModel>::empty()); }
        return Ok(v);
    }
    proof {
        assert(rs[0] == (ranges@[i as int].0 as int, ranges@[i as int].1 as int));
        assert(rs.drop_first() =~= ranges_model(ranges@).skip(i + 1));
    }
    let (lo, hi) = crate::text::trim_range(s, ranges[i].0, ranges[i].1);
    let text = crate::text::chars_of(crate::text::from_char_range(s, lo, hi).as_str());
    let sub = x_subst(text.as_slice(), b);
    match AffineExpression::parse(sub.as_str()) {
        Err(e) => Err(AffineError::Parse(e)),
        Ok(e) => match x_parse_items(s, ranges, i + 1, b) {
            Err(x) => Err(x),
            Ok(mut rest) => {
                let ghost before = rest@;
                rest.insert(0, e);
                proof { assert(exprs_model(rest@) =~= seq![e@] + exprs_model(before)); }
                Ok(rest)
            },
        },
    }
}

impl AffineMap {
    /// Parses `[x, y] -> [x, y]: ((x + 1) mod 8, y)` over the given axes.
    pub fn parse(input: &str, axes: &[Axis]) -> (r: Result<AffineMap, AffineError>)
        ensures
            map_outcome(r) == map_text(input@, axes@, Seq::empty()),
    {
        let none: Vec<(String, i64)> = Vec::new();
        AffineMap::parse_with_bindings(input, axes, none.as_slice())
    }

    /// Parses a map whose expressions may name the bound constants (the first binding of a
    /// name counts).
    pub fn parse_with_bindings(input: &str, axes: &[Axis], bindings: &[(String, i64)]) -> (r: Result<AffineMap, AffineError>)
        ensures
            map_outcome(r) == map_text(input@, axes@, bindings@),
    {
        let cs = crate::text::chars_of(input);
        let s = cs.as_slice();
        let arrow = x_find_arrow(s);
        if arrow >= s.len() {
            return Err(AffineError::InvalidMap(crate::text::owned("affine map is missing '->'")));
        }
        let colon = crate::text::find_char_in(s, arrow + 2, s.len(), ':');
        if colon >= s.len() {
            return Err(AffineError::InvalidMap(crate::text::owned("affine map is missing ':'")));
        }
        let src_names = match x_axis_list(s, 0, arrow) {
            Err(e) => return Err(e),
            Ok(v) => v,
        };
        let tgt_names = match x_axis_list(s, arrow + 2, colon) {
            Err(e) => return Err(e),
            Ok(v) => v,
        };
        proof {
            assert(names_model(src_names@).skip(0) =~= names_model(src_names@));
            assert(names_model(tgt_names@).skip(0) =~= names_model(tgt_names@));
        }
        let src = match x_resolve(src_names.as_slice(), 0, axes) {
            Err(e) => return Err(e),
            Ok(v) => v,
        };
        let tgt = match x_resolve(tgt_names.as_slice(), 0, axes) {
            Err(e) => return Err(e),
            Ok(v) => v,
        };
        let (lo, hi) = crate::text::trim_range(s, colon + 1, s.len());
        if !(hi - lo >= 2 && s[lo] == '(' && s[hi - 1] == ')') {
            return Err(AffineError::InvalidMap(crate::text::owned("affine map results must be parenthesized")));
        }
        let ranges = x_top_split(s, lo + 1, hi - 1);
        proof { assert(ranges_model(ranges@).skip(0) =~= ranges_model(ranges@)); }
        let exprs = match x_parse_items(s, ranges.as_slice(), 0, bindings) {
            Err(e) => return Err(e),
            Ok(v) => v,
        };
        AffineMap::new(src.as_slice(), tgt.as_slice(), exprs)
    }
}


// ---------------------------------------------------------------------------
// Laws

/// The first binding of `n` is the one at `t` when no earlier binding has that name.
pub proof fn lemma_bound_at(vals: Seq<(String, i64)>, n: Seq<char>, t: int)
    requires
        0 <= t < vals.len(),
        vals[t].0@ == n,
        forall|u: int| 0 <= u < t ==> (#[trigger] vals[u]).0@ != n,
    ensures
        crate::arch::index::bound_value(vals, n) == Some(vals[t].1 as int),
    decreases t,
{
    if t > 0 {
        let rest = vals.subrange(1, vals.len() as int);
        assert(vals[0].0@ != n);
        assert forall|u: int| 0 <= u < t - 1 implies (#[trigger] rest[u]).0@ != n by {
            assert(rest[u] == vals[u + 1]);
        }
        lemma_bound_at(rest, n, t - 1);
    }
}

/// Applying the identity map to coordinates of the right length gives them back, when no
/// two axes share a name.
pub proof fn law_identity_apply(axes: Seq<Axis>, coords: Seq<i64>)
    requires
        coords.len() == axes.len(),
        forall|i: int, j: int| 0 <= i < j < axes.len() ==> axes[i].name@ != axes[j].name@,
    ensures
        apply_fits(identity_model(axes), coords),
        apply_outcome(identity_model(axes), coords) == Ok::<Seq<int>, AffineErrorModel>(ints(coords)),
{
    let m = identity_model(axes);
    let bind = coord_bindings(axes, coords);
    let n = axes.len();
    assert forall|i: int| 0 <= i < n implies affine_eval(#[trigger] m.exprs[i], bind) == Some(coords[i] as int) by {
        let t = n - 1 - i;
        assert(bind[t].0 == axes[i].name);
        assert forall|u: int| 0 <= u < t implies (#[trigger] bind[u]).0@ != axes[i].name@ by {
            assert(bind[u].0 == axes[n - 1 - u].name);
        }
        lemma_bound_at(bind, axes[i].name@, t);
    }
    assert forall|c: int| !first_failing(m.exprs, bind, c) by {
        if 0 <= c < n {
            assert(affine_eval(m.exprs[c], bind) == Some(coords[c] as int));
        }
    }
    assert(Seq::new(m.exprs.len(), |i: int| affine_eval(m.exprs[i], bind)->0) =~= ints(coords));
}

} // verus!
