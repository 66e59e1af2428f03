//! Declarative performance alternatives, by operation name, as read from YAML: each
//! alternative is a throughput cost (latency, volume, throughput) or one latency
//! expression, optionally guarded by a constraint.
use vstd::prelude::*;

use super::perf::{symbols_problem, undeclared_outcome, FuncPerfModel, PerfScenario, TimeCost};
use crate::math::expr::{
    contains_name, distinct_names, names, sort_symbols, sorted_names, ConstraintExpr, ConstraintModel,
    Expr, ExprModel, Sym,
};
use crate::mlir::func::MlirFunc;
use crate::mlir::func::func_model;
use crate::mlir::module::{module_text, shape_syms};
use crate::math::parse::{constraint_text, expr_text, ParseError};
use crate::text::{decimal, owned, push_str};

verus! {

/// One performance alternative.
pub enum PerfAlternativeYaml {
    Throughput { constraint: Option<String>, latency: String, volume: String, throughput: String },
    Expression { constraint: Option<String>, expression: String },
}

/// Performance alternatives by operation name, in the order of their names (as the
/// YAML mapping holds them, each name once).
pub struct PerformanceYaml {
    pub functions: Vec<(String, Vec<PerfAlternativeYaml>)>,
}

/// Why a performance model could not be had from the YAML.
#[derive(Debug)]
pub enum PerfYamlError {
    Io(String),
    Yaml(String),
    InvalidModel(String),
    Expr { field: String, source: ParseError },
    Constraint { field: String, source: ParseError },
    UnknownFunction(String),
    Validation { function: String, undeclared: Vec<Sym> },
}

/// Model of a [`PerfYamlError`].
pub ghost enum PerfErrModel {
    Io(Seq<char>),
    Yaml(Seq<char>),
    InvalidModel(Seq<char>),
    Expr(Seq<char>, Seq<char>, int),
    Constraint(Seq<char>, Seq<char>, int),
    UnknownFunction(Seq<char>),
    Validation(Seq<char>, Seq<Seq<char>>),
}

impl View for PerfYamlError {
    type V = PerfErrModel;

    open spec fn view(&self) -> PerfErrModel {
        match self {
            PerfYamlError::Io(m) => PerfErrModel::Io(m@),
            PerfYamlError::Yaml(m) => PerfErrModel::Yaml(m@),
            PerfYamlError::InvalidModel(m) => PerfErrModel::InvalidModel(m@),
            PerfYamlError::Expr { field, source } => PerfErrModel::Expr(field@, source.message@, source.position as int),
            PerfYamlError::Constraint { field, source } => PerfErrModel::Constraint(field@, source.message@, source.position as int),
            PerfYamlError::UnknownFunction(f) => PerfErrModel::UnknownFunction(f@),
            PerfYamlError::Validation { function, undeclared } => PerfErrModel::Validation(
                function@,
                undeclared@.map_values(|s: Sym| s@),
            ),
        }
    }
}

/// The `Debug` text of a list of symbol names: `[Sym("a"), Sym("b")]`.
pub open spec fn names_debug(v: Seq<Seq<char>>) -> Seq<char> {
    "["@ + names_debug_items(v) + "]"@
}

pub open spec fn names_debug_items(v: Seq<Seq<char>>) -> Seq<char>
    decreases v.len(),
{
    if v.len() == 0 {
        Seq::empty()
    } else if v.len() == 1 {
        "Sym(\""@ + v[0] + "\")"@
    } else {
        names_debug_items(v.drop_last()) + ", Sym(\""@ + v.last() + "\")"@
    }
}

/// The error as a sentence.
pub open spec fn perf_error_text(e: PerfErrModel) -> Seq<char> {
    match e {
        PerfErrModel::Io(m) => "failed to read perf YAML: "@ + m,
        PerfErrModel::Yaml(m) => "failed to parse perf YAML: "@ + m,
        PerfErrModel::InvalidModel(m) => "invalid perf YAML: "@ + m,
        PerfErrModel::Expr(f, m, p) => "invalid expression in "@ + f + ": "@ + super::yaml::parse_error_text((m, p)),
        PerfErrModel::Constraint(f, m, p) => "invalid constraint in "@ + f + ": "@ + super::yaml::parse_error_text((m, p)),
        PerfErrModel::UnknownFunction(f) => "no perf model found for function '"@ + f + "'"@,
        PerfErrModel::Validation(f, u) => "perf model for function '"@ + f + "' uses undeclared symbols: "@ + names_debug(u),
    }
}

impl PerfYamlError {
    /// The error as a sentence.
    pub fn message(&self) -> (r: String)
        ensures
            r@ == perf_error_text(self@),
    {
        let mut s = String::new();
        match self {
            PerfYamlError::Io(m) => {
                push_str(&mut s, "failed to read perf YAML: ");
                push_str(&mut s, m.as_str());
            },
            PerfYamlError::Yaml(m) => {
                push_str(&mut s, "failed to parse perf YAML: ");
                push_str(&mut s, m.as_str());
            },
            PerfYamlError::InvalidModel(m) => {
                push_str(&mut s, "invalid perf YAML: ");
                push_str(&mut s, m.as_str());
            },
            PerfYamlError::Expr { field, source } => {
                push_str(&mut s, "invalid expression in ");
                push_str(&mut s, field.as_str());
                push_str(&mut s, ": ");
                let t = super::yaml::parse_error_message(source);
                push_str(&mut s, t.as_str());
            },
            PerfYamlError::Constraint { field, source } => {
                push_str(&mut s, "invalid constraint in ");
                push_str(&mut s, field.as_str());
                push_str(&mut s, ": ");
                let t = super::yaml::parse_error_message(source);
                push_str(&mut s, t.as_str());
            },
            PerfYamlError::UnknownFunction(f) => {
                push_str(&mut s, "no perf model found for function '");
                push_str(&mut s, f.as_str());
                push_str(&mut s, "'");
            },
            PerfYamlError::Validation { function, undeclared } => {
                push_str(&mut s, "perf model for function '");
                push_str(&mut s, function.as_str());
                push_str(&mut s, "' uses undeclared symbols: ");
                let ghost before = s@;
                super::processor::push_syms_debug(&mut s, undeclared);
                proof { lemma_names_debug(undeclared@); }
            },
        }
        proof {
            assert(s@ =~= perf_error_text(self@));
        }
        s
    }
}

/// The names' debug text is the symbols'.
pub proof fn lemma_names_debug(v: Seq<Sym>)
    ensures
        names_debug(v.map_values(|s: Sym| s@)) == super::processor::syms_debug(v),
{
    lemma_names_debug_items(v);
}

pub proof fn lemma_names_debug_items(v: Seq<Sym>)
    ensures
        names_debug_items(v.map_values(|s: Sym| s@)) == super::processor::syms_debug_items(v),
    decreases v.len(),
{
    let n = v.map_values(|s: Sym| s@);
    if v.len() > 1 {
        lemma_names_debug_items(v.drop_last());
        assert(n.drop_last() =~= v.drop_last().map_values(|s: Sym| s@));
    }
}

// ---------------------------------------------------------------------------
// One alternative

/// Model of a time cost.
pub ghost enum CostModel {
    Throughput(ExprModel, ExprModel, ExprModel),
    Expression(ExprModel),
}

pub open spec fn cost_model(t: TimeCost) -> CostModel {
    match t {
        TimeCost::Throughput { fixed_latency, volume, throughput } => CostModel::Throughput(fixed_latency@, volume@, throughput@),
        TimeCost::Expression(e) => CostModel::Expression(e@),
    }
}

/// A scenario as its constraint and its cost.
pub open spec fn scenario_model(s: PerfScenario) -> (ConstraintModel, CostModel) {
    (s.constraints@, cost_model(s.time_cost))
}

/// An expression field parsed, or the error that names it.
pub open spec fn expr_field(label: Seq<char>, suffix: Seq<char>, text: Seq<char>) -> Result<ExprModel, PerfErrModel> {
    match expr_text(text) {
        Ok(e) => Ok(e),
        Err(pe) => Err(PerfErrModel::Expr(label + suffix, pe.0, pe.1)),
    }
}

pub open spec fn alt_constraint(a: PerfAlternativeYaml) -> Option<String> {
    match a {
        PerfAlternativeYaml::Throughput { constraint, .. } => constraint,
        PerfAlternativeYaml::Expression { constraint, .. } => constraint,
    }
}

/// The cost of an alternative: its fields parsed in order (latency, volume, throughput),
/// the first that fails giving the error.
pub open spec fn alt_cost(a: PerfAlternativeYaml, label: Seq<char>) -> Result<CostModel, PerfErrModel> {
    match a {
        PerfAlternativeYaml::Throughput { latency, volume, throughput, .. } => match expr_field(label, ".latency"@, latency@) {
            Err(e) => Err(e),
            Ok(l) => match expr_field(label, ".volume"@, volume@) {
                Err(e) => Err(e),
                Ok(v) => match expr_field(label, ".throughput"@, throughput@) {
                    Err(e) => Err(e),
                    Ok(t) => Ok(CostModel::Throughput(l, v, t)),
                },
            },
        },
        PerfAlternativeYaml::Expression { expression, .. } => match expr_field(label, ".expression"@, expression@) {
            Err(e) => Err(e),
            Ok(x) => Ok(CostModel::Expression(x)),
        },
    }
}

/// The scenario of an alternative: its cost, then its constraint (`True` when absent).
pub open spec fn alt_spec(a: PerfAlternativeYaml, label: Seq<char>) -> Result<(ConstraintModel, CostModel), PerfErrModel> {
    match alt_cost(a, label) {
        Err(e) => Err(e),
        Ok(c) => match alt_constraint(a) {
            None => Ok((ConstraintModel::True, c)),
            Some(t) => match constraint_text(t@) {
                Err(pe) => Err(PerfErrModel::Constraint(label + ".constraint"@, pe.0, pe.1)),
                Ok(k) => Ok((k, c)),
            },
        },
    }
}

fn parse_field(label: &str, suffix: &str, text: &String) -> (r: Result<Expr, PerfYamlError>)
    ensures
        match r {
            Ok(e) => expr_field(label@, suffix@, text@) == Ok::<ExprModel, PerfErrModel>(e@),
            Err(x) => expr_field(label@, suffix@, text@) == Err::<ExprModel, PerfErrModel>(x@),
        },
{
    match Expr::parse(text.as_str()) {
        Ok(e) => Ok(e),
        Err(source) => {
            let mut field = owned(label);
            push_str(&mut field, suffix);
            Err(PerfYamlError::Expr { field, source })
        },
    }
}

impl PerfAlternativeYaml {
    /// The scenario this alternative describes; `label` names it in errors.
    pub fn to_scenario(&self, label: &str) -> (r: Result<PerfScenario, PerfYamlError>)
        ensures
            match r {
                Ok(s) => alt_spec(*self, label@) == Ok::<(ConstraintModel, CostModel), PerfErrModel>(scenario_model(s)),
                Err(e) => alt_spec(*self, label@) == Err::<(ConstraintModel, CostModel), PerfErrModel>(e@),
            },
    {
        let (constraint, time_cost) = match self {
            PerfAlternativeYaml::Throughput { constraint, latency, volume, throughput } => {
                let l = parse_field(label, ".latency", latency)?;
                let v = parse_field(label, ".volume", volume)?;
                let t = parse_field(label, ".throughput", throughput)?;
                (constraint, TimeCost::throughput(l, v, t))
            },
            PerfAlternativeYaml::Expression { constraint, expression } => {
                let x = parse_field(label, ".expression", expression)?;
                (constraint, TimeCost::Expression(x))
            },
        };
        let constraints = match constraint {
            Some(t) => match ConstraintExpr::parse(t.as_str()) {
                Ok(c) => c,
                Err(source) => {
                    let mut field = owned(label);
                    push_str(&mut field, ".constraint");
                    return Err(PerfYamlError::Constraint { field, source });
                },
            },
            None => ConstraintExpr::True,
        };
        Ok(PerfScenario::with_constraints(constraints, time_cost))
    }
}

// ---------------------------------------------------------------------------
// A function's model

/// The alternatives listed under the name `n`: those of its first entry.
pub open spec fn alts_for(fs: Seq<(String, Vec<PerfAlternativeYaml>)>, n: Seq<char>) -> Option<Seq<PerfAlternativeYaml>>
    decreases fs.len(),
{
    if fs.len() == 0 {
        None
    } else if fs[0].0@ == n {
        Some(fs[0].1@)
    } else {
        alts_for(fs.drop_first(), n)
    }
}

/// How alternative `k` of the function `n` is named in errors: `n[k]`.
pub open spec fn alt_label(n: Seq<char>, k: nat) -> Seq<char> {
    n + "["@ + decimal(k) + "]"@
}

/// The alternatives' scenarios, in order; the first that fails gives the error.
pub open spec fn alts_spec(alts: Seq<PerfAlternativeYaml>, n: Seq<char>) -> Result<Seq<(ConstraintModel, CostModel)>, PerfErrModel>
    decreases alts.len(),
{
    if alts.len() == 0 {
        Ok(Seq::empty())
    } else {
        match alts_spec(alts.drop_last(), n) {
            Err(e) => Err(e),
            Ok(v) => match alt_spec(alts.last(), alt_label(n, (alts.len() - 1) as nat)) {
                Err(e) => Err(e),
                Ok(x) => Ok(v.push(x)),
            },
        }
    }
}

/// A function's scenarios: its symbols checked, its alternatives found and not empty,
/// and each turned into a scenario.
pub open spec fn func_scenarios(p: PerformanceYaml, f: MlirFunc) -> Result<Seq<(ConstraintModel, CostModel)>, PerfErrModel> {
    match symbols_problem(f.symbols@) {
        Some(m) => Err(PerfErrModel::InvalidModel(m)),
        None => match alts_for(p.functions@, f.name@) {
            None => Err(PerfErrModel::UnknownFunction(f.name@)),
            Some(alts) => if alts.len() == 0 {
                Err(PerfErrModel::InvalidModel(f.name@ + " must define at least one performance alternative"@))
            } else {
                alts_spec(alts, f.name@)
            },
        },
    }
}

/// The scenarios as models.
pub open spec fn scenarios_model(v: Seq<PerfScenario>) -> Seq<(ConstraintModel, CostModel)> {
    v.map_values(|s: PerfScenario| scenario_model(s))
}

/// The model put together for `f`: its scenarios, no global constraint, and as symbols
/// those of the function and of its shapes, each once, sorted.
pub open spec fn model_shape(p: PerformanceYaml, f: MlirFunc, m: FuncPerfModel) -> bool {
    &&& func_scenarios(p, f) == Ok::<Seq<(ConstraintModel, CostModel)>, PerfErrModel>(scenarios_model(m.scenarios@))
    &&& m.constraints@ == ConstraintModel::True
    &&& names(m.symbols@) == shape_syms(f) + names(f.symbols@)
    &&& sorted_names(m.symbols@)
}

/// `m` is the model of `f`: put together as above, and every symbol it uses declared.
pub open spec fn model_built(p: PerformanceYaml, f: MlirFunc, m: FuncPerfModel) -> bool {
    model_shape(p, f, m) && undeclared_outcome(m, shape_syms(f), Ok(()))
}

/// `e` is why `f` has no model: the scenarios' error, or the undeclared symbols of the
/// model put together.
pub open spec fn model_failed(p: PerformanceYaml, f: MlirFunc, e: PerfErrModel) -> bool {
    match func_scenarios(p, f) {
        Err(x) => e == x,
        Ok(_) => exists|m: FuncPerfModel, u: Vec<Sym>|
            model_shape(p, f, m) && undeclared_outcome(m, shape_syms(f), Err(u))
                && e == PerfErrModel::Validation(f.name@, u@.map_values(|s: Sym| s@)),
    }
}

fn x_alts_for(fs: &Vec<(String, Vec<PerfAlternativeYaml>)>, n: &str) -> (r: Option<usize>)
    ensures
        match r {
            Some(k) => k < fs@.len() && alts_for(fs@, n@) == Some(fs@[k as int].1@),
            None => alts_for(fs@, n@) is None,
        },
{
    let mut i: usize = 0;
    proof { assert(fs@.skip(0) =~= fs@); }
    while i < fs.len()
        invariant
            i <= fs@.len(),
            alts_for(fs@, n@) == alts_for(fs@.skip(i as int), n@),
        decreases fs.len() - i,
    {
        proof {
            assert(fs@.skip(i as int)[0] == fs@[i as int]);
            assert(fs@.skip(i as int).drop_first() =~= fs@.skip(i + 1));
        }
        if crate::text::str_eq(fs[i].0.as_str(), n) {
            return Some(i);
        }
        i += 1;
    }
    None
}

pub proof fn lemma_alts_err(alts: Seq<PerfAlternativeYaml>, n: Seq<char>, j: int)
    requires
        0 <= j <= alts.len(),
        alts_spec(alts.take(j), n) is Err,
    ensures
        alts_spec(alts, n) == alts_spec(alts.take(j), n),
    decreases alts.len(),
{
    if alts.len() == j {
        assert(alts.take(j) =~= alts);
    } else {
        assert(alts.drop_last().take(j) =~= alts.take(j));
        lemma_alts_err(alts.drop_last(), n, j);
    }
}

/// The scenarios of the alternatives, labelled by the function's name.
fn x_scenarios(alts: &Vec<PerfAlternativeYaml>, name: &String) -> (r: Result<Vec<PerfScenario>, PerfYamlError>)
    ensures
        match r {
            Ok(v) => alts_spec(alts@, name@) == Ok::<Seq<(ConstraintModel, CostModel)>, PerfErrModel>(scenarios_model(v@)),
            Err(e) => alts_spec(alts@, name@) == Err::<Seq<(ConstraintModel, CostModel)>, PerfErrModel>(e@),
        },
{
    let mut out: Vec<PerfScenario> = Vec::new();
    let mut k: usize = 0;
    proof { assert(alts@.take(0) =~= Seq::<PerfAlternativeYaml>::empty()); assert(scenarios_model(out@) =~= Seq::<(ConstraintModel, CostModel)>::empty()); }
    while k < alts.len()
        invariant
            k <= alts@.len(),
            alts_spec(alts@.take(k as int), name@) == Ok::<Seq<(ConstraintModel, CostModel)>, PerfErrModel>(scenarios_model(out@)),
        decreases alts.len() - k,
    {
        proof {
            assert(alts@.take(k + 1).drop_last() =~= alts@.take(k as int));
            assert(alts@.take(k + 1).last() == alts@[k as int]);
        }
        let mut label = name.clone();
        push_str(&mut label, "[");
        crate::text::push_decimal(&mut label, k as u64);
        push_str(&mut label, "]");
        proof { assert(label@ =~= alt_label(name@, k as nat)); }
        match alts[k].to_scenario(label.as_str()) {
            Ok(sc) => {
                let ghost before = out@;
                out.push(sc);
                proof { assert(scenarios_model(out@) =~= scenarios_model(before).push(scenario_model(sc))); }
            },
            Err(e) => {
                proof { lemma_alts_err(alts@, name@, k + 1); }
                return Err(e);
            },
        }
        k += 1;
    }
    proof { assert(alts@.take(alts@.len() as int) =~= alts@); }
    Ok(out)
}

/// A problem-free list of symbols names each once.
pub proof fn lemma_no_problem_distinct(v: Seq<Sym>)
    requires
        symbols_problem(v) is None,
    ensures
        distinct_names(v),
    decreases v.len(),
{
    if v.len() > 0 {
        lemma_no_problem_distinct(v.drop_last());
        assert forall|i: int, j: int| 0 <= i < j < v.len() implies v[i]@ != v[j]@ by {
            if j == v.len() - 1 {
                assert(v.drop_last()[i] == v[i]);
                assert(names(v.drop_last()).contains(v[i]@));
            } else {
                assert(v.drop_last()[i] == v[i]);
                assert(v.drop_last()[j] == v[j]);
            }
        }
    }
}

/// The symbols of the shapes and then those of the function that are new, sorted.
fn model_symbols(func: &MlirFunc) -> (r: Vec<Sym>)
    ensures
        names(r@) == shape_syms(*func) + names(func.symbols@),
        sorted_names(r@),
{
    let mut out = func.shape_symbols();
    let ghost shape = names(out@);
    let mut i: usize = 0;
    while i < func.symbols.len()
        invariant
            i <= func.symbols@.len(),
            shape == shape_syms(*func),
            distinct_names(out@),
            names(out@) == shape + names(func.symbols@.take(i as int)),
        decreases func.symbols.len() - i,
    {
        let ghost before = out@;
        let s = &func.symbols[i];
        if !contains_name(&out, s) {
            out.push(s.clone());
            proof {
                assert(names(out@) =~= names(before).insert(s@)) by {
                    assert forall|n: Seq<char>| names(out@).contains(n) implies names(before).insert(s@).contains(n) by {
                        let k = choose|k: int| 0 <= k < out@.len() && #[trigger] out@[k]@ == n;
                        if k < before.len() { assert(before[k] == out@[k]); }
                    }
                    assert forall|n: Seq<char>| names(before).insert(s@).contains(n) implies names(out@).contains(n) by {
                        if n == s@ {
                            assert(out@[before.len() as int]@ == n);
                        } else {
                            let k = choose|k: int| 0 <= k < before.len() && #[trigger] before[k]@ == n;
                            assert(out@[k] == before[k]);
                        }
                    }
                }
            }
        }
        proof {
            assert(names(func.symbols@.take(i + 1)) =~= names(func.symbols@.take(i as int)).insert(s@)) by {
                let t = func.symbols@.take(i + 1);
                let t0 = func.symbols@.take(i as int);
                assert forall|n: Seq<char>| names(t).contains(n) implies names(t0).insert(s@).contains(n) by {
                    let k = choose|k: int| 0 <= k < t.len() && #[trigger] t[k]@ == n;
                    if k < i { assert(t0[k] == t[k]); }
                }
                assert forall|n: Seq<char>| names(t0).insert(s@).contains(n) implies names(t).contains(n) by {
                    if n == s@ {
                        assert(t[i as int]@ == n);
                    } else {
                        let k = choose|k: int| 0 <= k < t0.len() && #[trigger] t0[k]@ == n;
                        assert(t[k] == t0[k]);
                    }
                }
            }
            assert(names(out@) =~= shape + names(func.symbols@.take(i + 1)));
        }
        i += 1;
    }
    proof { assert(func.symbols@.take(func.symbols@.len() as int) =~= func.symbols@); }
    sort_symbols(out)
}

impl PerformanceYaml {
    /// The performance model of one function: its symbols must be identifiers without
    /// repeats, it must have at least one alternative here, each alternative becomes a
    /// scenario, the symbols declared are the function's and its shapes', and every symbol
    /// the model uses must be declared.
    pub fn model_for_func(&self, func: &MlirFunc) -> (r: Result<FuncPerfModel, PerfYamlError>)
        ensures
            match r {
                Ok(m) => model_built(*self, *func, m),
                Err(e) => model_failed(*self, *func, e@),
            },
    {
        match super::perf::validate_symbols(&func.symbols) {
            Ok(()) => {},
            Err(m) => { return Err(PerfYamlError::InvalidModel(m)); },
        }
        let k = match x_alts_for(&self.functions, func.name.as_str()) {
            Some(k) => k,
            None => { return Err(PerfYamlError::UnknownFunction(func.name.clone())); },
        };
        let alts = &self.functions[k].1;
        if alts.len() == 0 {
            let mut m = func.name.clone();
            push_str(&mut m, " must define at least one performance alternative");
            return Err(PerfYamlError::InvalidModel(m));
        }
        let scenarios = x_scenarios(alts, &func.name)?;
        let symbols = model_symbols(func);
        let model = FuncPerfModel::builder().symbols(symbols).scenarios(scenarios).build();
        proof {
            assert(model.scenarios@ =~= scenarios@);
            assert(model_shape(*self, *func, model));
        }
        match model.validate_for_func(func) {
            Ok(()) => Ok(model),
            Err(undeclared) => {
                let e = PerfYamlError::Validation { function: func.name.clone(), undeclared };
                proof {
                    assert(model_shape(*self, *func, model) && undeclared_outcome(model, shape_syms(*func), Err(undeclared))
                        && e@ == PerfErrModel::Validation(func.name@, undeclared@.map_values(|s: Sym| s@)));
                }
                Err(e)
            },
        }
    }
}

// ---------------------------------------------------------------------------
// A module's models

/// The `Debug` text of a set of names, listed in order: `{"a", "b"}`.
pub open spec fn set_debug(v: Seq<Sym>) -> Seq<char> {
    "{"@ + set_debug_items(v) + "}"@
}

pub open spec fn set_debug_items(v: Seq<Sym>) -> Seq<char>
    decreases v.len(),
{
    if v.len() == 0 {
        Seq::empty()
    } else if v.len() == 1 {
        "\""@ + v[0]@ + "\""@
    } else {
        set_debug_items(v.drop_last()) + ", \""@ + v.last()@ + "\""@
    }
}

fn push_set_debug(s: &mut String, v: &Vec<Sym>)
    ensures
        final(s)@ == old(s)@ + set_debug(v@),
{
    push_str(s, "{");
    let ghost start = s@;
    let mut i: usize = 0;
    proof { assert(set_debug_items(v@.take(0)) =~= Seq::<char>::empty()); }
    while i < v.len()
        invariant
            i <= v@.len(),
            s@ == start + set_debug_items(v@.take(i as int)),
        decreases v.len() - i,
    {
        proof { assert(v@.take(i + 1).drop_last() =~= v@.take(i as int)); }
        if i == 0 {
            push_str(s, "\"");
        } else {
            push_str(s, ", \"");
        }
        push_str(s, v[i].as_str());
        push_str(s, "\"");
        i += 1;
    }
    proof { assert(v@.take(v@.len() as int) =~= v@); }
    push_str(s, "}");
}

/// The text `source=..., performance=...` of two sets of names, each listed in order.
pub open spec fn names_mismatch(source: Set<Seq<char>>, performance: Set<Seq<char>>, t: Seq<char>) -> bool {
    exists|a: Seq<Sym>, b: Seq<Sym>| {
        &&& sorted_names(a) && names(a) == source
        &&& sorted_names(b) && names(b) == performance
        &&& t == "source="@ + set_debug(a) + ", performance="@ + set_debug(b)
    }
}

/// The names of a module's functions.
pub open spec fn func_names(fs: Seq<MlirFunc>) -> Set<Seq<char>> {
    Set::new(|n: Seq<char>| exists|k: int| 0 <= k < fs.len() && #[trigger] fs[k].name@ == n)
}

/// The names that have alternatives.
pub open spec fn perf_names(p: PerformanceYaml) -> Set<Seq<char>> {
    Set::new(|n: Seq<char>| exists|k: int| 0 <= k < p.functions@.len() && #[trigger] p.functions@[k].0@ == n)
}

/// Some model is built for `f`.
pub open spec fn model_builds(p: PerformanceYaml, f: MlirFunc) -> bool {
    exists|m: FuncPerfModel| model_built(p, f, m)
}

/// The functions before `k` have models and function `k` fails with `e`.
pub open spec fn models_fail_at(p: PerformanceYaml, fs: Seq<MlirFunc>, e: PerfErrModel, k: int) -> bool {
    &&& 0 <= k < fs.len()
    &&& forall|j: int| 0 <= j < k ==> model_builds(p, #[trigger] fs[j])
    &&& model_failed(p, fs[k], e)
}

/// `v` are the models of the functions `fs`, in order.
pub open spec fn module_models(p: PerformanceYaml, fs: Seq<MlirFunc>, v: Seq<FuncPerfModel>) -> bool {
    &&& func_names(fs) == perf_names(p)
    &&& v.len() == fs.len()
    &&& forall|k: int| 0 <= k < v.len() ==> model_built(p, fs[k], #[trigger] v[k])
}

/// `e` is why the functions `fs` have no models: the names differ, or the first function
/// without a model.
pub open spec fn module_models_failed(p: PerformanceYaml, fs: Seq<MlirFunc>, e: PerfErrModel) -> bool {
    if func_names(fs) != perf_names(p) {
        e matches PerfErrModel::InvalidModel(m) && exists|t: Seq<char>|
            names_mismatch(func_names(fs), perf_names(p), t) && m == "function names do not match source: "@ + t
    } else {
        exists|k: int| #[trigger] models_fail_at(p, fs, e, k)
    }
}

/// Adds `n` to `out` unless it holds it.
fn add_name(out: &mut Vec<Sym>, n: &String)
    requires
        distinct_names(old(out)@),
    ensures
        distinct_names(final(out)@),
        names(final(out)@) == names(old(out)@).insert(n@),
{
    let s = Sym(n.clone());
    let ghost before = out@;
    if !contains_name(out, &s) {
        out.push(s);
        proof {
            assert forall|x: Seq<char>| names(out@).contains(x) implies names(before).insert(n@).contains(x) by {
                let k = choose|k: int| 0 <= k < out@.len() && #[trigger] out@[k]@ == x;
                if k < before.len() { assert(before[k] == out@[k]); }
            }
            assert forall|x: Seq<char>| names(before).insert(n@).contains(x) implies names(out@).contains(x) by {
                if x == n@ {
                    assert(out@[before.len() as int]@ == x);
                } else {
                    let k = choose|k: int| 0 <= k < before.len() && #[trigger] before[k]@ == x;
                    assert(out@[k] == before[k]);
                }
            }
            assert(names(out@) =~= names(before).insert(n@));
        }
    } else {
        proof { assert(names(out@) =~= names(before).insert(n@)); }
    }
}

/// The names of the functions, each once, sorted.
pub fn function_name_set(fs: &Vec<MlirFunc>) -> (r: Vec<Sym>)
    ensures
        names(r@) == func_names(fs@),
        sorted_names(r@),
{
    let mut out: Vec<Sym> = Vec::new();
    let mut i: usize = 0;
    proof { assert(names(out@) =~= func_names(fs@.take(0))); }
    while i < fs.len()
        invariant
            i <= fs@.len(),
            distinct_names(out@),
            names(out@) == func_names(fs@.take(i as int)),
        decreases fs.len() - i,
    {
        add_name(&mut out, &fs[i].name);
        proof {
            let t = fs@.take(i + 1);
            let t0 = fs@.take(i as int);
            assert forall|x: Seq<char>| func_names(t).contains(x) implies func_names(t0).insert(fs@[i as int].name@).contains(x) by {
                let k = choose|k: int| 0 <= k < t.len() && #[trigger] t[k].name@ == x;
                if k < i { assert(t0[k] == t[k]); }
            }
            assert forall|x: Seq<char>| func_names(t0).insert(fs@[i as int].name@).contains(x) implies func_names(t).contains(x) by {
                if x == fs@[i as int].name@ {
                    assert(t[i as int].name@ == x);
                } else {
                    let k = choose|k: int| 0 <= k < t0.len() && #[trigger] t0[k].name@ == x;
                    assert(t[k] == t0[k]);
                }
            }
            assert(func_names(t) =~= func_names(t0).insert(fs@[i as int].name@));
        }
        i += 1;
    }
    proof { assert(fs@.take(fs@.len() as int) =~= fs@); }
    sort_symbols(out)
}

/// Whether two lists of symbols hold the same names.
pub(crate) fn same_names(a: &Vec<Sym>, b: &Vec<Sym>) -> (r: bool)
    ensures
        r == (names(a@) == names(b@)),
{
    let mut i: usize = 0;
    while i < a.len()
        invariant
            i <= a@.len(),
            forall|k: int| 0 <= k < i ==> names(b@).contains(#[trigger] a@[k]@),
        decreases a.len() - i,
    {
        if !contains_name(b, &a[i]) {
            proof { assert(names(a@).contains(a@[i as int]@)); }
            return false;
        }
        i += 1;
    }
    let mut j: usize = 0;
    while j < b.len()
        invariant
            j <= b@.len(),
            forall|k: int| 0 <= k < a@.len() ==> names(b@).contains(#[trigger] a@[k]@),
            forall|k: int| 0 <= k < j ==> names(a@).contains(#[trigger] b@[k]@),
        decreases b.len() - j,
    {
        if !contains_name(a, &b[j]) {
            proof { assert(names(b@).contains(b@[j as int]@)); }
            return false;
        }
        j += 1;
    }
    proof {
        assert forall|x: Seq<char>| names(a@).contains(x) <==> names(b@).contains(x) by {
            if names(a@).contains(x) {
                let k = choose|k: int| 0 <= k < a@.len() && #[trigger] a@[k]@ == x;
            }
            if names(b@).contains(x) {
                let k = choose|k: int| 0 <= k < b@.len() && #[trigger] b@[k]@ == x;
            }
        }
        assert(names(a@) =~= names(b@));
    }
    true
}

/// The text that says which names differ.
pub(crate) fn mismatch_text(source: &Vec<Sym>, performance: &Vec<Sym>) -> (r: String)
    requires
        sorted_names(source@),
        sorted_names(performance@),
    ensures
        names_mismatch(names(source@), names(performance@), r@),
{
    let mut t = owned("source=");
    push_set_debug(&mut t, source);
    push_str(&mut t, ", performance=");
    push_set_debug(&mut t, performance);
    proof {
        assert(t@ =~= "source="@ + set_debug(source@) + ", performance="@ + set_debug(performance@));
    }
    t
}

impl PerformanceYaml {
    /// The names that have alternatives, each once, sorted.
    pub fn function_names(&self) -> (r: Vec<Sym>)
        ensures
            names(r@) == perf_names(*self),
            sorted_names(r@),
    {
        let mut out: Vec<Sym> = Vec::new();
        let ghost fs = self.functions@;
        let mut i: usize = 0;
        proof { assert(names(out@) =~= Set::<Seq<char>>::empty()); }
        while i < self.functions.len()
            invariant
                i <= fs.len(),
                fs == self.functions@,
                distinct_names(out@),
                names(out@) == Set::new(|n: Seq<char>| exists|k: int| 0 <= k < i && #[trigger] fs[k].0@ == n),
            decreases self.functions.len() - i,
        {
            let ghost before = names(out@);
            add_name(&mut out, &self.functions[i].0);
            proof {
                assert(names(out@) =~= Set::new(|n: Seq<char>| exists|k: int| 0 <= k < i + 1 && #[trigger] fs[k].0@ == n)) by {
                    assert forall|x: Seq<char>| (exists|k: int| 0 <= k < i + 1 && #[trigger] fs[k].0@ == x) implies names(out@).contains(x) by {
                        let k = choose|k: int| 0 <= k < i + 1 && #[trigger] fs[k].0@ == x;
                        if k < i { assert(before.contains(x)); }
                    }
                }
            }
            i += 1;
        }
        proof { assert(names(out@) =~= perf_names(*self)); }
        sort_symbols(out)
    }

    /// The performance models of a module's functions, in order: the names with
    /// alternatives must be exactly the module's function names, and each function must
    /// have a model.
    pub fn models_for_module(&self, module: &crate::mlir::func::MlirModule) -> (r: Result<Vec<FuncPerfModel>, PerfYamlError>)
        ensures
            match r {
                Ok(v) => module_models(*self, module.functions@, v@),
                Err(e) => module_models_failed(*self, module.functions@, e@),
            },
    {
        let source = function_name_set(&module.functions);
        let performance = self.function_names();
        if !same_names(&source, &performance) {
            let t = mismatch_text(&source, &performance);
            let mut m = owned("function names do not match source: ");
            push_str(&mut m, t.as_str());
            proof { assert(m@ =~= "function names do not match source: "@ + t@); }
            return Err(PerfYamlError::InvalidModel(m));
        }
        let mut out: Vec<FuncPerfModel> = Vec::new();
        let mut i: usize = 0;
        while i < module.functions.len()
            invariant
                i <= module.functions@.len(),
                func_names(module.functions@) == perf_names(*self),
                out@.len() == i,
                forall|k: int| 0 <= k < out@.len() ==> model_built(*self, module.functions@[k], #[trigger] out@[k]),
            decreases module.functions.len() - i,
        {
            match self.model_for_func(&module.functions[i]) {
                Ok(m) => out.push(m),
                Err(e) => {
                    proof {
                        assert forall|j: int| 0 <= j < i implies model_builds(*self, #[trigger] module.functions@[j]) by {
                            assert(model_built(*self, module.functions@[j], out@[j]));
                        }
                        assert(models_fail_at(*self, module.functions@, e@, i as int));
                    }
                    return Err(e);
                },
            }
            i += 1;
        }
        Ok(out)
    }
}

/// The models of the functions.
pub open spec fn funcs_model(fs: Seq<MlirFunc>) -> Seq<crate::mlir::func::FuncModel> {
    fs.map_values(|f: MlirFunc| func_model(f))
}

/// The functions of a definition's operations.
pub open spec fn op_funcs(d: super::processor::ProcessorDefinition) -> Seq<MlirFunc> {
    d.functions@.map_values(|o: super::processor::OperationModel| o.func)
}

/// The performance models of a definition's operations.
pub open spec fn op_perfs(d: super::processor::ProcessorDefinition) -> Seq<FuncPerfModel> {
    d.functions@.map_values(|o: super::processor::OperationModel| o.perf)
}

impl super::processor::ProcessorDefinition {
    /// A definition from native MLIR and the performance alternatives of its functions
    /// (or why they could not be read): the source must parse, the alternatives must have
    /// been read, every function must get its model, and the definition must be valid.
    pub fn from_mlir_source_with_perf_yaml(
        name: &str,
        source: &str,
        performance: Result<PerformanceYaml, PerfYamlError>,
    ) -> (r: Result<super::processor::ProcessorDefinition, String>)
        ensures
            match r {
                Ok(d) => performance matches Ok(p) && {
                    &&& module_text(source@) matches Ok(x) && x.1 == funcs_model(op_funcs(d))
                    &&& module_models(p, op_funcs(d), op_perfs(d))
                    &&& d.name@ == name@
                    &&& d.source@ == source@
                    &&& d.processor_type is None
                    &&& d.resources@.len() == 0
                    &&& super::definition::definition_ok(d)
                },
                Err(e) => match module_text(source@) {
                    Err(m) => e@ == m,
                    Ok(x) => match performance {
                        Err(pe) => e@ == perf_error_text(pe@),
                        Ok(p) => exists|fs: Seq<MlirFunc>| x.1 == #[trigger] funcs_model(fs) && (
                            (exists|pe: PerfErrModel| module_models_failed(p, fs, pe) && e@ == perf_error_text(pe))
                            || exists|d: super::processor::ProcessorDefinition| {
                                &&& #[trigger] op_funcs(d) == fs
                                &&& module_models(p, fs, op_perfs(d))
                                &&& d.name@ == name@
                                &&& d.source@ == source@
                                &&& !super::definition::definition_ok(d)
                            }),
                    },
                },
            },
    {
        let module = crate::mlir::func::MlirModule::from_mlir_source(source)?;
        let ghost fs = module.functions@;
        let spec = match performance {
            Ok(p) => p,
            Err(pe) => { return Err(pe.message()); },
        };
        let models = match spec.models_for_module(&module) {
            Ok(v) => v,
            Err(pe) => {
                let m = pe.message();
                proof {
                    assert(funcs_model(fs) =~= module.functions@.map_values(|f: MlirFunc| func_model(f)));
                    assert(module_models_failed(spec, fs, pe@) && m@ == perf_error_text(pe@));
                }
                return Err(m);
            },
        };
        let ghost all = models@;
        let mut functions: Vec<super::processor::OperationModel> = Vec::new();
        let mut funcs = module.functions;
        let mut perfs = models;
        let n = funcs.len();
        let mut i: usize = 0;
        while i < n
            invariant
                n == fs.len() == all.len(),
                i <= n,
                funcs@ == fs.skip(i as int),
                perfs@ == all.skip(i as int),
                functions@.len() == i,
                forall|k: int| 0 <= k < i ==> (#[trigger] functions@[k]).func == fs[k] && functions@[k].perf == all[k],
            decreases n - i,
        {
            let f = funcs.remove(0);
            let q = perfs.remove(0);
            proof {
                assert(f == fs[i as int]);
                assert(q == all[i as int]);
                assert(funcs@ =~= fs.skip(i + 1));
                assert(perfs@ =~= all.skip(i + 1));
            }
            functions.push(super::processor::OperationModel::new(f, q));
            i += 1;
        }
        let definition = super::processor::ProcessorDefinition::new(name, source, functions);
        proof {
            assert(op_funcs(definition) =~= fs);
            assert(op_perfs(definition) =~= all);
            assert(funcs_model(fs) =~= module.functions@.map_values(|f: MlirFunc| func_model(f)));
        }
        match definition.validate() {
            Ok(()) => Ok(definition),
            Err(m) => Err(m),
        }
    }
}

/// A throughput alternative keeps each of its fields in its own slot: the scenario built
/// from it has as fixed latency the parse of `latency`, as volume the parse of `volume` and
/// as throughput the parse of `throughput`; so its latency is `latency + volume /
/// throughput` of those texts.
pub proof fn law_throughput_alternative(
    constraint: Option<String>,
    latency_text: String,
    volume_text: String,
    throughput_text: String,
    label: Seq<char>,
    s: PerfScenario,
)
    requires
        alt_spec(PerfAlternativeYaml::Throughput { constraint, latency: latency_text, volume: volume_text, throughput: throughput_text }, label)
            == Ok::<(ConstraintModel, CostModel), PerfErrModel>(scenario_model(s)),
    ensures
        s.time_cost matches TimeCost::Throughput { fixed_latency, volume, throughput }
            && expr_text(latency_text@) == Ok::<ExprModel, (Seq<char>, int)>(fixed_latency@)
            && expr_text(volume_text@) == Ok::<ExprModel, (Seq<char>, int)>(volume@)
            && expr_text(throughput_text@) == Ok::<ExprModel, (Seq<char>, int)>(throughput@),
        match constraint {
            None => s.constraints@ == ConstraintModel::True,
            Some(t) => constraint_text(t@) == Ok::<ConstraintModel, (Seq<char>, int)>(s.constraints@),
        },
        ({
            &&& crate::math::expr::eval(expr_text(latency_text@)->Ok_0) matches Some(f)
            &&& crate::math::expr::eval(expr_text(volume_text@)->Ok_0) matches Some(v)
            &&& crate::math::expr::eval(expr_text(throughput_text@)->Ok_0) matches Some(t)
            &&& t != 0
        }) ==> crate::math::expr::eval(super::perf::cost_expr(s.time_cost)) == Some(
            crate::math::expr::eval(expr_text(latency_text@)->Ok_0)->Some_0 + crate::math::expr::trunc_div(
                crate::math::expr::eval(expr_text(volume_text@)->Ok_0)->Some_0,
                crate::math::expr::eval(expr_text(throughput_text@)->Ok_0)->Some_0,
            ),
        ),
{
    match s.time_cost {
        TimeCost::Throughput { fixed_latency, volume, throughput } => {
            let ef = crate::math::expr::eval(fixed_latency@);
            let ev = crate::math::expr::eval(volume@);
            let et = crate::math::expr::eval(throughput@);
            if ef is Some && ev is Some && et is Some && et->Some_0 != 0 {
                super::perf::law_throughput_latency(fixed_latency, volume, throughput, ef->Some_0, ev->Some_0, et->Some_0);
            }
        },
        TimeCost::Expression(_) => {},
    }
}

/// A throughput alternative without a constraint whose three fields parse gives the
/// unconstrained scenario with those parses as fixed latency, volume and throughput, in
/// that order.
pub proof fn law_throughput_alternative_parses(latency_text: String, volume_text: String, throughput_text: String, label: Seq<char>)
    requires
        expr_text(latency_text@) is Ok,
        expr_text(volume_text@) is Ok,
        expr_text(throughput_text@) is Ok,
    ensures
        alt_spec(PerfAlternativeYaml::Throughput { constraint: None, latency: latency_text, volume: volume_text, throughput: throughput_text }, label)
            == Ok::<(ConstraintModel, CostModel), PerfErrModel>((ConstraintModel::True, CostModel::Throughput(
                expr_text(latency_text@)->Ok_0,
                expr_text(volume_text@)->Ok_0,
                expr_text(throughput_text@)->Ok_0,
            ))),
{
}

/// An expression alternative gives the scenario whose cost is the parse of its
/// `expression`, guarded by the parse of its constraint (`True` when it has none).
pub proof fn law_expression_alternative(constraint: Option<String>, expression_text: String, label: Seq<char>, s: PerfScenario)
    requires
        alt_spec(PerfAlternativeYaml::Expression { constraint, expression: expression_text }, label)
            == Ok::<(ConstraintModel, CostModel), PerfErrModel>(scenario_model(s)),
    ensures
        s.time_cost matches TimeCost::Expression(e) && expr_text(expression_text@) == Ok::<ExprModel, (Seq<char>, int)>(e@),
        match constraint {
            None => s.constraints@ == ConstraintModel::True,
            Some(t) => constraint_text(t@) == Ok::<ConstraintModel, (Seq<char>, int)>(s.constraints@),
        },
{
}

} // verus!
