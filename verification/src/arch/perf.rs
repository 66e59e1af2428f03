//! Per-function performance models: declared symbols, global constraints and guarded
//! scenarios, each with a time cost.
use vstd::prelude::*;

use crate::math::expr::{
    csyms, distinct_names, mappings_model, names, sort_symbols, sorted_names, subst, syms,
    ConstraintExpr, Expr, ExprModel, Sym,
};

verus! {

/// Time cost associated with a [`PerfScenario`].
#[derive(Debug)]
pub enum TimeCost {
    Throughput { fixed_latency: Expr, volume: Expr, throughput: Expr },
    /// One latency expression, which may still contain symbols.
    Expression(Expr),
}

/// A guarded performance alternative with an associated time cost.
///
/// When a [`FuncPerfModel`] contains several scenarios, their constraints are expected to
/// be mutually exclusive; nothing here checks that.
#[derive(Debug)]
pub struct PerfScenario {
    pub constraints: ConstraintExpr,
    pub time_cost: TimeCost,
}

/// Per-function performance model: explicit symbol declarations and scenario-based costs.
#[derive(Debug)]
pub struct FuncPerfModel {
    pub symbols: Vec<Sym>,
    pub constraints: ConstraintExpr,
    pub scenarios: Vec<PerfScenario>,
}

/// Builder for [`FuncPerfModel`]: constraints default to `True`, and undeclared symbols are
/// inferred from the constraints and scenarios.
#[derive(Debug)]
pub struct FuncPerfModelBuilder {
    pub symbols: Option<Vec<Sym>>,
    pub constraints: Option<ConstraintExpr>,
    pub scenarios: Vec<PerfScenario>,
}

/// The single latency expression of a time cost.
pub open spec fn cost_expr(t: TimeCost) -> ExprModel {
    match t {
        TimeCost::Throughput { fixed_latency, volume, throughput } => ExprModel::Add(
            Box::new(fixed_latency@),
            Box::new(ExprModel::Div(Box::new(volume@), Box::new(throughput@))),
        ),
        TimeCost::Expression(e) => e@,
    }
}

/// The symbols of a time cost.
pub open spec fn cost_syms(t: TimeCost) -> Set<Seq<char>> {
    match t {
        TimeCost::Throughput { fixed_latency, volume, throughput } => syms(fixed_latency@) + syms(volume@) + syms(throughput@),
        TimeCost::Expression(e) => syms(e@),
    }
}

/// The symbols of a scenario: its constraints and its time cost.
pub open spec fn scenario_syms(s: PerfScenario) -> Set<Seq<char>> {
    csyms(s.constraints@) + cost_syms(s.time_cost)
}

/// The symbols of a list of scenarios.
pub open spec fn scenarios_syms(s: Seq<PerfScenario>) -> Set<Seq<char>>
    decreases s.len(),
{
    if s.len() == 0 {
        Set::empty()
    } else {
        scenarios_syms(s.drop_last()) + scenario_syms(s.last())
    }
}

/// Every symbol that a model's constraints and scenarios use.
pub open spec fn model_syms(m: FuncPerfModel) -> Set<Seq<char>> {
    csyms(m.constraints@) + scenarios_syms(m.scenarios@)
}

impl TimeCost {
    pub fn throughput(fixed_latency: Expr, volume: Expr, throughput: Expr) -> (r: TimeCost)
        ensures
            r == (TimeCost::Throughput { fixed_latency, volume, throughput }),
    {
        TimeCost::Throughput { fixed_latency, volume, throughput }
    }

    /// The inner expression of the `Expression` variant.
    pub fn as_expression(&self) -> (r: Option<&Expr>)
        ensures
            match self {
                TimeCost::Expression(e) => r == Some(e),
                _ => r is None,
            },
    {
        match self {
            TimeCost::Expression(e) => Some(e),
            _ => None,
        }
    }

    /// Either form as one latency expression: `fixed_latency + volume / throughput`.
    pub fn to_expr(&self) -> (r: Expr)
        ensures
            r@ == cost_expr(*self),
    {
        match self {
            TimeCost::Throughput { fixed_latency, volume, throughput } => Expr::add(
                fixed_latency.clone(),
                Expr::div(volume.clone(), throughput.clone()),
            ),
            TimeCost::Expression(e) => e.clone(),
        }
    }

    /// Adds the symbols of this time cost that `out` does not hold yet.
    pub fn collect_symbols(&self, out: &mut Vec<Sym>)
        ensures
            names(final(out)@) == names(old(out)@) + cost_syms(*self),
            distinct_names(old(out)@) ==> distinct_names(final(out)@),
    {
        match self {
            TimeCost::Throughput { fixed_latency, volume, throughput } => {
                fixed_latency.collect_symbols(out);
                volume.collect_symbols(out);
                throughput.collect_symbols(out);
                proof {
                    assert(names(old(out)@) + syms(fixed_latency@) + syms(volume@) + syms(throughput@)
                        =~= names(old(out)@) + cost_syms(*self));
                }
            },
            TimeCost::Expression(e) => e.collect_symbols(out),
        }
    }

    /// The same cost with every symbol replaced according to `mappings`.
    pub fn substitute(&self, mappings: &[(Sym, Expr)]) -> (r: TimeCost)
        ensures
            match (*self, r) {
                (TimeCost::Throughput { fixed_latency: a, volume: b, throughput: c },
                 TimeCost::Throughput { fixed_latency: x, volume: y, throughput: z }) =>
                    x@ == subst(a@, mappings_model(mappings@)) && y@ == subst(b@, mappings_model(mappings@))
                        && z@ == subst(c@, mappings_model(mappings@)),
                (TimeCost::Expression(a), TimeCost::Expression(x)) => x@ == subst(a@, mappings_model(mappings@)),
                _ => false,
            },
    {
        match self {
            TimeCost::Throughput { fixed_latency, volume, throughput } => TimeCost::throughput(
                fixed_latency.substitute(mappings),
                volume.substitute(mappings),
                throughput.substitute(mappings),
            ),
            TimeCost::Expression(e) => TimeCost::Expression(e.substitute(mappings)),
        }
    }
}

impl PerfScenario {
    /// A scenario with no constraints of its own.
    pub fn new(time_cost: TimeCost) -> (r: PerfScenario)
        ensures
            r.constraints == ConstraintExpr::True,
            r.time_cost == time_cost,
    {
        PerfScenario { constraints: ConstraintExpr::True, time_cost }
    }

    /// A scenario that applies under `constraints`.
    pub fn with_constraints(constraints: ConstraintExpr, time_cost: TimeCost) -> (r: PerfScenario)
        ensures
            r.constraints == constraints,
            r.time_cost == time_cost,
    {
        PerfScenario { constraints, time_cost }
    }

    /// Adds the symbols of this scenario that `out` does not hold yet.
    pub fn collect_symbols(&self, out: &mut Vec<Sym>)
        ensures
            names(final(out)@) == names(old(out)@) + scenario_syms(*self),
            distinct_names(old(out)@) ==> distinct_names(final(out)@),
    {
        self.constraints.collect_symbols(out);
        self.time_cost.collect_symbols(out);
        proof {
            assert(names(old(out)@) + csyms(self.constraints@) + cost_syms(self.time_cost)
                =~= names(old(out)@) + scenario_syms(*self));
        }
    }
}

/// Adds the symbols of every scenario.
fn collect_scenarios(scenarios: &[PerfScenario], out: &mut Vec<Sym>)
    ensures
        names(final(out)@) == names(old(out)@) + scenarios_syms(scenarios@),
        distinct_names(old(out)@) ==> distinct_names(final(out)@),
{
    let mut i: usize = 0;
    proof { assert(names(old(out)@) + scenarios_syms(scenarios@.take(0)) =~= names(old(out)@)); }
    while i < scenarios.len()
        invariant
            i <= scenarios@.len(),
            names(out@) == names(old(out)@) + scenarios_syms(scenarios@.take(i as int)),
            distinct_names(old(out)@) ==> distinct_names(out@),
        decreases scenarios.len() - i,
    {
        scenarios[i].collect_symbols(out);
        proof {
            assert(scenarios@.take(i + 1).drop_last() =~= scenarios@.take(i as int));
            assert(names(old(out)@) + scenarios_syms(scenarios@.take(i as int)) + scenario_syms(scenarios@[i as int])
                =~= names(old(out)@) + scenarios_syms(scenarios@.take(i + 1)));
        }
        i += 1;
    }
    proof { assert(scenarios@.take(scenarios@.len() as int) =~= scenarios@); }
}

/// The symbols of `used` that `declared` lacks, sorted by name.
pub fn undeclared_symbols(used: &Vec<Sym>, declared: &Vec<Sym>) -> (r: Vec<Sym>)
    requires
        distinct_names(used@),
    ensures
        names(r@) == names(used@).difference(names(declared@)),
        sorted_names(r@),
{
    let mut out: Vec<Sym> = Vec::new();
    let mut i: usize = 0;
    while i < used.len()
        invariant
            i <= used@.len(),
            distinct_names(used@),
            distinct_names(out@),
            names(out@) == names(used@.take(i as int)).difference(names(declared@)),
        decreases used.len() - i,
    {
        let ghost before = out@;
        if !crate::math::expr::contains_name(declared, &used[i]) {
            out.push(used[i].clone());
            proof {
                assert forall|a: int, b: int| 0 <= a < b < out@.len() implies out@[a]@ != out@[b]@ by {
                    if b == out@.len() - 1 {
                        assert(names(before).contains(out@[a]@)) by { assert(before[a] == out@[a]); }
                        let k = choose|k: int| 0 <= k < i && #[trigger] used@.take(i as int)[k]@ == out@[a]@;
                        assert(used@[k]@ == out@[a]@);
                    } else {
                        assert(before[a] == out@[a] && before[b] == out@[b]);
                    }
                }
            }
        }
        proof {
            assert(names(out@) =~= names(used@.take(i + 1)).difference(names(declared@))) by {
                assert forall|n: Seq<char>| names(out@).contains(n) implies names(used@.take(i + 1)).difference(names(declared@)).contains(n) by {
                    let k = choose|k: int| 0 <= k < out@.len() && #[trigger] out@[k]@ == n;
                    if k < before.len() {
                        assert(before[k] == out@[k]);
                        assert(names(before).contains(n));
                        let j = choose|j: int| 0 <= j < i && #[trigger] used@.take(i as int)[j]@ == n;
                        assert(used@.take(i + 1)[j]@ == n);
                    } else {
                        assert(used@.take(i + 1)[i as int]@ == n);
                    }
                }
                assert forall|n: Seq<char>| names(used@.take(i + 1)).difference(names(declared@)).contains(n) implies names(out@).contains(n) by {
                    let j = choose|j: int| 0 <= j < i + 1 && #[trigger] used@.take(i + 1)[j]@ == n;
                    if j < i {
                        assert(used@.take(i as int)[j]@ == n);
                        assert(names(before).contains(n));
                        let k = choose|k: int| 0 <= k < before.len() && #[trigger] before[k]@ == n;
                        assert(out@[k] == before[k]);
                    } else {
                        assert(out@[out@.len() - 1]@ == n);
                    }
                }
            }
        }
        i += 1;
    }
    proof { assert(used@.take(used@.len() as int) =~= used@); }
    sort_symbols(out)
}

/// What `validate` gives when `extra` symbols are used besides the model's own.
pub open spec fn undeclared_outcome(m: FuncPerfModel, extra: Set<Seq<char>>, r: Result<(), Vec<Sym>>) -> bool {
    let undeclared = (extra + model_syms(m)).difference(names(m.symbols@));
    match r {
        Ok(()) => undeclared.is_empty(),
        Err(v) => !undeclared.is_empty() && names(v@) == undeclared && sorted_names(v@),
    }
}

impl FuncPerfModel {
    /// A builder with no constraints, scenarios or declared symbols.
    pub fn builder() -> (r: FuncPerfModelBuilder)
        ensures
            r.symbols is None,
            r.constraints is None,
            r.scenarios@.len() == 0,
    {
        FuncPerfModelBuilder { symbols: None, constraints: None, scenarios: Vec::new() }
    }

    /// The model with no symbols and no scenarios.
    pub fn trivial() -> (r: FuncPerfModel)
        ensures
            r.symbols@.len() == 0,
            r.constraints == ConstraintExpr::True,
            r.scenarios@.len() == 0,
    {
        FuncPerfModel { symbols: Vec::new(), constraints: ConstraintExpr::True, scenarios: Vec::new() }
    }

    /// Checks that every symbol used by the constraints and scenarios is declared; on
    /// failure, gives the undeclared ones sorted by name.
    pub fn validate(&self) -> (r: Result<(), Vec<Sym>>)
        ensures
            undeclared_outcome(*self, Set::empty(), r),
    {
        let none: Vec<Sym> = Vec::new();
        proof { assert(names(none@) =~= Set::<Seq<char>>::empty()); }
        self.validate_with_extra_symbols(none)
    }

    /// Checks the model together with symbols that a linked function uses.
    pub fn validate_with_extra_symbols(&self, used: Vec<Sym>) -> (r: Result<(), Vec<Sym>>)
        requires
            distinct_names(used@),
        ensures
            undeclared_outcome(*self, names(used@), r),
    {
        let ghost given = names(used@);
        let mut used = used;
        self.constraints.collect_symbols(&mut used);
        collect_scenarios(self.scenarios.as_slice(), &mut used);
        let undeclared = undeclared_symbols(&used, &self.symbols);
        proof {
            assert(names(used@) =~= given + model_syms(*self));
        }
        if undeclared.len() == 0 {
            proof {
                assert(names(undeclared@) =~= Set::<Seq<char>>::empty());
            }
            Ok(())
        } else {
            proof {
                assert(names(undeclared@).contains(undeclared@[0]@));
            }
            Err(undeclared)
        }
    }

    /// The total latency expression of one scenario, or `None` past the last one.
    pub fn total_latency_for(&self, scenario: usize) -> (r: Option<Expr>)
        ensures
            match r {
                Some(e) => scenario < self.scenarios@.len() && e@ == cost_expr(self.scenarios@[scenario as int].time_cost),
                None => scenario >= self.scenarios@.len(),
            },
    {
        if scenario < self.scenarios.len() {
            Some(self.scenarios[scenario].time_cost.to_expr())
        } else {
            None
        }
    }

    pub fn num_scenarios(&self) -> (r: usize)
        ensures
            r == self.scenarios@.len(),
    {
        self.scenarios.len()
    }

    /// Every symbol of the constraints and scenarios, each once, sorted by name.
    pub fn infer_symbols(constraints: &ConstraintExpr, scenarios: &[PerfScenario]) -> (r: Vec<Sym>)
        ensures
            names(r@) == csyms(constraints@) + scenarios_syms(scenarios@),
            sorted_names(r@),
    {
        let mut used: Vec<Sym> = Vec::new();
        proof { assert(names(used@) =~= Set::<Seq<char>>::empty()); }
        constraints.collect_symbols(&mut used);
        collect_scenarios(scenarios, &mut used);
        proof {
            assert(Set::<Seq<char>>::empty() + csyms(constraints@) + scenarios_syms(scenarios@)
                =~= csyms(constraints@) + scenarios_syms(scenarios@));
        }
        sort_symbols(used)
    }
}

impl FuncPerfModelBuilder {
    /// Declares the symbols instead of inferring them.
    pub fn symbols(self, symbols: Vec<Sym>) -> (r: FuncPerfModelBuilder)
        ensures
            r.symbols == Some(symbols),
            r.constraints == self.constraints,
            r.scenarios == self.scenarios,
    {
        FuncPerfModelBuilder { symbols: Some(symbols), constraints: self.constraints, scenarios: self.scenarios }
    }

    /// Sets the global constraints.
    pub fn constraints(self, constraints: ConstraintExpr) -> (r: FuncPerfModelBuilder)
        ensures
            r.symbols == self.symbols,
            r.constraints == Some(constraints),
            r.scenarios == self.scenarios,
    {
        FuncPerfModelBuilder { symbols: self.symbols, constraints: Some(constraints), scenarios: self.scenarios }
    }

    /// Adds one scenario.
    pub fn scenario(self, scenario: PerfScenario) -> (r: FuncPerfModelBuilder)
        ensures
            r.symbols == self.symbols,
            r.constraints == self.constraints,
            r.scenarios@ == self.scenarios@.push(scenario),
    {
        let mut b = self;
        b.scenarios.push(scenario);
        b
    }

    /// Adds several scenarios, in order.
    pub fn scenarios(self, scenarios: Vec<PerfScenario>) -> (r: FuncPerfModelBuilder)
        ensures
            r.symbols == self.symbols,
            r.constraints == self.constraints,
            r.scenarios@ == self.scenarios@ + scenarios@,
    {
        let mut b = self;
        let mut more = scenarios;
        b.scenarios.append(&mut more);
        b
    }

    /// Adds an unconstrained scenario with this time cost.
    pub fn throughput_scenario(self, time_cost: TimeCost) -> (r: FuncPerfModelBuilder)
        ensures
            r.symbols == self.symbols,
            r.constraints == self.constraints,
            r.scenarios@ == self.scenarios@.push(PerfScenario { constraints: ConstraintExpr::True, time_cost }),
    {
        self.scenario(PerfScenario::new(time_cost))
    }

    /// Adds an unconstrained scenario from the parts of a throughput cost.
    pub fn simple_time_cost(self, fixed_latency: Expr, volume: Expr, throughput: Expr) -> (r: FuncPerfModelBuilder)
        ensures
            r.symbols == self.symbols,
            r.constraints == self.constraints,
            r.scenarios@ == self.scenarios@.push(PerfScenario {
                constraints: ConstraintExpr::True,
                time_cost: TimeCost::Throughput { fixed_latency, volume, throughput },
            }),
    {
        self.throughput_scenario(TimeCost::throughput(fixed_latency, volume, throughput))
    }

    /// Adds a scenario that applies under `constraints`.
    pub fn scenario_with_constraints(self, constraints: ConstraintExpr, time_cost: TimeCost) -> (r: FuncPerfModelBuilder)
        ensures
            r.symbols == self.symbols,
            r.constraints == self.constraints,
            r.scenarios@ == self.scenarios@.push(PerfScenario { constraints, time_cost }),
    {
        self.scenario(PerfScenario::with_constraints(constraints, time_cost))
    }

    /// The model: constraints default to `True`; undeclared symbols are inferred, sorted.
    pub fn build(self) -> (r: FuncPerfModel)
        ensures
            r.scenarios == self.scenarios,
            r.constraints == match self.constraints { Some(c) => c, None => ConstraintExpr::True },
            match self.symbols {
                Some(s) => r.symbols == s,
                None => names(r.symbols@) == csyms(r.constraints@) + scenarios_syms(r.scenarios@) && sorted_names(r.symbols@),
            },
    {
        let constraints = match self.constraints {
            Some(c) => c,
            None => ConstraintExpr::True,
        };
        let symbols = match self.symbols {
            Some(s) => s,
            None => FuncPerfModel::infer_symbols(&constraints, self.scenarios.as_slice()),
        };
        FuncPerfModel { symbols, constraints, scenarios: self.scenarios }
    }
}


impl FuncPerfModel {
    /// Checks the model together with the shape and area symbols of the function it
    /// models.
    pub fn validate_for_func(&self, func: &crate::mlir::func::MlirFunc) -> (r: Result<(), Vec<Sym>>)
        ensures
            undeclared_outcome(*self, crate::mlir::module::shape_syms(*func), r),
    {
        let used = func.shape_symbols();
        self.validate_with_extra_symbols(used)
    }
}

/// Symbol names are identifiers and none occurs twice.
pub open spec fn symbols_ok(v: Seq<Sym>) -> bool {
    (forall|i: int| 0 <= i < v.len() ==> v[i]@.len() > 0 && crate::text::all_ident(v[i]@, 0, v[i]@.len() as int))
        && distinct_names(v)
}

/// What `validate_symbols` reports: the first symbol that is not an identifier or that
/// repeats an earlier one.
pub open spec fn symbols_problem(v: Seq<Sym>) -> Option<Seq<char>>
    decreases v.len(),
{
    if v.len() == 0 {
        None
    } else {
        match symbols_problem(v.drop_last()) {
            Some(m) => Some(m),
            None => {
                let n = v.last()@;
                if n.len() == 0 || !crate::text::all_ident(n, 0, n.len() as int) {
                    Some("invalid symbol name '"@ + n + "'"@)
                } else if names(v.drop_last()).contains(n) {
                    Some("duplicate symbol '"@ + n + "'"@)
                } else {
                    None
                }
            },
        }
    }
}

/// Checks that symbol names are identifiers and that none repeats.
pub fn validate_symbols(v: &Vec<Sym>) -> (r: Result<(), String>)
    ensures
        match r {
            Ok(()) => symbols_problem(v@) is None,
            Err(m) => symbols_problem(v@) == Some(m@),
        },
{
    let mut seen: Vec<Sym> = Vec::new();
    let mut i: usize = 0;
    proof { assert(seen@ =~= v@.take(0)); }
    while i < v.len()
        invariant
            i <= v@.len(),
            seen@ == v@.take(i as int),
            symbols_problem(v@.take(i as int)) is None,
        decreases v.len() - i,
    {
        proof { assert(v@.take(i + 1).drop_last() =~= v@.take(i as int)); }
        let cs = crate::text::chars_of(v[i].as_str());
        if cs.len() == 0 || !crate::text::all_ident_in(cs.as_slice(), 0, cs.len()) {
            let mut m = crate::text::owned("invalid symbol name '");
            crate::text::push_str(&mut m, v[i].as_str());
            crate::text::push_str(&mut m, "'");
            proof { lemma_symbols_problem_sticky(v@, i + 1); }
            return Err(m);
        }
        if crate::math::expr::contains_name(&seen, &v[i]) {
            let mut m = crate::text::owned("duplicate symbol '");
            crate::text::push_str(&mut m, v[i].as_str());
            crate::text::push_str(&mut m, "'");
            proof { lemma_symbols_problem_sticky(v@, i + 1); }
            return Err(m);
        }
        seen.push(v[i].clone());
        proof { assert(seen@ =~= v@.take(i + 1)); }
        i += 1;
    }
    proof { assert(v@.take(v@.len() as int) =~= v@); }
    Ok(())
}

/// A problem found in a prefix is the problem of the whole list.
pub proof fn lemma_symbols_problem_sticky(v: Seq<Sym>, i: int)
    requires
        0 <= i <= v.len(),
        symbols_problem(v.take(i)) is Some,
    ensures
        symbols_problem(v) == symbols_problem(v.take(i)),
    decreases v.len() - i,
{
    if i < v.len() {
        assert(v.take(i + 1).drop_last() =~= v.take(i));
        lemma_symbols_problem_sticky(v, i + 1);
    } else {
        assert(v.take(i) =~= v);
    }
}

/// A throughput cost takes `fixed_latency + volume / throughput`: with constant fields
/// it evaluates to the fixed latency plus the volume divided by the throughput (rounded
/// toward zero), so it grows with the volume and shrinks as the throughput grows.
pub proof fn law_throughput_latency(fixed_latency: Expr, volume: Expr, throughput: Expr, f: int, v: int, t: int)
    requires
        crate::math::expr::eval(fixed_latency@) == Some(f),
        crate::math::expr::eval(volume@) == Some(v),
        crate::math::expr::eval(throughput@) == Some(t),
        t != 0,
    ensures
        crate::math::expr::eval(cost_expr(TimeCost::Throughput { fixed_latency, volume, throughput }))
            == Some(f + crate::math::expr::trunc_div(v, t)),
{
    let d = ExprModel::Div(Box::new(volume@), Box::new(throughput@));
    assert(crate::math::expr::eval(d) == Some(crate::math::expr::trunc_div(v, t)));
}

} // verus!
