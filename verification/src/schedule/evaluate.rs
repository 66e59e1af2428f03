//! Performance evaluation of a schedule on an architecture.
use vstd::prelude::*;

use super::schedule::{
    cost_model, has_scenarios, lemma_schedules_model_len, lemma_schedules_model_push, model_scenarios,
    scenario_model, scenarios_model, schedule_model, schedules_model, CostModel, Schedule, ScenarioModel,
    ScheduleModel,
};
use crate::arch::architecture::{functions_named_model, Architecture};
use crate::arch::perf::{cost_expr, FuncPerfModel, PerfScenario, TimeCost};
use crate::math::expr::{
    constraints_model, csubst, lemma_constraints_model_len, mappings_model, subst, ConstraintExpr,
    ConstraintModel, Expr, ExprModel,
};
use crate::mlir::func::MlirFunc;
use crate::text::decimal;

verus! {

/// The two constraints joined by AND, where neither is `True`; otherwise the other one.
pub open spec fn and_model(a: ConstraintModel, b: ConstraintModel) -> ConstraintModel {
    if a is True {
        b
    } else if b is True {
        a
    } else {
        ConstraintModel::And(seq![a, b])
    }
}

/// A cost as one latency expression.
pub open spec fn cost_of(c: CostModel) -> ExprModel {
    match c {
        CostModel::Throughput(f, v, t) => ExprModel::Add(Box::new(f), Box::new(ExprModel::Div(Box::new(v), Box::new(t)))),
        CostModel::Expression(e) => e,
    }
}

/// One scenario of a composition from one scenario of each side: the guards joined, the
/// costs added (in sequence) or their maximum taken (in parallel).
pub open spec fn combine(e: ScenarioModel, n: ScenarioModel, parallel: bool) -> ScenarioModel {
    (
        and_model(e.0, n.0),
        CostModel::Expression(
            if parallel {
                ExprModel::Max(Box::new(cost_of(e.1)), Box::new(cost_of(n.1)))
            } else {
                ExprModel::Add(Box::new(cost_of(e.1)), Box::new(cost_of(n.1)))
            },
        ),
    )
}

/// Every scenario of `res` combined with every scenario of `news`, `res` outermost.
pub open spec fn step(res: Seq<ScenarioModel>, news: Seq<ScenarioModel>, parallel: bool) -> Seq<ScenarioModel>
    decreases res.len(),
{
    if res.len() == 0 {
        Seq::empty()
    } else {
        step(res.drop_last(), news, parallel) + news.map_values(|n: ScenarioModel| combine(res.last(), n, parallel))
    }
}

/// The Cartesian product of the children's scenarios, starting from the scenario that
/// costs nothing under no guard.
pub open spec fn product(lists: Seq<Seq<ScenarioModel>>, parallel: bool) -> Seq<ScenarioModel>
    decreases lists.len(),
{
    if lists.len() == 0 {
        seq![(ConstraintModel::True, CostModel::Expression(ExprModel::Const(0)))]
    } else {
        step(product(lists.drop_last(), parallel), lists.last(), parallel)
    }
}

/// The scenarios of each evaluated child.
pub open spec fn scenario_lists(ms: Seq<ScheduleModel>) -> Seq<Seq<ScenarioModel>> {
    ms.map_values(|m: ScheduleModel| model_scenarios(m))
}

/// One scenario of a function's model, under the model's global guard, its cost as one
/// expression, with the call's symbol mapping applied where it has one.
pub open spec fn fused(func: MlirFunc, guard: ConstraintModel, p: PerfScenario) -> ScenarioModel {
    let c = and_model(guard, p.constraints@);
    let e = cost_expr(p.time_cost);
    match func.sym_map {
        Some(m) => (csubst(c, mappings_model(m.entries@)), CostModel::Expression(subst(e, mappings_model(m.entries@)))),
        None => (c, CostModel::Expression(e)),
    }
}

/// The scenarios of a call of `func` under the performance model `model`.
pub open spec fn function_scenarios(func: MlirFunc, model: FuncPerfModel) -> Seq<ScenarioModel> {
    model.scenarios@.map_values(|p: PerfScenario| fused(func, model.constraints@, p))
}

/// What evaluating a function node gives: the function's scenarios where exactly one
/// processor definition implements it; an error naming it where none or several do.
pub open spec fn function_evaluated(func: MlirFunc, a: Architecture) -> Result<ScheduleModel, Seq<char>> {
    let ms = functions_named_model(a.processor_definitions@, func.name@);
    if ms.len() == 0 {
        Err("no OperationModel found for '"@ + func.name@ + "' in the architecture"@)
    } else if ms.len() == 1 {
        Ok(ScheduleModel::Func(func, Some(function_scenarios(func, ms[0].perf))))
    } else {
        Err("function '"@ + func.name@ + "' has "@ + decimal(ms.len()) + " implementations; use Schedule::PlacedFunc"@)
    }
}

/// What evaluating a schedule gives: every node with its scenarios filled in, or the error
/// of the first function, in order, that cannot be evaluated.
pub open spec fn evaluated(s: Schedule, a: Architecture) -> Result<ScheduleModel, Seq<char>>
    decreases s,
{
    match s {
        Schedule::Parallel { schedules, .. } => match evaluated_all(schedules@, a) {
            Ok(ms) => Ok(ScheduleModel::Parallel(ms, Some(product(scenario_lists(ms), true)))),
            Err(e) => Err(e),
        },
        Schedule::Sequential { schedules, .. } => match evaluated_all(schedules@, a) {
            Ok(ms) => Ok(ScheduleModel::Sequential(ms, Some(product(scenario_lists(ms), false)))),
            Err(e) => Err(e),
        },
        Schedule::Func { func, .. } => function_evaluated(func, a),
    }
}

/// Each schedule of `v` evaluated, in order; the first error where one fails.
pub open spec fn evaluated_all(v: Seq<Schedule>, a: Architecture) -> Result<Seq<ScheduleModel>, Seq<char>>
    decreases v,
{
    if v.len() == 0 {
        Ok(Seq::empty())
    } else {
        match evaluated_all(v.drop_last(), a) {
            Err(e) => Err(e),
            Ok(ms) => match evaluated(v.last(), a) {
                Err(e) => Err(e),
                Ok(m) => Ok(ms.push(m)),
            },
        }
    }
}

/// The number of combinations of one scenario from each list.
pub open spec fn combinations(lists: Seq<Seq<ScenarioModel>>) -> nat
    decreases lists.len(),
{
    if lists.len() == 0 {
        1
    } else {
        combinations(lists.drop_last()) * lists.last().len()
    }
}

/// Combining every scenario of `res` with every scenario of `news` gives one scenario per
/// pair, `res` outermost: the pair `(i, j)` lands at `i * |news| + j`.
pub proof fn law_step_pairs(res: Seq<ScenarioModel>, news: Seq<ScenarioModel>, parallel: bool)
    ensures
        step(res, news, parallel).len() == res.len() * news.len(),
        forall|i: int, j: int| 0 <= i < res.len() && 0 <= j < news.len()
            ==> #[trigger] step(res, news, parallel)[i * news.len() + j] == combine(res[i], news[j], parallel),
    decreases res.len(),
{
    if res.len() > 0 {
        let r = res.drop_last();
        law_step_pairs(r, news, parallel);
        let n = news.len() as int;
        assert(res.len() * n == r.len() * n + n) by (nonlinear_arith)
            requires
                res.len() == r.len() + 1;
        assert forall|i: int, j: int| 0 <= i < res.len() && 0 <= j < news.len()
            implies #[trigger] step(res, news, parallel)[i * news.len() + j] == combine(res[i], news[j], parallel) by {
            if i < r.len() {
                assert(i * n + j < r.len() * n) by (nonlinear_arith)
                    requires
                        0 <= i < r.len(),
                        0 <= j < n;
                assert(r[i] == res[i]);
            } else {
                assert(i * n == r.len() * n) by (nonlinear_arith)
                    requires
                        i == r.len();
            }
        }
    }
}

/// Composition forms the Cartesian product: a composition has one scenario per choice of
/// one scenario from each child.
pub proof fn law_product_size(lists: Seq<Seq<ScenarioModel>>, parallel: bool)
    ensures
        product(lists, parallel).len() == combinations(lists),
    decreases lists.len(),
{
    if lists.len() > 0 {
        law_product_size(lists.drop_last(), parallel);
        law_step_pairs(product(lists.drop_last(), parallel), lists.last(), parallel);
    }
}

/// Evaluation reads no scenarios from its input: evaluating a schedule whose model is the
/// result of an evaluation gives that result again.
pub proof fn law_evaluate_again(s: Schedule, t: Schedule, a: Architecture)
    requires
        evaluated(s, a) is Ok,
        t@ == evaluated(s, a)->Ok_0,
    ensures
        evaluated(t, a) == evaluated(s, a),
    decreases s, 1nat,
{
    match s {
        Schedule::Parallel { schedules, .. } => {
            match t {
                Schedule::Parallel { schedules: w, .. } => {
                    lemma_evaluate_all_again(schedules@, w@, a, s);
                },
                _ => {},
            }
        },
        Schedule::Sequential { schedules, .. } => {
            match t {
                Schedule::Sequential { schedules: w, .. } => {
                    lemma_evaluate_all_again(schedules@, w@, a, s);
                },
                _ => {},
            }
        },
        Schedule::Func { .. } => {},
    }
}

proof fn lemma_evaluate_all_again(v: Seq<Schedule>, w: Seq<Schedule>, a: Architecture, outer: Schedule)
    requires
        decreases_to!(outer => v),
        evaluated_all(v, a) is Ok,
        schedules_model(w) == evaluated_all(v, a)->Ok_0,
    ensures
        evaluated_all(w, a) == evaluated_all(v, a),
    decreases outer, 0nat, v.len(),
{
    lemma_schedules_model_len(w);
    lemma_evaluated_all_len(v, a);
    if v.len() > 0 {
        let ms = evaluated_all(v, a)->Ok_0;
        assert(evaluated_all(v.drop_last(), a) is Ok);
        let ms0 = evaluated_all(v.drop_last(), a)->Ok_0;
        assert(evaluated(v.last(), a) is Ok);
        assert(ms == ms0.push(evaluated(v.last(), a)->Ok_0));
        assert(ms.drop_last() =~= ms0);
        assert(schedules_model(w).drop_last() =~= schedules_model(w.drop_last()));
        assert(decreases_to!(outer => v.drop_last()));
        lemma_evaluate_all_again(v.drop_last(), w.drop_last(), a, outer);
        assert(decreases_to!(outer => v.last()));
        assert(w.last()@ == ms.last());
        law_evaluate_again(v.last(), w.last(), a);
    }
}

proof fn lemma_evaluated_all_len(v: Seq<Schedule>, a: Architecture)
    requires
        evaluated_all(v, a) is Ok,
    ensures
        evaluated_all(v, a)->Ok_0.len() == v.len(),
    decreases v.len(),
{
    if v.len() > 0 {
        lemma_evaluated_all_len(v.drop_last(), a);
    }
}

proof fn lemma_evaluated_all_sticky(v: Seq<Schedule>, k: int, a: Architecture)
    requires
        0 <= k <= v.len(),
        evaluated_all(v.take(k), a) is Err,
    ensures
        evaluated_all(v, a) == evaluated_all(v.take(k), a),
    decreases v.len(),
{
    if k == v.len() {
        assert(v.take(k) =~= v);
    } else {
        assert(v.drop_last().take(k) =~= v.take(k));
        lemma_evaluated_all_sticky(v.drop_last(), k, a);
    }
}

/// Both constraints joined by AND, with a `True` side left out.
fn and_constraints(a: &ConstraintExpr, b: &ConstraintExpr) -> (r: ConstraintExpr)
    ensures
        r@ == and_model(a@, b@),
{
    match a {
        ConstraintExpr::True => b.clone(),
        _ => match b {
            ConstraintExpr::True => a.clone(),
            _ => {
                let x = a.clone();
                let y = b.clone();
                let v = vec![x, y];
                proof {
                    lemma_constraints_model_len(v@);
                    assert(constraints_model(v@) =~= seq![a@, b@]);
                }
                ConstraintExpr::And(v)
            },
        },
    }
}

/// Every scenario of `res` combined with every scenario of `news`.
fn combine_all(res: &Vec<PerfScenario>, news: &Vec<PerfScenario>, parallel: bool) -> (r: Vec<PerfScenario>)
    ensures
        scenarios_model(r@) == step(scenarios_model(res@), scenarios_model(news@), parallel),
{
    let ghost nm = scenarios_model(news@);
    let mut out: Vec<PerfScenario> = Vec::new();
    let mut i: usize = 0;
    while i < res.len()
        invariant
            i <= res@.len(),
            nm == scenarios_model(news@),
            scenarios_model(out@) == step(scenarios_model(res@.take(i as int)), nm, parallel),
        decreases res.len() - i,
    {
        let ghost before = scenarios_model(out@);
        let ghost e = scenario_model(res@[i as int]);
        let mut j: usize = 0;
        while j < news.len()
            invariant
                i < res@.len(),
                j <= news@.len(),
                nm == scenarios_model(news@),
                e == scenario_model(res@[i as int]),
                scenarios_model(out@) == before + nm.take(j as int).map_values(|n: ScenarioModel| combine(e, n, parallel)),
            decreases news.len() - j,
        {
            let left = res[i].time_cost.to_expr();
            let right = news[j].time_cost.to_expr();
            let cost = if parallel { Expr::max(left, right) } else { Expr::add(left, right) };
            let c = and_constraints(&res[i].constraints, &news[j].constraints);
            let p = PerfScenario { constraints: c, time_cost: TimeCost::Expression(cost) };
            proof {
                assert(scenario_model(p) == combine(e, nm[j as int], parallel));
                assert(scenarios_model(out@.push(p)) =~= scenarios_model(out@).push(scenario_model(p)));
                assert(nm.take(j + 1).map_values(|n: ScenarioModel| combine(e, n, parallel))
                    =~= nm.take(j as int).map_values(|n: ScenarioModel| combine(e, n, parallel)).push(combine(e, nm[j as int], parallel)));
            }
            out.push(p);
            j += 1;
        }
        proof {
            assert(nm.take(news@.len() as int) =~= nm);
            let t = res@.take(i + 1);
            assert(t.drop_last() =~= res@.take(i as int));
            assert(scenarios_model(t).drop_last() =~= scenarios_model(res@.take(i as int)));
            assert(scenarios_model(t).last() == e);
        }
        i += 1;
    }
    proof { assert(res@.take(res@.len() as int) =~= res@); }
    out
}

/// The Cartesian product of the scenarios of evaluated children.
fn product_of(children: &Vec<Schedule>, parallel: bool) -> (r: Vec<PerfScenario>)
    requires
        forall|k: int| 0 <= k < children@.len() ==> has_scenarios(#[trigger] children@[k]),
    ensures
        scenarios_model(r@) == product(scenario_lists(schedules_model(children@)), parallel),
{
    let first = PerfScenario { constraints: ConstraintExpr::True, time_cost: TimeCost::Expression(Expr::constant(0)) };
    let mut result: Vec<PerfScenario> = vec![first];
    proof {
        assert(scenarios_model(result@) =~= seq![(ConstraintModel::True, CostModel::Expression(ExprModel::Const(0)))]);
        lemma_schedules_model_len(children@);
    }
    let ghost ms = schedules_model(children@);
    let mut i: usize = 0;
    while i < children.len()
        invariant
            i <= children@.len(),
            ms == schedules_model(children@),
            ms.len() == children@.len(),
            forall|k: int| 0 <= k < children@.len() ==> #[trigger] ms[k] == schedule_model(children@[k]),
            forall|k: int| 0 <= k < children@.len() ==> has_scenarios(#[trigger] children@[k]),
            scenarios_model(result@) == product(scenario_lists(ms.take(i as int)), parallel),
        decreases children.len() - i,
    {
        let sc = children[i].scenarios();
        proof {
            let l = scenario_lists(ms.take(i + 1));
            assert(l.drop_last() =~= scenario_lists(ms.take(i as int)));
            assert(l.last() == model_scenarios(ms[i as int]));
        }
        result = combine_all(&result, sc, parallel);
        i += 1;
    }
    proof { assert(ms.take(ms.len() as int) =~= ms); }
    result
}

/// The scenarios of a call of `func` under `model`.
fn evaluate_function(func: &MlirFunc, model: &FuncPerfModel) -> (r: Vec<PerfScenario>)
    ensures
        scenarios_model(r@) == function_scenarios(*func, *model),
{
    let mut out: Vec<PerfScenario> = Vec::new();
    let mut i: usize = 0;
    while i < model.scenarios.len()
        invariant
            i <= model.scenarios@.len(),
            scenarios_model(out@) == model.scenarios@.take(i as int).map_values(|p: PerfScenario| fused(*func, model.constraints@, p)),
        decreases model.scenarios.len() - i,
    {
        let s = &model.scenarios[i];
        let c = and_constraints(&model.constraints, &s.constraints);
        let e = s.time_cost.to_expr();
        let p = match &func.sym_map {
            Some(m) => {
                let ms = m.as_slice();
                PerfScenario { constraints: c.substitute(ms), time_cost: TimeCost::Expression(e.substitute(ms)) }
            },
            None => PerfScenario { constraints: c, time_cost: TimeCost::Expression(e) },
        };
        proof {
            assert(scenario_model(p) == fused(*func, model.constraints@, model.scenarios@[i as int]));
            assert(scenarios_model(out@.push(p)) =~= scenarios_model(out@).push(scenario_model(p)));
            assert(model.scenarios@.take(i + 1).map_values(|p: PerfScenario| fused(*func, model.constraints@, p))
                =~= model.scenarios@.take(i as int).map_values(|p: PerfScenario| fused(*func, model.constraints@, p)).push(
                    fused(*func, model.constraints@, model.scenarios@[i as int])));
        }
        out.push(p);
        i += 1;
    }
    proof { assert(model.scenarios@.take(model.scenarios@.len() as int) =~= model.scenarios@); }
    out
}

/// Evaluates a schedule's performance on the given architecture.
///
/// Function scenarios come from the performance model of the one processor definition that
/// implements the function, under its global guard and with the call's symbol mapping
/// applied. Composition forms the Cartesian product of the children's scenarios and joins
/// their guards; sequential costs are added, parallel ones take their maximum. A function
/// that no definition, or more than one, implements is an error.
pub fn evaluate(schedule: Schedule, arch: &Architecture) -> (r: Result<Schedule, String>)
    ensures
        match r {
            Ok(s) => evaluated(schedule, *arch) == Ok::<ScheduleModel, Seq<char>>(s@) && has_scenarios(s),
            Err(m) => evaluated(schedule, *arch) == Err::<ScheduleModel, Seq<char>>(m@),
        },
    decreases schedule, 1nat,
{
    let ghost whole = schedule;
    match schedule {
        Schedule::Parallel { schedules, .. } => {
            let children = match evaluate_all(schedules, arch, Ghost(whole)) {
                Ok(c) => c,
                Err(m) => return Err(m),
            };
            let scenarios = product_of(&children, true);
            Ok(Schedule::Parallel { schedules: children, scenarios: Some(scenarios) })
        },
        Schedule::Sequential { schedules, .. } => {
            let children = match evaluate_all(schedules, arch, Ghost(whole)) {
                Ok(c) => c,
                Err(m) => return Err(m),
            };
            let scenarios = product_of(&children, false);
            Ok(Schedule::Sequential { schedules: children, scenarios: Some(scenarios) })
        },
        Schedule::Func { func, .. } => {
            let matches = arch.functions_named(func.name.as_str());
            if matches.len() == 0 {
                let mut m = crate::text::owned("no OperationModel found for '");
                crate::text::push_str(&mut m, func.name.as_str());
                crate::text::push_str(&mut m, "' in the architecture");
                proof {
                    reveal_strlit("no OperationModel found for '");
                    reveal_strlit("' in the architecture");
                }
                Err(m)
            } else if matches.len() == 1 {
                let scenarios = evaluate_function(&func, &matches[0].1.perf);
                Ok(Schedule::Func { func, scenarios: Some(scenarios) })
            } else {
                let mut m = crate::text::owned("function '");
                crate::text::push_str(&mut m, func.name.as_str());
                crate::text::push_str(&mut m, "' has ");
                crate::text::push_decimal(&mut m, matches.len() as u64);
                crate::text::push_str(&mut m, " implementations; use Schedule::PlacedFunc");
                proof {
                    reveal_strlit("function '");
                    reveal_strlit("' has ");
                    reveal_strlit(" implementations; use Schedule::PlacedFunc");
                }
                Err(m)
            }
        },
    }
}

/// Each schedule of `v` evaluated, in order, stopping at the first error.
fn evaluate_all(v: Vec<Schedule>, arch: &Architecture, Ghost(outer): Ghost<Schedule>) -> (r: Result<Vec<Schedule>, String>)
    requires
        decreases_to!(outer => v),
    ensures
        match r {
            Ok(out) => evaluated_all(v@, *arch) == Ok::<Seq<ScheduleModel>, Seq<char>>(schedules_model(out@))
                && forall|k: int| 0 <= k < out@.len() ==> has_scenarios(#[trigger] out@[k]),
            Err(m) => evaluated_all(v@, *arch) == Err::<Seq<ScheduleModel>, Seq<char>>(m@),
        },
    decreases outer, 0nat,
{
    let ghost orig = v;
    let mut rest = v;
    let mut out: Vec<Schedule> = Vec::new();
    let mut i: usize = 0;
    let n = rest.len();
    while rest.len() > 0
        invariant
            n == orig@.len(),
            orig == v,
            i + rest@.len() == orig@.len(),
            rest@ == orig@.skip(i as int),
            decreases_to!(outer => orig),
            evaluated_all(orig@.take(i as int), *arch) == Ok::<Seq<ScheduleModel>, Seq<char>>(schedules_model(out@)),
            forall|k: int| 0 <= k < out@.len() ==> has_scenarios(#[trigger] out@[k]),
        decreases rest.len(),
    {
        let child = rest.remove(0);
        proof {
            assert(child == orig@[i as int]);
            assert(decreases_to!(orig => orig@[i as int]));
            let t = orig@.take(i + 1);
            assert(t.drop_last() =~= orig@.take(i as int));
            assert(t.last() == orig@[i as int]);
            assert(rest@ =~= orig@.skip(i + 1));
        }
        match evaluate(child, arch) {
            Ok(s) => {
                proof { lemma_schedules_model_push(out@, s); }
                out.push(s);
            },
            Err(m) => {
                proof {
                    assert(evaluated_all(orig@.take(i + 1), *arch) == Err::<Seq<ScheduleModel>, Seq<char>>(m@));
                    lemma_evaluated_all_sticky(orig@, i + 1, *arch);
                }
                return Err(m);
            },
        }
        i += 1;
    }
    proof { assert(orig@.take(i as int) =~= orig@); }
    Ok(out)
}

/// In a composition a throughput cost counts as `fixed_latency + volume / throughput`:
/// with constant parts it evaluates to the fixed latency plus the volume divided by the
/// throughput (rounded toward zero).
pub proof fn law_cost_of_throughput(fixed_latency: ExprModel, volume: ExprModel, throughput: ExprModel, f: int, v: int, t: int)
    requires
        crate::math::expr::eval(fixed_latency) == Some(f),
        crate::math::expr::eval(volume) == Some(v),
        crate::math::expr::eval(throughput) == Some(t),
        t != 0,
    ensures
        crate::math::expr::eval(cost_of(CostModel::Throughput(fixed_latency, volume, throughput)))
            == Some(f + crate::math::expr::trunc_div(v, t)),
{
    let d = ExprModel::Div(Box::new(volume), Box::new(throughput));
    assert(crate::math::expr::eval(d) == Some(crate::math::expr::trunc_div(v, t)));
}

} // verus!
