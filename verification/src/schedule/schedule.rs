//! The symbolic mapping of one function call: which expression replaces each symbol.
use vstd::prelude::*;

use crate::arch::perf::{PerfScenario, TimeCost};
use crate::math::expr::{mappings_model, ConstraintModel, Expr, ExprModel, Sym};
use crate::mlir::func::MlirFunc;

verus! {

/// Maps MLIR symbols to symbolic expressions, such as `L` to `BM * BN`. The first entry
/// for a symbol is the one that counts.
#[derive(Debug, PartialEq, Eq)]
pub struct SymbolicMapping {
    pub entries: Vec<(Sym, Expr)>,
}

/// The expression of the first entry for `n`.
pub open spec fn first_entry(m: Seq<(Seq<char>, ExprModel)>, n: Seq<char>) -> Option<ExprModel>
    decreases m.len(),
{
    if m.len() == 0 {
        None
    } else if m[0].0 == n {
        Some(m[0].1)
    } else {
        first_entry(m.drop_first(), n)
    }
}

impl SymbolicMapping {
    pub fn new() -> (r: SymbolicMapping)
        ensures
            r.entries@.len() == 0,
    {
        SymbolicMapping { entries: Vec::new() }
    }

    pub fn with_entries(entries: Vec<(Sym, Expr)>) -> (r: SymbolicMapping)
        ensures
            r.entries == entries,
    {
        SymbolicMapping { entries }
    }

    /// Adds an entry from `symbol` to `expr` after the existing ones.
    pub fn insert(&mut self, symbol: Sym, expr: Expr)
        ensures
            final(self).entries@ == old(self).entries@.push((symbol, expr)),
    {
        self.entries.push((symbol, expr));
    }

    /// The expression mapped to `symbol`, if any.
    pub fn get(&self, symbol: &Sym) -> (r: Option<&Expr>)
        ensures
            match r {
                Some(e) => first_entry(mappings_model(self.entries@), symbol@) == Some(e@),
                None => first_entry(mappings_model(self.entries@), symbol@) is None,
            },
    {
        let mut i: usize = 0;
        let ghost m = mappings_model(self.entries@);
        proof { assert(m.skip(0) =~= m); }
        while i < self.entries.len()
            invariant
                i <= self.entries@.len(),
                m == mappings_model(self.entries@),
                first_entry(m, symbol@) == first_entry(m.skip(i as int), symbol@),
            decreases self.entries.len() - i,
        {
            proof {
                assert(m.skip(i as int)[0] == (self.entries@[i as int].0@, self.entries@[i as int].1@));
                assert(m.skip(i as int).drop_first() =~= m.skip(i + 1));
            }
            if crate::text::str_eq(self.entries[i].0.as_str(), symbol.as_str()) {
                return Some(&self.entries[i].1);
            }
            i += 1;
        }
        None
    }

    /// The entries, as `substitute` takes them.
    pub fn as_slice(&self) -> (r: &[(Sym, Expr)])
        ensures
            r@ == self.entries@,
    {
        self.entries.as_slice()
    }
}

/// After inserting an entry, looking its symbol up gives the inserted expression unless the
/// mapping held the symbol already, in which case the earlier entry still counts; other
/// symbols are unaffected.
pub proof fn law_get_after_insert(m: Seq<(Sym, Expr)>, s: Sym, e: Expr, t: Sym)
    ensures
        first_entry(mappings_model(m.push((s, e))), t@) == if first_entry(mappings_model(m), t@) is Some {
            first_entry(mappings_model(m), t@)
        } else if t@ == s@ {
            Some(e@)
        } else {
            None
        },
    decreases m.len(),
{
    let mm = mappings_model(m);
    let mp = mappings_model(m.push((s, e)));
    if m.len() == 0 {
        assert(mp == seq![(s@, e@)]);
        assert(mp.drop_first() =~= Seq::<(Seq<char>, ExprModel)>::empty());
        assert(first_entry(mp.drop_first(), t@) is None);
        assert(first_entry(mm, t@) is None);
    } else {
        assert(mp[0] == mm[0]);
        assert(mp.drop_first() =~= mappings_model(m.drop_first().push((s, e))));
        assert(mm.drop_first() =~= mappings_model(m.drop_first()));
        law_get_after_insert(m.drop_first(), s, e, t);
    }
}

/// A tree of MLIR function calls, composed in parallel or in sequence. Each node may carry
/// the performance scenarios that evaluation filled in.
#[derive(Debug)]
pub enum Schedule {
    Parallel { schedules: Vec<Schedule>, scenarios: Option<Vec<PerfScenario>> },
    Sequential { schedules: Vec<Schedule>, scenarios: Option<Vec<PerfScenario>> },
    Func { func: MlirFunc, scenarios: Option<Vec<PerfScenario>> },
}

/// Model of a [`TimeCost`].
pub ghost enum CostModel {
    Throughput(ExprModel, ExprModel, ExprModel),
    Expression(ExprModel),
}

/// Model of a [`PerfScenario`]: its constraints and its cost.
pub type ScenarioModel = (ConstraintModel, CostModel);

/// Model of a [`Schedule`]: functions are kept as they are, scenarios by their models.
pub ghost enum ScheduleModel {
    Parallel(Seq<ScheduleModel>, Option<Seq<ScenarioModel>>),
    Sequential(Seq<ScheduleModel>, Option<Seq<ScenarioModel>>),
    Func(MlirFunc, Option<Seq<ScenarioModel>>),
}

pub open spec fn cost_model(t: TimeCost) -> CostModel {
    match t {
        TimeCost::Throughput { fixed_latency, volume, throughput } => CostModel::Throughput(fixed_latency@, volume@, throughput@),
        TimeCost::Expression(e) => CostModel::Expression(e@),
    }
}

pub open spec fn scenario_model(p: PerfScenario) -> ScenarioModel {
    (p.constraints@, cost_model(p.time_cost))
}

pub open spec fn scenarios_model(v: Seq<PerfScenario>) -> Seq<ScenarioModel> {
    v.map_values(|p: PerfScenario| scenario_model(p))
}

pub open spec fn optional_scenarios_model(o: Option<Vec<PerfScenario>>) -> Option<Seq<ScenarioModel>> {
    match o {
        Some(v) => Some(scenarios_model(v@)),
        None => None,
    }
}

pub open spec fn schedule_model(s: Schedule) -> ScheduleModel
    decreases s,
{
    match s {
        Schedule::Parallel { schedules, scenarios } => ScheduleModel::Parallel(schedules_model(schedules@), optional_scenarios_model(scenarios)),
        Schedule::Sequential { schedules, scenarios } => ScheduleModel::Sequential(schedules_model(schedules@), optional_scenarios_model(scenarios)),
        Schedule::Func { func, scenarios } => ScheduleModel::Func(func, optional_scenarios_model(scenarios)),
    }
}

pub open spec fn schedules_model(v: Seq<Schedule>) -> Seq<ScheduleModel>
    decreases v,
{
    if v.len() == 0 {
        Seq::empty()
    } else {
        schedules_model(v.drop_last()).push(schedule_model(v.last()))
    }
}

impl View for Schedule {
    type V = ScheduleModel;

    open spec fn view(&self) -> ScheduleModel {
        schedule_model(*self)
    }
}

/// Whether a node carries its scenarios.
pub open spec fn has_scenarios(s: Schedule) -> bool {
    match s {
        Schedule::Parallel { scenarios, .. } => scenarios is Some,
        Schedule::Sequential { scenarios, .. } => scenarios is Some,
        Schedule::Func { scenarios, .. } => scenarios is Some,
    }
}

/// The scenarios a node model carries; none where it carries none.
pub open spec fn model_scenarios(m: ScheduleModel) -> Seq<ScenarioModel> {
    match m {
        ScheduleModel::Parallel(_, Some(s)) => s,
        ScheduleModel::Sequential(_, Some(s)) => s,
        ScheduleModel::Func(_, Some(s)) => s,
        _ => Seq::empty(),
    }
}

pub proof fn lemma_schedules_model_push(v: Seq<Schedule>, x: Schedule)
    ensures
        schedules_model(v.push(x)) == schedules_model(v).push(schedule_model(x)),
{
    assert(v.push(x).drop_last() =~= v);
}

pub proof fn lemma_schedules_model_len(v: Seq<Schedule>)
    ensures
        schedules_model(v).len() == v.len(),
        forall|i: int| 0 <= i < v.len() ==> #[trigger] schedules_model(v)[i] == schedule_model(v[i]),
    decreases v.len(),
{
    if v.len() > 0 {
        lemma_schedules_model_len(v.drop_last());
    }
}

impl Schedule {
    /// The scenarios of a node that carries them.
    pub fn scenarios(&self) -> (r: &Vec<PerfScenario>)
        requires
            has_scenarios(*self),
        ensures
            scenarios_model(r@) == model_scenarios(self@),
    {
        let o = match self {
            Schedule::Parallel { scenarios, .. } => scenarios,
            Schedule::Sequential { scenarios, .. } => scenarios,
            Schedule::Func { scenarios, .. } => scenarios,
        };
        match o {
            Some(v) => v,
            None => vstd::pervasive::unreached(),
        }
    }
}

} // verus!
