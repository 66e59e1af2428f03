use mlar::arch::{Architecture, FuncPerfModel, OperationModel, PerfScenario, ProcessorDefinition, TimeCost};
use mlar::math::{ConstraintExpr, Expr, Sym};
use mlar::mlir::func::MlirFunc;
use mlar::schedule::{evaluate, Schedule, SymbolicMapping};

fn func(name: &str, sym_map: Option<SymbolicMapping>) -> MlirFunc {
    MlirFunc { name: name.to_string(), symbols: vec![], mlir_details: None, sym_map }
}

fn model(cost: Expr, guard: ConstraintExpr) -> FuncPerfModel {
    FuncPerfModel {
        symbols: vec![Sym::new("L")],
        constraints: ConstraintExpr::True,
        scenarios: vec![PerfScenario { constraints: guard, time_cost: TimeCost::Expression(cost) }],
    }
}

fn arch() -> Architecture {
    let a = ProcessorDefinition::new(
        "a",
        "",
        vec![
            OperationModel::new(func("f", None), model(Expr::sym("L"), ConstraintExpr::True)),
            OperationModel::new(
                func("g", None),
                model(Expr::Const(3), ConstraintExpr::Ge(Expr::sym("L"), Expr::Const(1))),
            ),
            OperationModel::new(func("twice", None), model(Expr::Const(1), ConstraintExpr::True)),
        ],
    );
    let b = ProcessorDefinition::new(
        "b",
        "",
        vec![OperationModel::new(func("twice", None), model(Expr::Const(2), ConstraintExpr::True))],
    );
    Architecture::builder("chip").processor_definition(a).processor_definition(b).build().unwrap()
}

fn leaf(name: &str) -> Schedule {
    Schedule::Func { func: func(name, None), scenarios: None }
}

fn only_scenario(s: &Schedule) -> (ConstraintExpr, Expr) {
    let v = s.scenarios();
    assert_eq!(v.len(), 1);
    (v[0].constraints.clone(), v[0].time_cost.to_expr())
}

#[test]
fn sequential_costs_are_added_from_zero() {
    let s = Schedule::Sequential { schedules: vec![leaf("f"), leaf("g")], scenarios: None };
    let r = evaluate(s, &arch()).unwrap();
    let (c, e) = only_scenario(&r);
    assert_eq!(c, ConstraintExpr::Ge(Expr::sym("L"), Expr::Const(1)));
    assert_eq!(e, Expr::add(Expr::add(Expr::Const(0), Expr::sym("L")), Expr::Const(3)));
}

#[test]
fn parallel_costs_take_the_maximum() {
    let s = Schedule::Parallel { schedules: vec![leaf("f"), leaf("g")], scenarios: None };
    let r = evaluate(s, &arch()).unwrap();
    let (_, e) = only_scenario(&r);
    assert_eq!(e, Expr::max(Expr::max(Expr::Const(0), Expr::sym("L")), Expr::Const(3)));
}

#[test]
fn a_call_applies_its_symbol_mapping() {
    let mapping = SymbolicMapping::with_entries(vec![(Sym::new("L"), Expr::mul(Expr::sym("BM"), Expr::sym("BN")))]);
    let s = Schedule::Func { func: func("g", Some(mapping)), scenarios: None };
    let r = evaluate(s, &arch()).unwrap();
    let (c, e) = only_scenario(&r);
    assert_eq!(c, ConstraintExpr::Ge(Expr::mul(Expr::sym("BM"), Expr::sym("BN")), Expr::Const(1)));
    assert_eq!(e, Expr::Const(3));
}

#[test]
fn an_unknown_function_is_refused() {
    let s = Schedule::Sequential { schedules: vec![leaf("f"), leaf("nope"), leaf("other")], scenarios: None };
    assert_eq!(
        evaluate(s, &arch()).unwrap_err(),
        "no OperationModel found for 'nope' in the architecture"
    );
}

#[test]
fn a_function_of_two_definitions_is_refused() {
    assert_eq!(
        evaluate(leaf("twice"), &arch()).unwrap_err(),
        "function 'twice' has 2 implementations; use Schedule::PlacedFunc"
    );
}

#[test]
fn an_empty_composition_costs_nothing() {
    let r = evaluate(Schedule::Parallel { schedules: vec![], scenarios: None }, &arch()).unwrap();
    let (c, e) = only_scenario(&r);
    assert_eq!(c, ConstraintExpr::True);
    assert_eq!(e, Expr::Const(0));
}

#[test]
fn a_composition_has_one_scenario_per_combination() {
    let two = FuncPerfModel {
        symbols: vec![Sym::new("L")],
        constraints: ConstraintExpr::Ge(Expr::sym("L"), Expr::Const(0)),
        scenarios: vec![
            PerfScenario { constraints: ConstraintExpr::Lt(Expr::sym("L"), Expr::Const(8)), time_cost: TimeCost::Expression(Expr::Const(1)) },
            PerfScenario { constraints: ConstraintExpr::Ge(Expr::sym("L"), Expr::Const(8)), time_cost: TimeCost::Expression(Expr::Const(2)) },
        ],
    };
    let d = ProcessorDefinition::new("d", "", vec![OperationModel::new(func("h", None), two)]);
    let a = Architecture::builder("chip").processor_definition(d).build().unwrap();
    let s = Schedule::Sequential { schedules: vec![leaf("h"), leaf("h")], scenarios: None };
    let r = evaluate(s, &a).unwrap();
    let v = r.scenarios();
    assert_eq!(v.len(), 4);
    let guard = ConstraintExpr::And(vec![
        ConstraintExpr::Ge(Expr::sym("L"), Expr::Const(0)),
        ConstraintExpr::Lt(Expr::sym("L"), Expr::Const(8)),
    ]);
    assert_eq!(v[1].constraints, ConstraintExpr::And(vec![guard.clone(), ConstraintExpr::And(vec![
        ConstraintExpr::Ge(Expr::sym("L"), Expr::Const(0)),
        ConstraintExpr::Ge(Expr::sym("L"), Expr::Const(8)),
    ])]));
    assert_eq!(v[1].time_cost.to_expr(), Expr::add(Expr::add(Expr::Const(0), Expr::Const(1)), Expr::Const(2)));
}

#[test]
fn evaluating_an_evaluated_schedule_gives_it_again() {
    let s = Schedule::Parallel { schedules: vec![leaf("f"), leaf("g")], scenarios: None };
    let once = evaluate(s, &arch()).unwrap();
    let (c1, e1) = only_scenario(&once);
    let twice = evaluate(once, &arch()).unwrap();
    let (c2, e2) = only_scenario(&twice);
    assert_eq!(c1, c2);
    assert_eq!(e1, e2);
}
