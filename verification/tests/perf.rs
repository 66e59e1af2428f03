use mlar::arch::{FuncPerfModel, PerfScenario, TimeCost};
use mlar::math::{ConstraintExpr, Expr, Sym};
use mlar::mlir::func::{MlirFunc, MlirFuncDetails};
use mlar::mlir::ops::MlirTensorSymbolBinding;

#[test]
fn test_trivial_func_model() {
    let m = FuncPerfModel::trivial();
    assert!(m.symbols.is_empty());
    assert!(m.validate().is_ok());
    assert_eq!(m.num_scenarios(), 0);
    assert!(m.total_latency_for(0).is_none());
}

#[test]
fn test_validate_all_declared() {
    let model = FuncPerfModel {
        symbols: vec![Sym::new("M"), Sym::new("N"), Sym::new("K")],
        constraints: ConstraintExpr::True,
        scenarios: vec![PerfScenario {
            constraints: ConstraintExpr::And(vec![
                ConstraintExpr::Ge(Expr::sym("M"), Expr::Const(128)),
                ConstraintExpr::Ge(Expr::sym("N"), Expr::Const(128)),
                ConstraintExpr::Ge(Expr::sym("K"), Expr::Const(128)),
            ]),
            time_cost: TimeCost::throughput(
                Expr::Const(8),
                Expr::mul(Expr::mul(Expr::sym("M"), Expr::sym("N")), Expr::sym("K")),
                Expr::Const(1024),
            ),
        }],
    };
    assert!(model.validate().is_ok());
}

#[test]
fn test_validate_undeclared() {
    let model = FuncPerfModel {
        symbols: vec![Sym::new("M"), Sym::new("N")],
        constraints: ConstraintExpr::True,
        scenarios: vec![PerfScenario {
            constraints: ConstraintExpr::True,
            time_cost: TimeCost::throughput(
                Expr::Const(0),
                Expr::mul(Expr::sym("M"), Expr::mul(Expr::sym("N"), Expr::sym("K"))),
                Expr::Const(1),
            ),
        }],
    };
    let err = model.validate().unwrap_err();
    assert_eq!(err.len(), 1);
    assert_eq!(err[0], Sym::new("K"));
}

#[test]
fn test_builder_infers_symbols_and_defaults_true_constraints() {
    let model = FuncPerfModel::builder()
        .throughput_scenario(TimeCost::throughput(
            Expr::Const(1),
            Expr::mul(Expr::sym("M"), Expr::sym("N")),
            Expr::sym("T"),
        ))
        .build();

    assert_eq!(model.symbols, Sym::from_names(&["M", "N", "T"]));
    assert_eq!(model.constraints, ConstraintExpr::True);
    assert_eq!(model.scenarios[0].constraints, ConstraintExpr::True);
    assert!(model.validate().is_ok());
}

#[test]
fn test_builder_infers_symbols_from_constraints_and_time_cost() {
    let model = FuncPerfModel::builder()
        .constraints(ConstraintExpr::Ge(Expr::sym("M"), Expr::Const(32)))
        .scenario_with_constraints(
            ConstraintExpr::Divisible {
                x: Expr::sym("N"),
                by: Expr::Const(16),
            },
            TimeCost::throughput(Expr::Const(10), Expr::sym("K"), Expr::sym("TP")),
        )
        .build();

    assert_eq!(model.symbols, Sym::from_names(&["K", "M", "N", "TP"]));
    assert!(model.validate().is_ok());
}

#[test]
fn test_total_latency_for() {
    let model = FuncPerfModel {
        symbols: vec![Sym::new("N")],
        constraints: ConstraintExpr::True,
        scenarios: vec![PerfScenario {
            constraints: ConstraintExpr::True,
            time_cost: TimeCost::throughput(Expr::Const(8), Expr::sym("N"), Expr::Const(1)),
        }],
    };
    let total = model.total_latency_for(0).unwrap();
    assert!(total.eval_const().is_none());
    assert!(model.total_latency_for(1).is_none());
}

#[test]
fn test_validate_with_op_symbol_requirements() {
    let model = FuncPerfModel {
        symbols: vec![],
        constraints: ConstraintExpr::True,
        scenarios: vec![],
    };
    let op = MlirFunc {
        name: "vec_add_f32".into(),
        symbols: vec![Sym::new("L")],
        mlir_details: Some(MlirFuncDetails {
            tensor_args: vec!["a".into(), "out".into()],
            memref_args: vec![],
            memref_arg_types: vec![],
            memref_memory_requirements: vec![],
            output_tensors: vec!["out".into()],
            source_memrefs: vec![],
            target_memrefs: vec![],
            memref_symbol_bindings: vec![],
            tensor_symbol_bindings: vec![
                MlirTensorSymbolBinding {
                    tensor: "a".into(),
                    symbols: vec![Sym::new("L")],
                },
                MlirTensorSymbolBinding {
                    tensor: "out".into(),
                    symbols: vec![Sym::new("L")],
                },
            ],
            mem_region_bindings: vec![],
            copy_ops: vec![],
            gather_ops: vec![],
            linalg_ops: vec![],
            operations: vec![],
        }),
        sym_map: None,
    };

    let err = model.validate_for_func(&op).unwrap_err();
    assert_eq!(err, vec![Sym::new("L")]);
}
