use mlar::arch::{PerfAlternativeYaml, PerfYamlError, PerformanceYaml, TimeCost};
use mlar::math::{ConstraintExpr, Expr, Sym};
use mlar::mlir::func::{MlirFunc, MlirModule};

fn throughput(constraint: Option<&str>, latency: &str, volume: &str, throughput: &str) -> PerfAlternativeYaml {
    PerfAlternativeYaml::Throughput {
        constraint: constraint.map(|c| c.to_string()),
        latency: latency.to_string(),
        volume: volume.to_string(),
        throughput: throughput.to_string(),
    }
}

fn expression(constraint: Option<&str>, expression: &str) -> PerfAlternativeYaml {
    PerfAlternativeYaml::Expression {
        constraint: constraint.map(|c| c.to_string()),
        expression: expression.to_string(),
    }
}

fn spec(entries: Vec<(&str, Vec<PerfAlternativeYaml>)>) -> PerformanceYaml {
    PerformanceYaml {
        functions: entries.into_iter().map(|(n, a)| (n.to_string(), a)).collect(),
    }
}

#[test]
fn parses_flat_performance_alternatives() {
    let spec = spec(vec![(
        "matmul",
        vec![
            throughput(Some("M * N >= 8192"), "8", "2 * M * N * K", "716"),
            throughput(Some("M * N < 8192"), "4", "2 * M * N * K", "256"),
        ],
    )]);
    let model = spec
        .model_for_func(&MlirFunc::with_symbols("matmul", Sym::from_names(&["M", "N", "K"])))
        .expect("exact function model should load");
    assert_eq!(model.num_scenarios(), 2);
    assert!(model.validate().is_ok());
}

#[test]
fn parses_unconditional_alternative() {
    let spec = spec(vec![("add", vec![throughput(None, "2", "L", "32")])]);
    let add = spec
        .model_for_func(&MlirFunc::with_symbols("add", Sym::from_names(&["L"])))
        .expect("function model should load");
    assert_eq!(add.num_scenarios(), 1);
    assert_eq!(add.scenarios[0].constraints, ConstraintExpr::True);
}

#[test]
fn rejects_unknown_function() {
    let spec = spec(vec![("f", vec![throughput(None, "1", "1", "1")])]);
    let err = spec
        .model_for_func(&MlirFunc::named("missing_func"))
        .expect_err("missing function should fail");
    assert!(matches!(err, PerfYamlError::UnknownFunction(name) if name == "missing_func"));
}

#[test]
fn validates_expression_symbols_and_syntax() {
    let func = MlirFunc::with_symbols("copy", Sym::from_names(&["L"]));
    for text in ["bandwidth", "L *"] {
        let spec = spec(vec![("copy", vec![expression(None, text)])]);
        assert!(spec.model_for_func(&func).is_err(), "{text}");
    }
}

#[test]
fn guarded_expression_alternatives_keep_their_guards() {
    let spec = spec(vec![(
        "copy",
        vec![expression(Some("L > 1024"), "18 + L / 64"), expression(None, "L")],
    )]);
    let model = spec
        .model_for_func(&MlirFunc::with_symbols("copy", Sym::from_names(&["L"])))
        .unwrap();
    assert_eq!(model.scenarios[0].constraints, ConstraintExpr::parse("L > 1024").unwrap());
    assert_eq!(
        model.scenarios[0].time_cost.as_expression(),
        Some(&Expr::parse("18 + L / 64").unwrap())
    );
    assert_eq!(model.scenarios[1].constraints, ConstraintExpr::True);
    assert!(matches!(model.scenarios[1].time_cost, TimeCost::Expression(_)));
    assert_eq!(model.symbols, Sym::from_names(&["L"]));
}

#[test]
fn empty_alternatives_and_bad_fields_name_the_problem() {
    let func = MlirFunc::with_symbols("copy", Sym::from_names(&["L"]));
    let err = spec(vec![("copy", vec![])]).model_for_func(&func).unwrap_err();
    assert_eq!(
        err.message(),
        "invalid perf YAML: copy must define at least one performance alternative"
    );
    let err = spec(vec![("copy", vec![expression(None, "L"), throughput(None, "1", "L *", "2")])])
        .model_for_func(&func)
        .unwrap_err();
    assert!(matches!(&err, PerfYamlError::Expr { field, .. } if field == "copy[1].volume"));
    let err = spec(vec![("copy", vec![expression(Some("L >"), "L")])])
        .model_for_func(&func)
        .unwrap_err();
    assert!(matches!(&err, PerfYamlError::Constraint { field, .. } if field == "copy[0].constraint"));
    let err = spec(vec![("copy", vec![expression(None, "bandwidth")])])
        .model_for_func(&func)
        .unwrap_err();
    assert_eq!(
        err.message(),
        "perf model for function 'copy' uses undeclared symbols: [Sym(\"bandwidth\")]"
    );
}

#[test]
fn module_function_names_must_match() {
    let module = MlirModule {
        path: None,
        module_name: None,
        functions: vec![
            MlirFunc::with_symbols("relu", Sym::from_names(&["L"])),
            MlirFunc::with_symbols("add", Sym::from_names(&["L"])),
        ],
    };
    let good = spec(vec![
        ("add", vec![expression(None, "L")]),
        ("relu", vec![expression(None, "2 * L")]),
    ]);
    let models = good.models_for_module(&module).unwrap();
    assert_eq!(models.len(), 2);
    assert_eq!(models[0].scenarios[0].time_cost.as_expression(), Some(&Expr::parse("2 * L").unwrap()));
    let names: Vec<String> = good.function_names().into_iter().map(|s| s.0).collect();
    assert_eq!(names, vec!["add".to_string(), "relu".to_string()]);

    let bad = spec(vec![("relu", vec![expression(None, "L")]), ("sub", vec![expression(None, "L")])]);
    let err = bad.models_for_module(&module).unwrap_err();
    assert_eq!(
        err.message(),
        "invalid perf YAML: function names do not match source: source={\"add\", \"relu\"}, performance={\"relu\", \"sub\"}"
    );
}
