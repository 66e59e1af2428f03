use mlar::arch::yaml::{
    ArchLoadError, ChipYaml, MemoryCatalogYaml, MemoryDefinitionYaml, MemoryPlacementYaml,
    ProcessorPlacementYaml, ResourceYaml, ScalarExprYaml, ScopeYaml, BankingYaml,
};
use mlar::arch::{MemoryEndpoint, MemoryTechnology, ProcessorDefinition};
use mlar::{Expr, Sym};

fn memory(technology: Option<&str>, capacity: ScalarExprYaml, word_size: u64, banking: Option<BankingYaml>) -> MemoryDefinitionYaml {
    MemoryDefinitionYaml {
        indices: vec![],
        capacity,
        word_size: ScalarExprYaml::Literal(word_size),
        technology: technology.map(|t| t.to_string()),
        banking,
    }
}

fn strings(v: &[&str]) -> Vec<String> {
    v.iter().map(|s| s.to_string()).collect()
}

#[test]
fn memory_geometry_accepts_architecture_parameters() {
    let catalog = MemoryCatalogYaml {
        memories: vec![(
            "L1".to_string(),
            MemoryDefinitionYaml {
                indices: strings(&["x"]),
                capacity: ScalarExprYaml::Expression("X * 256".to_string()),
                word_size: ScalarExprYaml::Literal(16),
                technology: Some("custom_local".to_string()),
                banking: Some(BankingYaml::Count(ScalarExprYaml::Expression("X".to_string()))),
            },
        )],
        regions: vec![],
    };
    let declared = strings(&["X"]);
    let (definitions, _) = catalog
        .build(&declared, &[(Sym::new("X"), Expr::Const(4))])
        .expect("symbolic memory geometry should instantiate");
    let l1 = definitions.iter().find(|definition| definition.name == "L1").unwrap();
    assert_eq!(l1.capacity, 1024);
    assert_eq!(l1.technology, Some(MemoryTechnology::new("custom_local", 0)));
    assert_eq!(l1.banking.as_ref().unwrap().banks, 4);
}

#[test]
fn memory_technology_kinds_follow_first_catalog_appearance() {
    let catalog = MemoryCatalogYaml {
        memories: vec![
            ("cache_a".to_string(), memory(Some("gcram"), ScalarExprYaml::Literal(1024), 16, None)),
            ("weights".to_string(), memory(Some("rram"), ScalarExprYaml::Literal(2048), 16, None)),
            ("cache_b".to_string(), memory(Some("gcram"), ScalarExprYaml::Literal(4096), 16, None)),
        ],
        regions: vec![],
    };
    let (definitions, _) = catalog.build(&[], &[]).expect("memory catalog should build");
    let technology = |name: &str| {
        let d = definitions.iter().find(|definition| definition.name == name).unwrap();
        let t = d.technology.as_ref().unwrap();
        MemoryTechnology::new(&t.name, t.kind)
    };
    assert_eq!(technology("cache_a"), MemoryTechnology::new("gcram", 0));
    assert_eq!(technology("weights"), MemoryTechnology::new("rram", 1));
    assert_eq!(technology("cache_b"), MemoryTechnology::new("gcram", 0));
}

#[test]
fn catalog_definitions_come_sorted_by_name() {
    let catalog = MemoryCatalogYaml {
        memories: vec![
            ("weights".to_string(), memory(None, ScalarExprYaml::Literal(2048), 16, None)),
            ("cache".to_string(), memory(None, ScalarExprYaml::Literal(1024), 16, None)),
        ],
        regions: vec![],
    };
    let (definitions, _) = catalog.build(&[], &[]).unwrap();
    let names: Vec<&str> = definitions.iter().map(|d| d.name.as_str()).collect();
    assert_eq!(names, vec!["cache", "weights"]);
}

#[test]
fn catalog_sizes_must_resolve() {
    let undeclared = MemoryCatalogYaml {
        memories: vec![("L1".to_string(), memory(None, ScalarExprYaml::Expression("Y * 2".to_string()), 16, None))],
        regions: vec![],
    };
    let err = undeclared.build(&strings(&["X"]), &[]).unwrap_err();
    assert!(matches!(&err, ArchLoadError::Invalid(m) if m == "memory 'L1' capacity uses undeclared parameter 'Y'"));
    let zero = MemoryCatalogYaml {
        memories: vec![("L1".to_string(), memory(None, ScalarExprYaml::Literal(0), 16, None))],
        regions: vec![],
    };
    let err = zero.build(&[], &[]).unwrap_err();
    assert!(matches!(&err, ArchLoadError::Invalid(m) if m == "memory 'L1' capacity does not instantiate to a positive u64: 0"));
    let bad = MemoryCatalogYaml {
        memories: vec![("L1".to_string(), memory(None, ScalarExprYaml::Expression("4 *".to_string()), 16, None))],
        regions: vec![],
    };
    let err = bad.build(&[], &[]).unwrap_err();
    assert!(matches!(&err, ArchLoadError::Invalid(m) if m.starts_with("memory 'L1' capacity: ")));
}

fn chip(parameters: &[&str]) -> ChipYaml {
    ChipYaml {
        name: "chip".to_string(),
        memory: "memory.yaml".to_string(),
        parameters: strings(parameters),
        dimensions: vec![
            ("x".to_string(), ScalarExprYaml::Expression("N".to_string())),
            ("y".to_string(), ScalarExprYaml::Literal(2)),
        ],
        memories: vec![("L1".to_string(), MemoryPlacementYaml::Direct(strings(&["x", "y"])))],
        processors: vec![(
            "pe".to_string(),
            ProcessorPlacementYaml {
                definition: "lane.yaml".to_string(),
                domain: strings(&["x", "y"]),
                inputs: vec![("in".to_string(), MemoryEndpoint::parse("L1[x, y]").unwrap())],
                outputs: vec![],
                resources: vec![],
            },
        )],
        resources: vec![ResourceYaml { name: "bus".to_string(), capacity: Some(2) }],
        networks: vec![],
        scopes: vec![ScopeYaml {
            name: "all".to_string(),
            parent: None,
            dimensions: strings(&["x", "y"]),
            memories: strings(&["L1"]),
            processors: strings(&["pe"]),
            networks: vec![],
            resources: vec![],
        }],
    }
}

fn catalog() -> MemoryCatalogYaml {
    MemoryCatalogYaml {
        memories: vec![("L1".to_string(), memory(Some("sram"), ScalarExprYaml::Literal(1024), 16, None))],
        regions: vec![],
    }
}

fn lane() -> Vec<Result<ProcessorDefinition, ArchLoadError>> {
    vec![Ok(ProcessorDefinition::new("lane", "", vec![]))]
}

fn invalid_message(r: Result<mlar::Architecture, ArchLoadError>) -> String {
    match r {
        Err(ArchLoadError::Invalid(m)) => m,
        Err(other) => panic!("unexpected error {}", other.message()),
        Ok(_) => panic!("expected an error"),
    }
}

#[test]
fn chip_lists_each_definition_file_once() {
    let mut c = chip(&["N"]);
    let second = ProcessorPlacementYaml {
        definition: "lane.yaml".to_string(),
        domain: vec![],
        inputs: vec![],
        outputs: vec![],
        resources: vec![],
    };
    c.processors.push(("pe2".to_string(), second));
    assert_eq!(c.definition_files(), vec!["lane.yaml".to_string()]);
}

#[test]
fn chip_parameters_are_checked_against_bindings() {
    let err = chip(&["N", "N"]).build_with_bindings(catalog(), lane(), &[("N".to_string(), 4)]);
    assert_eq!(invalid_message(err), "duplicate architecture parameter");
    let err = chip(&["N"]).build_with_bindings(catalog(), lane(), &[("M".to_string(), 1), ("N".to_string(), 4)]);
    assert_eq!(invalid_message(err), "binding supplied for unknown architecture parameter 'M'");
    let err = chip(&["N", "B", "A"]).build_with_bindings(catalog(), lane(), &[("N".to_string(), 4)]);
    assert_eq!(invalid_message(err), "architecture parameter 'A' has no binding");
    let err = chip(&["N"]).build_with_bindings(catalog(), lane(), &[("N".to_string(), 0)]);
    assert_eq!(invalid_message(err), "dimension 'x' does not instantiate to a positive u64: 0");
}

#[test]
fn chip_reports_a_definition_that_could_not_be_loaded() {
    let loaded = vec![Err(ArchLoadError::Io { path: "lane.yaml".to_string(), message: "missing".to_string() })];
    let err = chip(&["N"]).build_with_bindings(catalog(), loaded, &[("N".to_string(), 4)]).unwrap_err();
    assert_eq!(err.message(), "failed to read 'lane.yaml': missing");
}

#[test]
fn chip_builds_with_bound_parameters() {
    let arch = chip(&["N"])
        .build_with_bindings(catalog(), lane(), &[("N".to_string(), 4)])
        .unwrap_or_else(|e| panic!("{}", e.message()));
    assert_eq!(arch.name, "chip");
    let axes: Vec<(&str, u64)> = arch.axes.iter().map(|a| (a.name.as_str(), a.extent)).collect();
    assert_eq!(axes, vec![("x", 4), ("y", 2)]);
    assert_eq!(arch.processor_definitions.len(), 1);
    assert_eq!(arch.resources.len(), 1);
    assert_eq!(arch.scopes.len(), 1);
}
