use mlar::arch::checks::validate_memory_definitions;
use mlar::arch::ownership::validate_scopes;
use mlar::arch::{
    Architecture, ArchitectureError, Axis, MemoryArray, MemoryDefinition, MemoryTechnology,
    NetworkLink, NetworkTopology, Resource, Scope,
};
use mlar::math::{AffineMap, Expr};

fn invalid(m: &str) -> ArchitectureError {
    ArchitectureError::Invalid(m.to_string())
}

#[test]
fn a_scope_that_is_its_own_parent_is_refused() {
    let scopes = vec![Scope::new("s", &["x"]).with_parent("s")];
    let dims = vec![Axis::new("x", 2)];
    assert_eq!(
        validate_scopes(&scopes, &dims, &[], &[], &[], &[]),
        Err(invalid("scope 's' has invalid parent 's'"))
    );
}

#[test]
fn a_memory_owned_by_two_scopes_is_refused() {
    let scopes = vec![
        Scope::new("a", &[]).with_memories(&["L1"]),
        Scope::new("b", &[]).with_memories(&["L1"]),
    ];
    let mems = vec![MemoryArray::new("L1", "L1", vec![])];
    assert_eq!(
        validate_scopes(&scopes, &[], &mems, &[], &[], &[]),
        Err(invalid("memory 'L1' is owned by both scope 'a' and 'b'"))
    );
}

#[test]
fn a_builder_reports_the_first_broken_part() {
    let unknown = Architecture::builder("a").axis("x", 4).place_memory("L1", &["x"]).build();
    assert_eq!(
        unknown.err(),
        Some(ArchitectureError::UnknownReference {
            owner: "memory placement 'L1'".to_string(),
            kind: "memory definition".to_string(),
            name: "L1".to_string(),
        })
    );
    let zero = Architecture::builder("a").axis("x", 0).build();
    assert_eq!(zero.err(), Some(invalid("axis 'x' extent must be positive")));
    let twice = Architecture::builder("a").axis("x", 4).axis("x", 2).build();
    assert_eq!(
        twice.err(),
        Some(ArchitectureError::DuplicateName { kind: "axis".to_string(), name: "x".to_string() })
    );
    let nameless = Architecture::builder("").place_memory("L1", &["x"]).build();
    assert_eq!(nameless.err(), Some(invalid("architecture name cannot be empty")));
}

#[test]
fn a_link_naming_an_unknown_resource_is_refused() {
    let axes = vec![Axis::new("x", 4)];
    let link = NetworkLink::new("l", AffineMap::identity(&axes), Expr::Const(1)).with_resource("bw");
    let t = NetworkTopology::new("n", axes.clone()).with_link(link);
    assert_eq!(t.validate(), Err("network 'n' link 'l' uses unknown resource 'bw'".to_string()));
    let t = t.with_resource(Resource::exclusive("bw"));
    assert_eq!(t.validate(), Ok(()));
}

#[test]
fn a_technology_kind_shared_by_two_names_is_refused() {
    let defs = vec![
        MemoryDefinition::new("A", 1024, 16).with_technology(MemoryTechnology::new("gcram", 0)),
        MemoryDefinition::new("B", 1024, 16).with_technology(MemoryTechnology::new("rram", 0)),
    ];
    assert_eq!(
        validate_memory_definitions(&defs),
        Err(invalid("memory technology kind 0 is shared by 'gcram' and 'rram'"))
    );
    let defs = vec![
        MemoryDefinition::new("A", 1024, 16).with_technology(MemoryTechnology::new("gcram", 0)),
        MemoryDefinition::new("B", 1024, 16).with_technology(MemoryTechnology::new("rram", 1)),
    ];
    assert_eq!(validate_memory_definitions(&defs), Ok(()));
}

#[test]
fn substituting_unused_symbols_keeps_the_expression() {
    let e = Expr::parse("M * 2 + N").unwrap();
    assert_eq!(e.substitute(&[]), e);
    assert_eq!(e.substitute(&[(mlar::Sym::new("K"), Expr::Const(3))]), e);
    assert_eq!(
        e.substitute(&[(mlar::Sym::new("N"), Expr::Const(3))]),
        Expr::parse("M * 2 + 3").unwrap()
    );
}

#[test]
fn a_repeated_memory_name_is_reported_before_the_resources() {
    let a = Architecture {
        name: "chip".to_string(),
        axes: vec![],
        memory_definitions: vec![MemoryDefinition::new("sram", 64, 8)],
        memories: vec![MemoryArray::new("L1", "sram", vec![]), MemoryArray::new("L1", "sram", vec![])],
        processor_definitions: vec![],
        processors: vec![],
        resources: vec![Resource::quantitative("bw", 0)],
        networks: vec![],
        scopes: vec![],
    };
    assert_eq!(
        a.validate(),
        Err(ArchitectureError::DuplicateName { kind: "memory".into(), name: "L1".into() })
    );
}
