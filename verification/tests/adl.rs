use mlar::arch::processor::{Connection, ProcessorArray, ProcessorType};
use mlar::arch::scope::Scope;
use mlar::arch::{Architecture, Axis, MemoryArray, MemoryDefinition, ProcessorDefinition, Resource};
use mlar::mlir::adl::{architecture_to_mlir_unchecked, emit_architecture_mlir, is_export_ready};
use mlar::mlir::adl_header::rewrite_raw_mlir_module;
use mlar::mlir::export::AdlExportError;

fn rewrite(source: &str) -> Result<String, String> {
    rewrite_raw_mlir_module(
        source,
        "proc_lane",
        "lane\"zero",
        "lane\\family",
        &[Axis::new("x", 2), Axis::new("y", 3)],
        &Vec::new(),
    )
}

#[test]
fn merges_multiline_module_attributes_and_preserves_comments() {
    let source = [
        "// authored header\n",
        "module @old\n",
        "attributes {\n",
        "  unrelated = {nested = [1, 2]}, // keep me\n",
        "  note = \"a { brace }, comma\"\n",
        "}\n",
        "{\n}\n",
    ]
    .concat();
    let rewritten = rewrite(&source).unwrap();
    assert!(rewritten.starts_with("// authored header\nmodule @proc_lane\n"));
    assert!(rewritten.contains("unrelated = {nested = [1, 2]}, // keep me"));
    assert!(rewritten.contains("mlar.processor_array = \"lane\\22zero\""));
    assert!(rewritten.contains("mlar.processor_definition = \"lane\\5Cfamily\""));
    assert!(rewritten.contains("mlar.processor_domain = [\"x\", \"y\"]"));
    assert!(!rewritten.contains("attributes attributes"));
}

#[test]
fn repeated_rewrite_is_idempotent() {
    let once = rewrite("module @old {\n}\n").unwrap();
    let twice = rewrite(&once).unwrap();
    assert_eq!(once, twice);
}

#[test]
fn conflicting_reserved_metadata_is_rejected() {
    let error = rewrite("module @old attributes {mlar.processor_array = \"other\"} {\n}\n").unwrap_err();
    assert!(error.contains("mlar.processor_array"));
    assert!(error.contains("conflicts"));
}

#[test]
fn a_source_that_is_not_a_module_is_refused() {
    assert_eq!(rewrite("func.func @f() {}").unwrap_err(), "processor source must begin with a module operation");
    assert_eq!(rewrite("module {\n}").unwrap_err(), "processor module must have a symbol name");
    assert_eq!(rewrite("module @m /* open").unwrap_err(), "unterminated block comment in module header");
}

#[test]
fn memory_symbols_are_replaced_at_word_ends() {
    let symbols = vec![("L1".to_string(), "mem_L1".to_string())];
    let out = rewrite_raw_mlir_module("module @m {\n  use @L1, @L10\n}\n", "proc_p", "p", "d", &[], &symbols).unwrap();
    assert!(out.contains("use @mem_L1, @L10"));
    assert!(out.starts_with("module @proc_p  attributes {"));
}

fn lane_arch(source: &str) -> Architecture {
    let pe = ProcessorDefinition::new("pe", source, vec![]).with_type(ProcessorType::Compute);
    Architecture {
        name: "chip".to_string(),
        axes: vec![Axis::new("x", 4)],
        memory_definitions: vec![MemoryDefinition::new("sram", 1024, 16)],
        memories: vec![MemoryArray::new("L1", "sram", vec![Axis::new("x", 4)])],
        processor_definitions: vec![pe],
        processors: vec![ProcessorArray {
            name: "lane".to_string(),
            definition: "pe".to_string(),
            connection: Connection::new(&["x"], vec![], vec![]),
            axes: vec![Axis::new("x", 4)],
            resources: vec![Resource::exclusive("alu")],
        }],
        resources: vec![Resource::exclusive("alu")],
        networks: vec![],
        scopes: vec![],
    }
}

#[test]
fn an_architecture_is_exported_as_one_module() {
    let a = lane_arch("");
    assert!(is_export_ready(&a));
    let text = architecture_to_mlir_unchecked(&a).unwrap();
    let expected = [
        "module @arch_system {\n",
        "  %0 = adl.spatial_dim \"dim_x\", 4\n",
        "  %1 = adl.memory.bank \"mem_L1_instance\", {bsize = 16, nblk = 64}\n",
        "  %2 = adl.memory.array \"mem_L1\", [%0] of %1\n",
        "  %3 = adl.resource.exclusive \"res_alu\"\n",
        "  %4 = adl.processor.compute @proc_lane, [], with [%3]\n",
        "  %5 = adl.arch.compose \"arch_x_element\", arch[%4], mem[%1]\n",
        "  %6 = adl.arch.scale \"arch_x\", [%0] of %5, mem_region %2\n",
        "  %7 = adl.arch.compose \"arch_chip\", arch[%6], mem[]\n",
        "\n",
        "}\n",
    ]
    .concat();
    assert_eq!(text, expected);
}

#[test]
fn processor_sources_follow_the_architecture_module() {
    let a = lane_arch("module @pe {\n}\n");
    let g = emit_architecture_mlir(&a).unwrap();
    assert!(g.adl_only.ends_with("mem[]\n}\n"));
    assert!(g.complete.contains(
        "\n  module @proc_lane  attributes {mlar.processor_array = \"lane\", mlar.processor_definition = \"pe\", mlar.processor_domain = [\"x\"]} {\n  }\n}\n"
    ));
}

#[test]
fn explicit_scopes_compose_the_hierarchy() {
    let mut a = lane_arch("");
    a.scopes = vec![Scope {
        name: "core".to_string(),
        parent: None,
        axes: vec!["x".to_string()],
        memories: vec!["L1".to_string()],
        processors: vec!["lane".to_string()],
        networks: vec![],
        resources: vec![],
    }];
    let text = architecture_to_mlir_unchecked(&a).unwrap();
    assert!(text.contains("%5 = adl.arch.compose \"arch_core_element\", arch[%4], mem[%1]\n"));
    assert!(text.contains("%6 = adl.arch.scale \"arch_core\", [%0] of %5, mem_region %2\n"));
}

#[test]
fn a_processor_without_a_type_is_not_exported() {
    let mut a = lane_arch("");
    a.processor_definitions = vec![ProcessorDefinition::new("pe", "", vec![])];
    assert_eq!(
        architecture_to_mlir_unchecked(&a).unwrap_err(),
        AdlExportError::MissingProcessorType { processor: "lane".into() }
    );
}

#[test]
fn a_missing_definition_makes_an_architecture_unready() {
    let mut a = lane_arch("");
    a.processors[0].definition = "other".to_string();
    assert!(!is_export_ready(&a));
}
