use mlar::arch::processor::{Connection, ProcessorArray, ProcessorType};
use mlar::arch::{Architecture, Axis, FuncPerfModel, MemoryArray, MemoryDefinition, OperationModel, ProcessorDefinition, Resource};
use mlar::arch::index::AffineExpression;
use mlar::arch::{EndpointIndex, MemoryEndpoint};
use mlar::mlir::export::{
    endpoint_memory_ssa, endpoint_memory_symbol, endpoint_selection_prefix, escape_mlir_string, indent, is_domain_prefix, prefixed, validate_processors, AdlExportError, Emitter,
};
use mlar::mlir::func::{MlirFunc, MlirFuncDetails, MlirOperationKind};

fn details(operations: Vec<MlirOperationKind>) -> MlirFuncDetails {
    MlirFuncDetails {
        tensor_args: vec![],
        memref_args: vec![],
        memref_arg_types: vec![],
        memref_memory_requirements: vec![],
        output_tensors: vec![],
        source_memrefs: vec![],
        target_memrefs: vec![],
        memref_symbol_bindings: vec![],
        tensor_symbol_bindings: vec![],
        mem_region_bindings: vec![],
        copy_ops: vec![],
        gather_ops: vec![],
        linalg_ops: vec![],
        operations,
    }
}

fn function(name: &str, operations: Vec<MlirOperationKind>) -> OperationModel {
    OperationModel::new(
        MlirFunc { name: name.to_string(), symbols: vec![], mlir_details: Some(details(operations)), sym_map: None },
        FuncPerfModel::trivial(),
    )
}

fn arch_with(definition: ProcessorDefinition) -> Architecture {
    Architecture {
        name: "chip".to_string(),
        axes: vec![],
        memory_definitions: vec![],
        memories: vec![],
        processor_definitions: vec![definition],
        processors: vec![ProcessorArray {
            name: "lane".to_string(),
            definition: "pe".to_string(),
            connection: Connection::new(&[], vec![], vec![]),
            axes: vec![],
            resources: vec![],
        }],
        resources: vec![],
        networks: vec![],
        scopes: vec![],
    }
}

#[test]
fn a_processor_without_a_type_cannot_be_exported() {
    let a = arch_with(ProcessorDefinition::new("pe", "", vec![]));
    let e = validate_processors(&a).unwrap_err();
    assert_eq!(e, AdlExportError::MissingProcessorType { processor: "lane".into() });
    assert_eq!(e.message(), "processor 'lane' has no compatibility `type`");
}

#[test]
fn a_compute_processor_may_not_move_data() {
    let d = ProcessorDefinition::new(
        "pe",
        "",
        vec![function("mm", vec![MlirOperationKind::Linalg("linalg.matmul".into())]), function("mv", vec![MlirOperationKind::Copy])],
    )
    .with_type(ProcessorType::Compute);
    let e = validate_processors(&arch_with(d)).unwrap_err();
    assert_eq!(e, AdlExportError::ComputeContainsMovement { processor: "lane".into(), function: "mv".into() });
    assert_eq!(e.message(), "compute processor 'lane' function 'mv' contains a movement operation");
}

#[test]
fn a_data_mover_may_not_compute_and_unknown_loom_is_refused() {
    let d = ProcessorDefinition::new("pe", "", vec![function("mm", vec![MlirOperationKind::Linalg("linalg.add".into())])])
        .with_type(ProcessorType::DataMover);
    assert_eq!(
        validate_processors(&arch_with(d)).unwrap_err(),
        AdlExportError::DataMoverContainsCompute { processor: "lane".into(), function: "mm".into() }
    );
    let d = ProcessorDefinition::new("pe", "", vec![function("f", vec![MlirOperationKind::UnsupportedLoom("loom.x".into())])])
        .with_type(ProcessorType::DataMover);
    assert_eq!(
        validate_processors(&arch_with(d)).unwrap_err(),
        AdlExportError::UnsupportedOperation { processor: "lane".into(), operation: "loom.x".into() }
    );
    let d = ProcessorDefinition::new("pe", "", vec![function("f", vec![MlirOperationKind::Copy, MlirOperationKind::Gather])])
        .with_type(ProcessorType::DataMover);
    assert!(validate_processors(&arch_with(d)).is_ok());
}

#[test]
fn prefixed_symbols_replace_other_characters() {
    assert_eq!(prefixed("mem", "L1.bank-0"), "mem_L1_bank_0");
    assert_eq!(prefixed("dim", "x"), "dim_x");
}

#[test]
fn a_dimension_is_emitted_once() {
    let mut e = Emitter::new();
    assert_eq!(e.emit_dimension("x", 4), "%0");
    assert_eq!(e.emit_dimension("x", 4), "%0");
    assert_eq!(e.emit_dimension("y", 2), "%1");
    assert_eq!(e.body, "%0 = adl.spatial_dim \"dim_x\", 4\n%1 = adl.spatial_dim \"dim_y\", 2\n");
}

#[test]
fn resources_keep_their_compatibility_names() {
    let mut e = Emitter::new();
    assert_eq!(e.emit_resource(&Resource::exclusive("dma.dma")), "%0");
    assert_eq!(e.emit_resource(&Resource::quantitative("bw.x", 8)), "%1");
    assert_eq!(e.emit_resource(&Resource::exclusive("dma.dma")), "%0");
    assert_eq!(
        e.body,
        "%0 = adl.resource.exclusive \"res_dma\"\n%1 = adl.resource.quantitative \"res_bw_x\", {capacity = 8}\n"
    );
}

#[test]
fn a_banked_memory_gets_a_bank_an_instance_and_an_array() {
    let mut e = Emitter::new();
    let m = MemoryArray::new("L1", "sram", vec![Axis::new("x", 2)]);
    let d = MemoryDefinition::new("sram", 1024, 16).with_banking(4);
    assert_eq!(e.emit_memory(&m, &d).unwrap(), "%4");
    assert_eq!(
        e.body,
        [
            "%0 = adl.memory.bank \"mem_L1_bank\", {bsize = 16, nblk = 16}\n",
            "%1 = adl.spatial_dim \"dim_L1_bank\", 4\n",
            "%2 = adl.memory.array \"mem_L1_instance\", [%1] of %0\n",
            "%3 = adl.spatial_dim \"dim_x\", 2\n",
            "%4 = adl.memory.array \"mem_L1\", [%3] of %2\n",
        ]
        .concat()
    );
}

#[test]
fn a_scalar_memory_is_its_bank() {
    let mut e = Emitter::new();
    let m = MemoryArray::new("reg", "r", vec![]);
    let d = MemoryDefinition::new("r", 64, 8);
    assert_eq!(e.emit_memory(&m, &d).unwrap(), "%0");
    assert_eq!(e.body, "%0 = adl.memory.bank \"mem_reg\", {bsize = 8, nblk = 8}\n");
    let bad = MemoryDefinition::new("r", 60, 8);
    let err = e.emit_memory(&m, &bad).unwrap_err();
    assert_eq!(err.message(), "memory 'reg' cannot be exported: memory 'r' capacity 60 is not divisible by word_size 8");
}

fn memory_arch() -> Architecture {
    Architecture {
        name: "chip".to_string(),
        axes: vec![Axis::new("x", 2)],
        memory_definitions: vec![MemoryDefinition::new("sram", 1024, 16)],
        memories: vec![MemoryArray::new("L1", "sram", vec![Axis::new("x", 2)])],
        processor_definitions: vec![],
        processors: vec![],
        resources: vec![],
        networks: vec![],
        scopes: vec![],
    }
}

#[test]
fn endpoints_select_the_whole_array_or_one_instance() {
    let a = memory_arch();
    let mut e = Emitter::new();
    e.emit_memory(&a.memories[0], &a.memory_definitions[0]).unwrap();
    let whole = MemoryEndpoint::new("L1", vec![EndpointIndex::All]);
    let one = MemoryEndpoint::new("L1", vec![EndpointIndex::Expression(AffineExpression::Variable("x".into()))]);
    assert_eq!(endpoint_selection_prefix(&a, &whole).unwrap(), 0);
    assert_eq!(endpoint_selection_prefix(&a, &one).unwrap(), 1);
    assert_eq!(endpoint_memory_ssa(&e, &a, &whole).unwrap(), "%2");
    assert_eq!(endpoint_memory_ssa(&e, &a, &one).unwrap(), "%0");
    assert_eq!(endpoint_memory_symbol(&e, &a, &one).unwrap(), "mem_L1");
    let missing = MemoryEndpoint::new("L9", vec![]);
    assert_eq!(
        endpoint_memory_ssa(&e, &a, &missing).unwrap_err(),
        AdlExportError::InvalidConnection { processor: "<export>".into(), reason: "unknown memory 'L9'".into() }
    );
    let after_slice = MemoryEndpoint::new(
        "L1",
        vec![EndpointIndex::All, EndpointIndex::Expression(AffineExpression::Constant(0))],
    );
    assert_eq!(
        endpoint_selection_prefix(&a, &after_slice).unwrap_err(),
        AdlExportError::UnsupportedMemorySelection { memory: "L1".into() }
    );
}

#[test]
fn strings_are_escaped_byte_by_byte() {
    assert_eq!(escape_mlir_string("lane\"zero"), "lane\\22zero");
    assert_eq!(escape_mlir_string("lane\\family"), "lane\\5Cfamily");
    assert_eq!(escape_mlir_string("a\nb"), "a\\0Ab");
    assert_eq!(escape_mlir_string("\u{e9}"), "\\C3\\A9");
    assert_eq!(escape_mlir_string("plain_name-1"), "plain_name-1");
}

#[test]
fn indent_prefixes_every_line() {
    assert_eq!(indent("a\nb\r\n\nc\r", 2), "  a\n  b\n  \n  c\r\n");
    assert_eq!(indent("x\n", 1), " x\n");
    assert_eq!(indent("", 4), "");
}

#[test]
fn a_domain_prefix_matches_leading_axes() {
    let x = Axis::new("x", 2);
    let y = Axis::new("y", 3);
    assert!(is_domain_prefix(&[x.clone()], &[x.clone(), y.clone()]));
    assert!(is_domain_prefix(&[], &[x.clone()]));
    assert!(!is_domain_prefix(&[y.clone()], &[x.clone(), y.clone()]));
    assert!(!is_domain_prefix(&[Axis::new("x", 4)], &[x.clone()]));
    assert!(!is_domain_prefix(&[x.clone(), y.clone()], &[x]));
}
