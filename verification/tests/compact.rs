use mlar::arch::MemoryTechnology;
use mlar::mlir::{lower_loom_source, parse_loom_source, LoomMemoryBinding};

fn memory(symbol: &str, scope_extent: &[u64]) -> LoomMemoryBinding {
    LoomMemoryBinding {
        symbol: symbol.into(),
        technology: None,
        scope_extent: scope_extent.to_vec(),
    }
}

fn typed_memory(symbol: &str, technology: MemoryTechnology) -> LoomMemoryBinding {
    LoomMemoryBinding {
        symbol: symbol.into(),
        technology: Some(technology),
        scope_extent: Vec::new(),
    }
}

#[test]
fn operand_technologies_resolve_connected_memories_by_type() {
    let source = r#"
func @matmul(
  in lhs: f16[M, K] @memory(gcram),
  in rhs: f16[K, N] @memory(rram),
  out out: f16[M, N] @memory(gcram)
) {
  linalg.matmul ins(%lhs, %rhs) outs(%out)
}
"#;
    let module = parse_loom_source(source).expect("typed memories should parse");
    assert_eq!(
        module.functions[0]
            .mlir_details
            .as_ref()
            .unwrap()
            .memref_memory_requirements,
        [
            ("lhs".to_string(), "gcram".to_string()),
            ("rhs".to_string(), "rram".to_string()),
            ("out".to_string(), "gcram".to_string()),
        ]
    );

    let lowered = lower_loom_source(
        source,
        "matmul",
        &[],
        &[
            typed_memory("mem_L1_rram", MemoryTechnology::new("rram", 1)),
            typed_memory("mem_L1_gcram", MemoryTechnology::new("gcram", 0)),
        ],
        &[typed_memory("mem_L1_gcram", MemoryTechnology::new("gcram", 0))],
    )
    .expect("requirements should reorder connected candidates");
    assert!(lowered.contains("loom.bind_mem %lhs, @mem_L1_gcram"));
    assert!(lowered.contains("loom.bind_mem %rhs, @mem_L1_rram"));
    assert!(lowered.contains("%rhs: memref<?x?xf16, 1>"));
}

#[test]
fn ambiguous_technology_fails_but_arbitrary_kinds_lower() {
    let ambiguous = r#"
func @add(
  in lhs: f16[L] @memory(custom),
  in rhs: f16[L] @memory(custom),
  out dst: f16[L] @memory(custom)
) {
  linalg.add ins(%lhs, %rhs) outs(%dst)
}
"#;
    let error = lower_loom_source(
        ambiguous,
        "add",
        &[],
        &[
            typed_memory("mem_a", MemoryTechnology::new("custom", 0)),
            typed_memory("mem_b", MemoryTechnology::new("custom", 0)),
        ],
        &[typed_memory("mem_out", MemoryTechnology::new("custom", 0))],
    )
    .unwrap_err();
    assert!(error.message().contains("multiple connected memories match"));

    let custom = r#"
func @copy(
  in src: f16[L] @memory(custom),
  out dst: f16[L] @memory(custom)
) {
  loom.copy %src to %dst
}
"#;
    let lowered = lower_loom_source(
        custom,
        "copy",
        &[],
        &[typed_memory("mem_in", MemoryTechnology::new("custom", 2))],
        &[typed_memory("mem_out", MemoryTechnology::new("custom", 2))],
    )
    .expect("MLAR lowering must not hardcode technology names or kinds");
    assert!(lowered.contains("memref<?xf16, 2>"));
}

#[test]
fn short_form_linalg_operands_gain_their_declared_types() {
    let source = r#"
func @matmul(
  in lhs: f16[M, K],
  in rhs: f16[K, N] @space(1),
  out out: f16[M, N]
) {
  linalg.matmul ins(%lhs, %rhs) outs(%out)
}
"#;
    let lowered = lower_loom_source(
        source,
        "matmul",
        &[],
        &[memory("mem_L1", &[])],
        &[memory("mem_L1", &[])],
    )
    .expect("short-form linalg should lower");

    assert!(lowered.contains(
        "linalg.matmul ins(%lhs, %rhs : memref<?x?xf16>, memref<?x?xf16, 1>) \
         outs(%out : memref<?x?xf16>)"
    ));
}

#[test]
fn already_typed_linalg_operands_are_left_alone() {
    let source = r#"
func @generic(
  in src: f16[L],
  out dst: f16[L]
) {
  linalg.generic {
    iterator_types = ["parallel"]
  }
  ins(%src : memref<?xf16>)
  outs(%dst : memref<?xf16>) {
    linalg.yield %src : f16
  }
}
"#;
    let lowered = lower_loom_source(
        source,
        "generic",
        &[],
        &[memory("mem_L1", &[])],
        &[memory("mem_L1", &[])],
    )
    .expect("typed linalg should lower");

    assert!(lowered.contains("ins(%src : memref<?xf16>)"));
    assert!(!lowered.contains("memref<?xf16>, memref<?xf16>"));
}

#[test]
fn preserves_memory_spaces_multiline_linalg_and_movement_extents() {
    let compute = r#"
func @remote_generic(
  in src: f16[L] @space(1),
  out dst: f16[L]
) {
  linalg.generic {
    iterator_types = ["parallel"]
  }
  outs(%dst : memref<?xf16>) {
    linalg.yield %src : f16
  }
}
"#;
    let module = parse_loom_source(compute).expect("multiline generic");
    assert_eq!(
        module.functions[0]
            .mlir_details
            .as_ref()
            .unwrap()
            .memref_arg_types[0]
            .1,
        "memref<?xf16, 1>"
    );

    let movement = r#"
func @broadcast(
  in src: f16[L],
  out dst: f16[L]
) {
  loom.broadcast %src to %dst dst_space: 1 extent: [X, Y]
}
"#;
    let lowered = lower_loom_source(
        movement,
        "broadcast",
        &[],
        &[memory("mem_DRAM", &[8])],
        &[memory("mem_L1", &[8, 8])],
    )
    .expect("movement lowering");
    assert!(lowered.contains("dst_mem_space @mem_L1 : 1"));
    assert!(lowered.contains("area: [%X, %Y]"));
}

#[test]
fn one_architectural_memory_binds_multiple_function_operands() {
    let source = r#"
func @add(
  in lhs: f16[L],
  in rhs: f16[L],
  out result: f16[L]
) {
  linalg.add ins(%lhs, %rhs) outs(%result)
}
"#;
    let lowered = lower_loom_source(
        source,
        "add",
        &[],
        &[memory("mem_L1", &[])],
        &[memory("mem_L1", &[])],
    )
    .expect("one architecture handle should bind all same-side operands");
    assert_eq!(lowered.matches("loom.bind_mem %lhs, @mem_L1").count(), 1);
    assert_eq!(lowered.matches("loom.bind_mem %rhs, @mem_L1").count(), 1);
    assert_eq!(lowered.matches("loom.bind_mem %result, @mem_L1").count(), 1);
}

#[test]
fn collective_defaults_to_the_connected_region_extent() {
    let source = r#"
func @broadcast(
  in src: f16[L],
  out dst: f16[L]
) {
  loom.broadcast %src to %dst
}
"#;
    let lowered = lower_loom_source(
        source,
        "broadcast",
        &[],
        &[memory("mem_DRAM", &[8])],
        &[memory("mem_L1", &[8, 4])],
    )
    .expect("full-region broadcast should lower");
    assert!(lowered.contains("area: [8, 4]"));
}

#[test]
fn rejects_removed_area_and_copy_extent() {
    let area = r#"
func @broadcast(
  in src: f16[L],
  out dst: f16[L]
) {
  loom.copy %src to %dst area: [X]
}
"#;
    assert!(parse_loom_source(area)
        .unwrap_err()
        .message()
        .contains("removed `area`"));

    let copy_extent = area.replace(
        "loom.copy %src to %dst area: [X]",
        "loom.copy %src to %dst extent: [X]",
    );
    assert!(parse_loom_source(&copy_extent)
        .unwrap_err()
        .message()
        .contains("point-to-point `loom.copy`"));
}

#[test]
fn lowering_writes_the_whole_module() {
    let source = "func @copy(in src: f16[L], out dst: f16[L]) {\n  loom.copy %src to %dst\n}\n";
    let lowered = lower_loom_source(
        source,
        "m",
        &[],
        &[memory("mem_a", &[2])],
        &[memory("mem_b", &[])],
    )
    .unwrap();
    assert_eq!(
        lowered,
        "module @m {\n  func.func @copy(%src: memref<?xf16>, %dst: memref<?xf16>) {\n    %L = loom.sym @L : index\n    loom.bind_shape %src, [%L] : memref<?xf16>\n    loom.bind_shape %dst, [%L] : memref<?xf16>\n    loom.bind_mem %src, @mem_a : memref<?xf16>\n    loom.bind_mem %dst, @mem_b : memref<?xf16>\n    loom.copy %src, %dst src_mem_space @mem_a dst_mem_space @mem_b, area: [1] : memref<?xf16> to memref<?xf16>\n    return\n  }\n}\n"
    );
}

#[test]
fn parsed_functions_list_parameters_operands_and_operations() {
    let source = "func @g(in a: f32[N, M], out b: f32) {\n  loom.gather %a to %b extent: [4, K]\n  linalg.fill ins(%a) outs(%b)\n}\n";
    let module = parse_loom_source(source).unwrap();
    assert_eq!(module.module_name.as_deref(), Some("compact"));
    let f = &module.functions[0];
    assert_eq!(f.name, "g");
    let names: Vec<&str> = f.symbols.iter().map(|s| s.0.as_str()).collect();
    assert_eq!(names, ["N", "M", "K"]);
    let d = f.mlir_details.as_ref().unwrap();
    assert_eq!(d.memref_args, ["a", "b"]);
    assert_eq!(d.source_memrefs, ["a"]);
    assert_eq!(d.target_memrefs, ["b"]);
    assert_eq!(d.memref_arg_types[0].1, "memref<?x?xf32>");
    assert_eq!(d.memref_arg_types[1].1, "memref<f32>");
    assert_eq!(d.linalg_ops, ["linalg.fill"]);
    assert_eq!(d.operations.len(), 2);
}

#[test]
fn compact_errors_name_the_problem() {
    assert!(parse_loom_source("no functions here")
        .unwrap_err()
        .message()
        .contains("source contains no `func @name` blocks"));
    assert!(parse_loom_source("func @f(in a: f16) {")
        .unwrap_err()
        .message()
        .contains("unbalanced function braces"));
    assert!(parse_loom_source("func @f(a) {\n  loom.copy %a to %a\n}")
        .unwrap_err()
        .message()
        .contains("operand needs `in` or `out`"));
    assert!(parse_loom_source("func @f(in a: f16[N) {\n  loom.copy %a to %a\n}")
        .unwrap_err()
        .message()
        .contains("unbalanced operand shape brackets"));
    assert!(parse_loom_source("func @f(in a: f16) {\n  arith.addf %a\n}")
        .unwrap_err()
        .message()
        .contains("unsupported line in function 'f'"));
    assert_eq!(
        parse_loom_source("func @f(in a: f16) {\n}").unwrap_err().message(),
        "invalid compact Loom source: function 'f' has an empty body"
    );
    assert!(parse_loom_source("func @f(in a: f16 @memory(bad-name)) {\n  loom.copy %a to %a\n}")
        .unwrap_err()
        .message()
        .contains("invalid memory annotation"));
}
