use mlar::mlir::rewrite::rewrite_mlir_source;

#[test]
fn mlir_sources_rewrite_processor_module_and_memory_bindings() {
    let processor_name_map = vec![("lane".to_string(), "proc_lane".to_string())];
    let memory_name_map = vec![("L1".to_string(), "mem_L1".to_string())];

    let src = r#"module @lane {
  func.func @f(%a: memref<?xf16>) {
    loom.bind_mem %a, @L1 : memref<?xf16>
    loom.copy %a, %a src_mem_space @L1 dst_mem_space @L1, area: [1] : memref<?xf16> to memref<?xf16>
    return
  }
}
"#;
    let rewritten = rewrite_mlir_source(src, &processor_name_map, &memory_name_map);

    assert!(rewritten.contains("module @proc_lane {"));
    assert!(rewritten.contains("loom.bind_mem %a, @mem_L1 : memref<?xf16>"));
    assert!(rewritten.contains("src_mem_space @mem_L1 dst_mem_space @mem_L1"));
}

#[test]
fn rewriting_keeps_unknown_symbols_and_the_final_newline() {
    let names = vec![("a".to_string(), "proc_a".to_string())];
    let mems = vec![("M".to_string(), "mem_M".to_string())];
    assert_eq!(
        rewrite_mlir_source("module @b {\n  loom.bind_mem %x, @N\n}", &names, &mems),
        "module @b {\n  loom.bind_mem %x, @N\n}"
    );
    assert_eq!(
        rewrite_mlir_source("module @a {\r\nmodule @a {\n", &names, &mems),
        "module @proc_a {\nmodule @a {\n"
    );
    assert_eq!(rewrite_mlir_source("", &names, &mems), "");
}
