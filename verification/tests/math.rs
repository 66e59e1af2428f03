use std::collections::HashSet;

use mlar::arch::Axis;
use mlar::math::{AffineExpr, AffineMap, ConstraintExpr, Expr, Sym};

#[test]
fn expr_if_else_eval_const() {
    let expr = Expr::if_then_else(
        ConstraintExpr::parse("8 >= 4").expect("constraint should parse"),
        Expr::constant(11),
        Expr::constant(22),
    );
    assert_eq!(expr.eval_const(), Some(11));
}

#[test]
fn expr_if_else_free_symbols() {
    let expr =
        Expr::parse("IF (M >= 256) {N + 1} ELSE {K + 2}").expect("expression should parse");
    let syms: HashSet<Sym> = expr.free_symbols().into_iter().collect();
    let expected: HashSet<Sym> = [Sym::new("M"), Sym::new("N"), Sym::new("K")]
        .into_iter()
        .collect();
    assert_eq!(syms, expected);
}

#[test]
fn expr_symbols_are_sorted() {
    let expr = Expr::parse("Z + A * Z").expect("expression should parse");
    assert_eq!(expr.symbols(), vec![Sym::new("A"), Sym::new("Z")]);
}

#[test]
fn sym_from_names() {
    assert_eq!(
        Sym::from_names(&["M", "N", "K"]),
        vec![Sym::new("M"), Sym::new("N"), Sym::new("K")]
    );

    let owned = vec!["B".to_string(), "L".to_string()];
    let names: Vec<&str> = owned.iter().map(|s| s.as_str()).collect();
    assert_eq!(Sym::from_names(&names), vec![Sym::new("B"), Sym::new("L")]);
}

#[test]
fn parses_and_applies_wraparound_map() {
    let axes = [Axis::new("x", 8), Axis::new("y", 8)];
    let map = AffineMap::parse("[x, y] -> [x, y]: ((x + 1) mod 8, y)", &axes).unwrap();
    assert_eq!(map.apply(&[7, 3]).unwrap(), [0, 3]);
}

#[test]
fn substitutes_architecture_bindings() {
    let axes = [Axis::new("x", 8)];
    let bindings = vec![("X".to_string(), 8i64)];
    let map = AffineMap::parse_with_bindings("[x] -> [x]: ((x + 1) mod X)", &axes, &bindings)
        .unwrap();
    assert_eq!(map.apply(&[7]).unwrap(), [0]);
}

#[test]
fn rejects_non_affine_multiplication() {
    let axes = [Axis::new("x", 8), Axis::new("y", 8)];
    assert!(AffineMap::parse("[x, y] -> [x]: (x * y)", &axes).is_err());
}

#[test]
fn programmatic_map_uses_the_same_expression_type() {
    let axes = [Axis::new("x", 4)];
    let map = AffineMap::new(
        &axes,
        &axes,
        vec![AffineExpr::modulo(
            AffineExpr::add(AffineExpr::variable("x"), AffineExpr::constant(1)),
            4,
        )],
    )
    .unwrap();
    assert_eq!(map.apply(&[3]).unwrap(), [0]);
}
