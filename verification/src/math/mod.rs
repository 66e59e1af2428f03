//! Symbolic arithmetic: cost expressions, constraints, affine maps.
pub mod affine;
pub mod checked;
pub mod show;
pub mod expr;
pub mod parse;

pub use affine::{AffineError, AffineMap};
pub use crate::arch::axis::AffineExpr;
pub use expr::{Const, ConstraintExpr, ConstraintModel, Expr, ExprModel, Sym};
pub use parse::ParseError;
