//! Schedules of MLIR functions on processors, and the symbolic mappings of their calls.
pub mod evaluate;
pub mod schedule;

pub use evaluate::evaluate;
pub use schedule::{Schedule, SymbolicMapping};
