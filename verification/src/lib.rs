//! Multi-level architecture representation: architectures of memories,
//! processors and networks, their symbolic performance models, and the
//! evaluation of schedules against them.
use vstd::prelude::*;

pub mod arch;
pub mod math;
pub mod mlir;
pub mod schedule;
pub mod text;

pub use arch::{
    Architecture, ArchitectureBuilder, ArchitectureError, Axis, Banking, Connection, EndpointIndex,
    FuncPerfModel, MemoryArray, MemoryDefinition, MemoryEndpoint, MemoryLocation, NetworkInterface,
    NetworkLink, NetworkTopology, OperationModel, PerfScenario, PerfYamlError, PerformanceYaml,
    ProcessorDefinition,
    ProcessorSelector, ProcessorType, ResolvedEndpointIndex, Resource, Scope, TimeCost,
};
pub use math::{AffineError, AffineExpr, AffineMap, ConstraintExpr, Expr, ParseError, Sym};
pub use mlir::{MlirFunc, MlirModule};
pub use schedule::{evaluate, Schedule, SymbolicMapping};

verus! {
} // verus!
