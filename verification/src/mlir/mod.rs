//! MLIR function interfaces: the `func.func` text of processors and data movers, read
//! into names, symbols, operands and the Loom operations that bind them.
pub mod lex;
pub mod ops;
pub mod scan;
pub mod func;
pub mod read;
pub mod module;
pub mod ctext;
pub mod compact;
pub mod loom;
pub mod lower;
pub mod rewrite;
pub mod export;
pub mod adl_header;
pub mod adl_lower;
pub mod adl;

pub use compact::LoomParseError;
pub use func::{MlirFunc, MlirFuncDetails, MlirModule, MlirOperationKind};
pub use loom::parse_loom_source;
pub use lower::{lower_loom_source, LoomMemoryBinding};
pub use ops::{
    MlirBroadcastDim, MlirCopyOp, MlirGatherOp, MlirMemRegionBinding, MlirMemrefSymbolBinding,
    MlirTensorSymbolBinding,
};
