//! The architecture model: axes, memories, processors, networks, resources, scopes.
pub mod axis;
pub mod index;
pub mod index_parser;
pub mod resource;
pub mod scope;
pub mod perf;
pub mod memory;
pub mod processor;
pub mod network;
pub mod architecture;
pub mod resolve;
pub mod checks;
pub mod ownership;
pub mod definition;
pub mod valid;
pub mod builder;
pub mod yaml;
pub mod chip;
pub mod perf_yaml;
pub mod processor_yaml;

pub use architecture::{Architecture, ArchitectureError};
pub use builder::ArchitectureBuilder;
pub use perf_yaml::{PerfAlternativeYaml, PerfYamlError, PerformanceYaml};
pub use processor_yaml::ProcessorYaml;
pub use axis::{AffineExpr, Axis};
pub use index::EndpointParseError;
pub use memory::{
    Banking, EndpointIndex, MemoryArray, MemoryDefinition, MemoryEndpoint, MemoryTechnology,
};
pub use network::{NetworkEdge, NetworkInterface, NetworkLink, NetworkTopology};
pub use perf::{FuncPerfModel, FuncPerfModelBuilder, PerfScenario, TimeCost};
pub use processor::{
    Connection, ConnectionInstance, ConnectionPort, MemoryLocation, OperationModel, ProcessorArray,
    ProcessorDefinition, ProcessorSelection, ProcessorSelectionError, ProcessorSelector,
    ProcessorType, ResolvedEndpointIndex,
};
pub use resource::Resource;
pub use scope::Scope;
