//! Format analysis and dependency resolution for generating type definitions
//! from a registry of container formats.

pub mod analyzer;
pub mod config;
pub mod format;
pub mod graph;
pub mod order;
pub mod qualified;
pub mod registry;

pub use analyzer::{analyze, analyze_with_externals, Analysis, UnresolvedReference};
pub use config::{normalize_comment, CodeGeneratorConfig, CustomCode, DocComments, Encoding, ExternalDefinitions};
pub use format::{ContainerFormat, Format, Named, VariantFormat};
pub use qualified::QualifiedMap;
pub use registry::{NameMap, Registry};
