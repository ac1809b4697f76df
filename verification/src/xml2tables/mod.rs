//! XML documents as tables.
pub mod laws;
pub mod mapping;
pub mod mapping_laws;
pub mod maps;
pub mod parser;
pub mod paths;
pub mod registry;
pub mod row_laws;
pub mod specs;
pub mod tables;
pub mod tree_laws;
pub mod types;
