//! Extraction of custom type declarations (enumerations and a vector
//! extension type) from a relational schema definition, and their merge
//! into a code-generator type-mapping table.
pub mod schema_parser;
pub mod text;
pub mod yaml_updater;
