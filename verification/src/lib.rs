//! A small tabular-data library: typed scalar cells, a column-major table
//! store with row and column accessors and in-place column mutation, an
//! inference-based decoder for comma-separated text, and a schema-driven
//! decoder that selects and types columns after the fields of a record-type
//! declaration.
pub mod dataframe;
pub mod decode;
pub mod error;
pub mod lexer;
pub mod numtext;
pub mod render;
pub mod schema;
pub mod typed;
pub mod val;

pub use dataframe::DataFrame;
pub use error::Error;
pub use val::Val;
