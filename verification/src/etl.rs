//! Loading data from delimited text.

pub mod csv_parser;
pub mod loader;

pub use csv_parser::{CSVParser, CSVSchema, DataType};
pub use loader::{ETLError, ETLLoader, ETLResult};
