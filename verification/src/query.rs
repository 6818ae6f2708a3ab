//! A small SQL-like query layer over the tree.

pub mod analysis;
pub mod ast;
pub mod executor;
pub mod grammar;
pub mod literal;
pub mod parser;

pub use analysis::{QueryAnalysis, QueryType, WhereCondition};
pub use ast::{
    Condition, DeleteStatement, InsertStatement, SelectStatement, Statement, Value, WhereClause,
};
pub use executor::{QueryExecutor, QueryResult};
pub use parser::{tokenize, SQLParser};
