//! The query-building interface, tables and query results.
pub mod input;
pub mod parse;
pub mod query;
pub mod result;
pub mod rows;
pub mod sql;
pub mod table;
