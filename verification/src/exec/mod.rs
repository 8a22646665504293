//! Query execution: column batches, expressions, plans and their optimizer.
pub mod batch;
pub mod expr;
pub mod group;
pub mod logical_plan;
pub mod optimizer;
pub mod physical;
