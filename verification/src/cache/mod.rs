//! Caches of query results and of encoded chunks.
pub mod data_cache;
pub mod result_cache;
