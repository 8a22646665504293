//! A columnar storage and incremental-processing engine.
#![allow(unused_imports)]

pub mod varint;
pub mod schema;
pub mod exec;
pub mod storage;
pub mod text;
pub mod maps;
pub mod lifecycle;
pub mod embedding;
pub mod incremental;
pub mod api;
pub mod cache;
pub mod backend;
pub mod utf8_bounds;
