//! Verified core of a large-file analysis toolkit.
pub mod text;
pub mod query;
pub mod parser;
pub mod encoding;
pub mod storage;
pub mod analysis;
pub mod csv_rows;
pub mod json;
pub mod matcher;
pub mod engine;
pub mod index;
pub mod logs;
pub mod context;
pub mod paths;
