//! Bulk retrieval of the pwned-password range data set and a frequency sort of
//! the result: the ordering buffer, the per-request retry and statistics rules,
//! the record codec and the text formats, each with a verified contract.

pub mod config;
pub mod consts;
pub mod download;
pub mod num;
pub mod row;
pub mod row_order;
pub mod sort;
pub mod stats;
pub mod text;
pub mod writer;
