//! Recognition results turned into positions that an engine accepts.
pub mod board;
