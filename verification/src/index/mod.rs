//! Per-file parsing results and cross-file symbol resolution.

pub mod parser;
pub mod resolver;
