//! Language-neutral graph building and language detection.

pub mod builder;
pub mod detect;
