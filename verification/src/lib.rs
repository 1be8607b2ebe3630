//! Verified core of the codegenome code graph: content addresses, graph
//! construction from extracted symbols, symbol resolution, provenance export,
//! repo-map rendering, query helpers and snapshot attestation.

pub mod identity;
pub mod text;
pub mod graph;
pub mod lang;
pub mod index;
pub mod query;
pub mod keyed;
pub mod order;
pub mod paths;
pub mod prov;
pub mod repo_map;
pub mod attest;
pub mod tools;
