//! Answers of the analysis tools that an MCP server offers on a scanned code base.
//!
//! Each tool reads what the server has cached of the last scan and builds a JSON reply.

pub mod coupling;
pub mod double;
pub mod dsm;
pub mod evolution;
pub mod file_info;
pub mod glob;
pub mod issues;
pub mod json;
pub mod measures;
pub mod pairs;
pub mod ranking;
pub mod reports;
pub mod rules;
pub mod snapshot;
pub mod test_gaps;
pub mod text;
pub mod tools;
pub mod top_files;
pub mod tree;

pub use vstd::hash_map::StringHashMap;
pub use vstd::hash_set::StringHashSet;
