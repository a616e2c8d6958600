//! Context packs from source files: comment stripping, import hoisting,
//! whitespace collapse, signature outlines, and symbol extraction, plus the
//! decisions of the MCP server that serves them.

pub mod compress;
pub mod mcp;
pub mod paths;
pub mod text;
pub mod tools;
pub mod usage;
