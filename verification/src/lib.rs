//! Collation core for a documentation filter: merges location-tagged text
//! fragments produced from a parsed object tree into per-file, line-number
//! preserving pseudo-source text, inserting class open/extends/close
//! scaffolding at class boundaries.

pub mod bytesutil;
pub mod collate;
pub mod collect;
pub mod defs;
pub mod emit;
pub mod laws;
pub mod loc;
pub mod paths;
pub mod pipeline;
