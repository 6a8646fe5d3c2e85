//! Selection of filesystem entries by hierarchical include and exclude
//! patterns, for packaging a directory tree into an archive.

pub mod text;
pub mod exclude;
pub mod crawler;
pub mod args;
