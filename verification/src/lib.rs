//! Reports source files and functions that exceed per-language size limits.

pub mod config;
pub mod parser;
pub mod scanner;
pub mod syntax;
pub mod table;
pub mod text;
