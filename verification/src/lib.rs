//! Parsing, formatting and restructuring of Nix configuration files.
pub mod text;
pub mod value;
pub mod grammar;
pub mod lexer;
pub mod parser;
pub mod format;
pub mod sort;
pub mod flattening;
pub mod generate;
pub mod query;
pub mod vfs;
pub mod tui;
pub mod write;
pub mod commands;
pub mod output;
pub mod parsing;
pub mod expanded;
pub mod roundtrip;
pub mod inverse;
