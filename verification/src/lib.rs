//! Markfile analysis, planning and formatting.

pub mod cli;
pub mod compiler;
pub mod config;
pub mod formatter;
pub mod graph;
pub mod linter;
pub mod logging;
pub mod lsp;
pub mod model;
pub mod order;
pub mod parser;
pub mod project;
pub mod render;
pub mod template;
pub mod text;
pub mod workspace;
