pub mod args;
pub mod ast;
pub mod ast_builder;
pub mod frontend_types;
pub mod graph;
pub mod macro_implementations;
pub mod macros;
pub mod merge;
pub mod parser;
pub mod resolve;
pub mod text;
