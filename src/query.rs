//! The query pipeline: syntax tree, parser, planner and executor.
pub mod ast;
pub mod executor;
pub mod planner;
pub mod parser;
