//! A tree-walking interpreter for a small indentation-structured, event-driven
//! scripting language: tokenizer, tree builder, semantic checker, integer
//! expression evaluator with placeholder substitution, scoped memory with
//! promotion semantics, and a tick/event runtime engine.

pub mod ast;
pub mod engine;
pub mod logger;
pub mod math;
pub mod memory;
pub mod semantic;
pub mod strutil;
pub mod tokenizer;
pub mod utils;
