//! A small expression language: lexer, parser, type checker and a
//! tree-walking interpreter, each with a machine-checked contract, and the
//! laws that tie them together (type soundness, fuel only bounding a run,
//! block scoping, the order of functions not mattering to the checker).
pub mod ast;
pub mod bridge;
pub mod builtins;
pub mod fuel;
pub mod interpreter;
pub mod lexer;
pub mod parser;
pub mod pipeline;
pub mod rules;
pub mod scoping;
pub mod semantics;
pub mod soundness;
pub mod text;
pub mod typechecker;
pub mod test_util;
