//! A compiler from the syntax tree of Lua chunks to register machine bytecode.

pub mod accounting;
pub mod ast;
mod casts;
pub mod compiler;
mod compiler_function;
mod constants;
pub mod emission;
pub mod error;
pub mod execution;
pub mod fidelity;
pub mod function;
pub mod joining;
pub mod laws;
pub mod ledger;
pub mod limits;
pub mod machine;
pub mod meaning;
pub mod model;
pub mod opcode;
pub mod operators;
pub mod registers;
pub mod soundness;
pub mod source;
pub mod support;
pub mod top_stack;
pub mod validity;
pub mod value;
