//! Execution core of a small imperative scripting language: a tree-walking
//! interpreter over lexically scoped frames and a stack-machine code generator,
//! both driven by the same statement tree.
mod atom;
mod compile;
mod expr;
pub mod laws;
mod state;
mod statement;

pub use atom::{Atom, FunctionCall, FunctionData};
pub use compile::{CompileScope, Instr};
pub use expr::{Op, RunError, S};
pub use state::{Scope, State};
pub use statement::{Block, Declaration, If, Stmt, While};
