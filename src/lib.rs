//! An optimizing compiler and interpreter for the eight-command tape language `> < + - . , [ ]`.
//!
//! Source text is lexed and parsed into a nested IR, rewritten by a pipeline of passes
//! until a round changes nothing, and lowered to flat bytecode with resolved jumps. Two
//! interpreters run programs on a 30,000-cell tape of bytes: the bytecode interpreter
//! and a reference interpreter that executes the parsed source directly.
use vstd::prelude::*;

pub mod ir;
pub mod lexer;
pub mod parser;
pub mod reference;
pub mod reorder;
pub mod collapse;
pub mod const_loops;
pub mod sim_state;
pub mod data_usage;
pub mod simulate;
pub mod lower;
pub mod machine;
pub mod opt_vm;
pub mod simple_vm;
pub mod pipeline;
pub mod line_input;
pub mod semantics;

pub use ir::{DatamodKind, AST};
pub use line_input::StdIn;
pub use lower::CompiledInstr;
pub use parser::ParseError;
pub use pipeline::{full_parse, full_parse as optimized_parse};
pub use reference::{parse as simple_parse, Instr};
pub use sim_state::{BranchMarker, DataState, SimState};
pub use data_usage::{DataUsage, DataUsageTracker};

verus! {

} // verus!
