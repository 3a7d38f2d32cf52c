//! An optimizing Brainfuck front end with a verified reference interpreter.
//!
//! The optimizer lowers raw source characters into a small intermediate
//! instruction set, coalescing runs of arithmetic and head movement and
//! rewriting clear / move / multiply-add loop idioms, then resolves the
//! bracket pairs into relative jump offsets. The interpreter executes that
//! intermediate form against a fixed 65,536-cell byte tape, reading from an
//! input byte sequence and collecting output bytes.

pub mod ir;
pub mod laws;
pub mod machine;
pub mod optimize;
pub mod pending;

pub use ir::Token;
pub use machine::RunOutcome;
pub use optimize::CompileError;
pub use optimize::Interpreter;
