//! A compiler and virtual machine for a small Brainfuck-family language.
//!
//! Source text is compiled into a compact instruction list (runs of `+ - < >`
//! are folded into one instruction, brackets are resolved into jump targets),
//! and the list is executed on a tape of 30,000 byte cells.
pub mod op;
pub mod compiler;
pub mod machine;
pub mod pipeline;
