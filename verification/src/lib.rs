//! A small compiler and virtual machine for an eight-instruction tape language.
//!
//! Source text is translated into a sequence of [`ir::BrainfuckIR`]
//! instructions, optionally shortened by fusing runs of equal counted
//! instructions, and executed by [`vm::VM`] on a fixed tape of byte cells.
//! Every function here is verified against the mathematical model in its
//! contract.

pub mod behaviour;
pub mod error;
pub mod fusion;
pub mod ir;
pub mod machine;
pub mod nesting;
pub mod vm;
