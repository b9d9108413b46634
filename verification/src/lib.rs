//! An execution core for an eight-opcode tape language.
//!
//! A program is a sequence of the characters `+ - > < , . [ ]`. It runs on a
//! [`machine::Machine`]: an unbounded tape of bytes, a pointer into it, a
//! buffer of input bytes and a buffer of output bytes. The
//! [`executor::Executor`] keeps the program and the stack of loops that have
//! been entered, and interprets the program opcode by opcode.
//!
//! What the interpreter does is defined in [`semantics`] as a step relation on
//! mathematical configurations; the executable code is proved to follow it.

pub mod brackets;
pub mod executor;
pub mod machine;
pub mod message;
pub mod semantics;

pub use executor::Executor;
pub use machine::Machine;
