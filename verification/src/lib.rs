//! A verified virtual machine for an eight-instruction tape language.
//!
//! A program is a string of symbols. Seven of them are instructions
//! (`>`, `<`, `+`, `-`, `.`, `[`, `]`); every other symbol is a comment.
//! The machine owns a tape of [`machine::TAPE_LEN`] signed 8-bit cells, a
//! data pointer into the tape and an instruction pointer into the program.
//!
//! * [`machine`] holds the machine state, its mathematical view and the
//!   operations on the current cell and the data pointer.
//! * [`brackets`] holds the bracket matcher: the two scans that find the
//!   partner of a `[` or a `]` by counting nesting depth.
//! * [`engine`] holds the dispatch of one instruction and the bounded run
//!   of a whole program.
//! * [`laws`] holds theorems about the semantics that the other modules
//!   define.
//!
//! Every function is total: a pointer that would leave the tape or the
//! program is reported as a [`machine::VmError`], never a panic.

pub mod brackets;
pub mod engine;
pub mod laws;
pub mod machine;

pub use brackets::{loop_backwards, loop_forwards};
pub use engine::{output_char, run, step, Event};
pub use machine::{Machine, VmError, TAPE_LEN, VM};
