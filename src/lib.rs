//! A virtual machine for a tape language of nine symbols: the eight classic
//! ones and `%`, which performs an operating-system call whose operands are
//! read from the tape.
//!
//! [`lexer`] turns source text into a linked instruction sequence;
//! [`exec`] runs such a sequence step by step, leaving the actual I/O and
//! the native call to the caller.

pub mod lexer;
pub mod exec;
