//! A verified interpreter for a byte-oriented, tape-based esoteric language.
//!
//! The language has eight single-character instructions operating on an
//! unbounded-to-the-right memory tape of byte cells. The library provides
//! the tape abstraction, the instruction-dispatch loop, and the
//! bracket-matching routines that implement the language's only control-flow
//! construct (a zero-test loop). Input and output are modeled as in-memory
//! byte buffers; the surrounding program connects them to real streams.

pub mod machine;
pub mod tape;
pub mod interp;
pub mod laws;
