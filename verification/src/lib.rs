//! A toolchain for a minimal byte-oriented esoteric language: a tolerant
//! byte-stream parser, a fused intermediate representation with a peephole
//! optimization pipeline, and a step-bounded interpreter over a fixed-size
//! wraparound tape.
//!
//! Every transformation of the fused representation carries a proof that it
//! preserves the meaning of the program under the interpreter's semantics.

pub mod bf;
pub mod bf_ffi;
pub mod bf_ir;
pub mod interpret;
pub mod io_utils;
pub mod opt;
pub mod pipeline;
pub mod semantics;
