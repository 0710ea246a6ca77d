//! Local-rewrite optimization of fused programs.

pub mod peephole;
