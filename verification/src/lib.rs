//! Stateless pixel-processing kernels over flat RGBA byte buffers: a
//! separable box blur, a drop-shadow compositor built on it, and a
//! tolerance-bounded flood fill.  A buffer is a row-major byte sequence with
//! four interleaved channel bytes per pixel and length `4 * width * height`.
//! Each kernel is a pure function of its arguments (the flood fill mutates
//! its buffer in place), and each carries a contract that pins its output
//! down exactly, byte for byte.

pub mod blur;
pub mod fill;
pub mod grid;
pub mod shadow;
