//! minq: a CPU inference engine for LLaMA-family transformers.
//!
//! Written without any existing deep-learning framework: tensors, quantized
//! kernels, the transformer forward pass, sampling and the generation loop are
//! implemented on top of `rayon` for thread-level parallelism.
//!
//! Floating-point values are held as bit patterns: `u32` is binary32 and `u64`
//! is binary64. Comparisons, signs, rounding to integers and the like are
//! integer functions of [`bits`]; the rounded operations are a parameter, the
//! trait [`arith::Arith`].

pub mod arith;
pub mod attention;
pub mod bits;
pub mod causality;
pub mod checkpoint;
pub mod config;
pub mod declared;
pub mod distribution;
pub mod engine;
pub mod error;
pub mod evaluation;
pub mod exact;
pub mod export;
pub mod format;
pub mod formulas;
pub mod fused;
pub mod geometry;
pub mod gqa;
pub mod init;
pub mod layer;
pub mod layout;
pub mod likelihood;
pub mod load;
pub mod model;
pub mod naming;
pub mod nearest;
mod parallel;
pub mod ppl;
pub mod quantize;
pub mod ring;
pub mod rng;
pub mod rope;
pub mod rounded;
pub mod sampler;
pub mod sampling;
pub mod tensor;
pub mod text;

pub use error::MinqError;
