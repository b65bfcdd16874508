//! Inference for small Llama models: a checkpoint and a vocabulary in, text out.
//!
//! The numbers are not fixed to one representation: a routine that computes asks an arithmetic
//! unit for every operation, and its contract says which formula its result is the value of (see
//! [`scalar`]). Where the library decides by a number, as in choosing a token, it works on the bit
//! patterns of single-precision numbers (see [`float`]).
//!
//! * [`bytes`], [`model`], [`tokenizer`]: the two files, and what they hold.
//! * [`math`], [`forward`]: the network.
//! * [`sampler`], [`generate`]: from scores to tokens, and from tokens to a text.
//! * [`options`]: the command line.
//! * [`exact`], [`history`], [`spelling`]: what holds of all of these together.
//! * [`meaning`], [`network`], [`chance`]: what the computations come to in the real numbers.
//! * [`format`], [`coding`]: what the two files and the tokens mean, from the writer's side.
//! * [`scalar`], [`float`], [`text`], [`sort`]: what they are built from.
pub mod bytes;
pub mod chance;
pub mod coding;
pub mod exact;
pub mod float;
pub mod format;
pub mod forward;
pub mod generate;
pub mod history;
pub mod math;
pub mod meaning;
pub mod model;
pub mod network;
pub mod options;
pub mod sampler;
pub mod scalar;
pub mod sort;
pub mod spelling;
pub mod text;
pub mod tokenizer;
