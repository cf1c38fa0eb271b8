//! Reverse-mode automatic differentiation over scalars.
//!
//! A [`engine::ComputationGraph`] records each arithmetic operation as a node
//! of a directed acyclic graph; a backward pass then hands the gradient of an
//! output down to everything it was computed from. [`nn`] builds neurons,
//! layers and perceptrons out of such nodes.
//!
//! The graph is generic in its numbers: it asks a [`scalar::Scalar`] for the
//! arithmetic and proves what it does with the results. [`model`] holds the
//! mathematical model that the contracts speak of, [`laws`] what follows for
//! every graph and every pass, and [`calculus`] the proof that the gradients
//! of a pass are derivatives where the arithmetic is exact.

pub mod calculus;
pub mod dot;
pub mod engine;
pub mod laws;
pub mod model;
pub mod nn;
pub mod scalar;
pub mod topology;
