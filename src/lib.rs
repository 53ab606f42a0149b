//! Scalar reverse-mode automatic differentiation over an arena of nodes.
//!
//! A [`engine::Graph`] records every value built from leaves with the
//! operators of [`op::Op`]; [`engine::Value::backward`] then hands gradients
//! from a chosen output back to all of its ancestors. The [`nn`] module
//! builds small multi-layer perceptrons on top.

pub mod engine;
pub mod nn;
pub mod op;
pub mod scalar;
