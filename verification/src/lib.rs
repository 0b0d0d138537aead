//! Interval bounds over trees of linear arithmetic propositions: evaluation of
//! composite propositions under an interpretation, and propagation of bounds
//! through linear bounded trees.

pub mod batch;
pub mod evaluation;
pub mod propagation;
pub mod puan_core;
pub mod puan_eval;
pub mod reduction;
pub mod routes;
pub mod stream;
pub mod wrap;
