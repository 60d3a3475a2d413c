//! A lazily evaluated, memoizing computation graph over scalar inputs.
//!
//! Inputs are combined by sum, product, power and sine into a directed acyclic graph. Each
//! node keeps the value it was last evaluated to until an input that it depends on is set
//! again.
//!
//! Values are carried as the bit patterns of single-precision numbers, and the library
//! never computes with them: [`Graph::compute`] takes the arithmetic as a function and
//! decides which applications are made, in which order, and what is kept. Its contract
//! speaks of what that function ensures, so it holds for any arithmetic.
//!
//! The modules:
//! - [`model`]: a graph as mathematics, and the invariant of every graph;
//! - [`graph`]: the graph, its nodes and handles, and their views into the model;
//! - [`construct`]: building inputs and operators;
//! - [`eval`]: evaluation;
//! - [`invalidate`]: setting an input;
//! - [`reach`]: lemmas on which node depends on which;
//! - [`laws`]: what follows for memoization, invalidation, sharing and acyclicity.

pub mod construct;
pub mod eval;
pub mod graph;
pub mod invalidate;
pub mod laws;
pub mod model;
pub mod reach;

pub use crate::eval::Application;
pub use crate::graph::{Graph, GraphError, Handle, Node, Operation};
