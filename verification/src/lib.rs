//! A scalar reverse-mode automatic-differentiation engine.
//!
//! The library builds a directed acyclic graph of scalar operations and
//! computes, in one backward traversal, the partial derivative of a chosen
//! root node with respect to every node that contributed to it.
//!
//! Scalars are carried as opaque 64-bit patterns (`u64`). The engine decides
//! everything about the graph — which nodes exist, which operands feed which
//! node, the order in which gradient rules run, and where each arithmetic
//! result is stored — while the numeric work itself is delegated to the
//! caller through explicit [`engine::ArithOp`] requests. A driver evaluates
//! each request over its chosen scalar interpretation (ordinarily IEEE-754
//! double precision, reading each `u64` as a bit pattern) and hands the
//! result back.

pub mod engine;
pub mod order;
pub mod backward;

pub use engine::{ArithOp, Graph, Node, Op, Value};
pub use backward::Backward;

