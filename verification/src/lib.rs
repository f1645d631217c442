//! A ZX-calculus graph engine: an arena-backed multigraph of typed spider
//! nodes joined by typed edges, with stable generation-checked handles,
//! boundary (input/output) marking, read-only query accessors, and a
//! deterministic spider-fusion rewrite that runs to a fixpoint.

pub mod circuits;
pub mod fusion;
pub mod graph;
pub mod phase;
