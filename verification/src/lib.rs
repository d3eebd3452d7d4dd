//! Strength reduction through equality saturation.
//!
//! The crate rewrites multiplications by constant integers into equivalent
//! chains of shifts, additions and subtractions. It explores the candidate
//! decompositions inside an equivalence graph — kept by the `egg` crate
//! behind a small trusted boundary — and extracts the cheapest
//! representative of every term under an explicit cost model.
//!
//! - [`expr`] — the expression domain: concrete expressions, their views,
//!   their meaning, and the cost model.
//! - [`rules`] — the four rewrite identities: exact firing conditions and
//!   proofs that each preserves the denoted value.
//! - [`egraph`] — the trusted boundary around the equivalence graph.
//! - [`sat`] — the verified node table over the graph and the rule
//!   appliers.
//! - [`extract`] — minimum-cost extraction, sound and complete over the
//!   recorded nodes.
//! - [`driver`] — input construction, the saturation loop with its stop
//!   policy, and the whole run.
pub mod driver;
pub mod egraph;
pub mod expr;
pub mod extract;
pub mod rules;
pub mod sat;
