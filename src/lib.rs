//! Evaluation of procedural noise graphs.
//!
//! A graph wires nodes together: each node has a template that declares its
//! input slots and how its one output is computed from them. Evaluating a
//! node resolves its inputs depth-first, in declared order, memoising every
//! output in a cache scoped to one pass, and yields a value: a number, an
//! operator, a choice of base noise, or a shared handle on a composed noise
//! function. Numbers and noise functions are kept as the computations that
//! produce them, so that evaluation is exact and independent of floating
//! point; running them is left to the caller.

pub mod evaluate;
pub mod graph;
pub mod template;
pub mod value;
