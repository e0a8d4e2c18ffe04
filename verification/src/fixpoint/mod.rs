//! The Horn-clause constraint language handed to the solver: its syntax
//! tree, its textual form, and the pass that finds the signature of every
//! unknown predicate.

pub mod constraint;
pub mod emit;
pub mod gather;
pub mod model;
pub mod query;
