//! Refinement-type checking core: a hash-consed type and predicate model, a
//! bidirectional engine that walks a control-flow graph, and the Horn-clause
//! constraint language its obligations are compiled into.

pub mod check;
pub mod fixpoint;
pub mod mir;
pub mod ty;
pub mod text;
