//! The bidirectional engine: statements move the typing environment
//! forward, terminators turn it into obligations, and obligations are
//! compiled into constraints.

pub mod bblock;
pub mod env;
pub mod laws;
pub mod scope;
pub mod subtype;
pub mod synth;
