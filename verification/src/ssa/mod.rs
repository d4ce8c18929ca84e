//! Code in static single assignment form, and the builder that writes it.

pub mod builder;
pub mod control;
pub mod hlssa;
pub mod semantics;
