//! Conversion of textual tool-call expressions into a strongly typed
//! value model.
//!
//! The grammar collaborator that tokenizes and parses the input, and the
//! codec that serializes the outcome, are injected capabilities: the
//! library receives their outcomes as plain values (see `syntax`) and is
//! verified over every outcome they can hand back. The conversion itself
//! — value building, call collection, and the mapping of outcomes to a
//! final result — is verified here.

pub mod builder;
pub mod collector;
pub mod errors;
pub mod model;
pub mod numeric;
pub mod outcome;
pub mod syntax;
