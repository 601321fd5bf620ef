//! A compiler middle end for a small synchronous dataflow language.
//!
//! A source program is a list of nodes, each defining output and local
//! streams by an unordered set of equations.  The pipeline turns the
//! raw syntax tree into imperative target code in three stages, each a
//! pure function of its input whose result the `spec_*` functions of
//! its module state exactly:
//!
//! - [`normalizer::normalize`] lifts nested calls and delays into fresh
//!   intermediate equations, so that they stand only at equation top
//!   level;
//! - [`sequentializer::sequentialize`] reorders each node's equations
//!   into an order compatible with the instantaneous data dependencies,
//!   rejecting duplicate definitions and instantaneous cycles;
//! - [`rustfmt::format`] synthesizes a memory per stateful node, lowers
//!   each delay to a memory read with a deferred write, and emits the
//!   target program's text.

pub mod ast;
pub mod error;
pub mod nast;
pub mod normalizer;
pub mod rustfmt;
pub mod sequentializer;
pub mod text;
pub mod typer;
