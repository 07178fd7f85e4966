//! A verifier for resource ownership and borrowing over explicit operation
//! logs, together with a few small string and vector routines whose contracts
//! spell out what a borrow may and may not change.
//!
//! - `model`: handles, bindings, borrows, operations and verdicts.
//! - `rules`: the discipline as a transition function on states.
//! - `bindings`, `borrows`, `scopes`: the three tables the engine keeps.
//! - `engine`: one-operation steps and the one-pass `verify`.
//! - `safety`: the invariant that every reachable state satisfies.
//! - `guarantees`: what the discipline guarantees of every log.
//! - `patterns`: routines over strings and vectors.

pub mod bindings;
pub mod borrows;
pub mod engine;
pub mod guarantees;
pub mod model;
pub mod patterns;
pub mod rules;
pub mod safety;
pub mod scopes;
