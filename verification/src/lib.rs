//! Evidence-backed refactor operations for Weavatrix.
//!
//! This crate is to the evidence graph what a writer is to a reader: it consumes the read-only
//! graph of a [`graph::Repository`] and produces `weavatrix.edit-plan.v1` envelopes. It owns no
//! protocol and performs no I/O: a host reads the files, calls a
//! [`operations::RefactorSession`], performs the [`operations::apply::Step`] that comes back in the
//! working tree, and hands back what became of it.
//!
//! # The contract
//!
//! The tool names, their schemas and every result state stand in [`contract`]. Every operation
//! answers with a status from there, never a new one, never a renamed one, and no planner claims
//! more than `PARTIAL`: [`operations::law_every_answer_conforms`].
//!
//! # Safety boundary
//!
//! Producing a plan is a read. Applying one requires all three gates: the host exposes the edit
//! capability, it opens the session for writing, and the call presents a single-use token bound
//! to that exact plan and repository. Nothing is written without them:
//! [`operations::law_nothing_writes_without_the_gates`].

use vstd::prelude::*;

pub mod contract;
pub mod coordinates;
pub mod declaration;
pub mod envelope;
pub mod evidence;
pub mod fit;
pub mod graph;
pub mod json;
pub mod operations;
pub mod order;
pub mod parse;
pub mod pattern;
pub mod plan;
pub mod promises;
pub mod resolve;
pub mod specifier;
pub mod text;
pub mod token;
pub mod words;

pub use contract::{ResultState, ToolContract, CONTRACT_VERSION};
pub use operations::{call, catalog, catalog_names, Operation};

verus! {

/// Version of this crate, reported by the host beside the engine version.
pub const VERSION: &'static str = "0.1.0";

} // verus!
