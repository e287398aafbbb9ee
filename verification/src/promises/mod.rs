//! What the operations promise, told of what they are given and what they answer.
//!
//! Each operation's answer is stated elsewhere as a function of the repository and the arguments.
//! The laws here say what that answer is good for, in the words of the graph, the sources and the
//! plan: which places change, into what, and that nothing else does.

pub mod batch;
pub mod bulk;
pub mod call_edits;
pub mod confirmations;
pub mod ends;
pub mod envelopes;
pub mod import_edits;
pub mod imports;
pub mod lists;
pub mod lookups;
pub mod moves;
pub mod plain_calls;
pub mod plans;
pub mod positions;
pub mod refusals;
pub mod rename;
pub mod signature;
pub mod statements;
pub mod symbols;
