//! A virtual workspace over a commit graph: several stacks of commits are
//! applied at once and presented as one workspace commit whose tree is the
//! merge of all of them.
//!
//! - `commit` makes the workspace commit and tells it from other commits.
//! - `commit::merge` merges the stacks: `model` is the state machine,
//!   `engine` runs it, `steps` and `laws` hold what is proved of it.
//! - `cli` holds what the command line decides around it.
//! - `id` and `refname` are the identifiers that all of them use, and `pick`
//!   the way in which they pick positions from a range.

pub mod cli;
pub mod commit;
pub mod id;
pub mod pick;
pub mod refname;

pub use crate::commit::WorkspaceCommit;
