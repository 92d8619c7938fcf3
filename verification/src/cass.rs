//! The catalogue of assistant sessions, as far as linking reads it.

pub mod models;
pub mod workspace;

pub use models::{Conversation, Message, Snippet, Workspace};
pub use workspace::find_workspace_for_repo;

use vstd::prelude::*;

verus! {

/// The version of the catalogue models.
pub fn version() -> (v: &'static str)
    ensures
        v@ == "0.1.0"@,
{
    "0.1.0"
}

} // verus!
