//! Linking git commits to the assistant conversations that produced them.

pub mod cass;
pub mod code_block;
pub mod confidence;
pub mod evidence;
pub mod file_paths;
pub mod layout;
pub mod link;
pub mod link_index;
pub mod link_storage;
pub mod matcher;
pub mod pipeline;
pub mod search;
pub mod text;

pub use code_block::{extract_code_blocks, CodeBlock};
pub use link::Link;
pub use link_index::LinkIndex;
pub use link_storage::LinkStorage;
pub use matcher::{candidate_sessions, Conversation, ConversationStore, Workspace};

use vstd::prelude::*;

verus! {

/// The version of this library.
pub fn version() -> (v: &'static str)
    ensures
        v@ == "0.1.0"@,
{
    "0.1.0"
}

} // verus!
