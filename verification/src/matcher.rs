//! Matching a commit to the conversation that produced it.
//!
//! The candidates are those of the same workspace, near in time; then up to three
//! steps are tried in turn, and the first that is confident decides:
//! a single candidate, an overlap of file paths, an overlap of code lines.

pub mod gates;
pub mod step0;
pub mod step1;
pub mod step2;

pub use gates::{candidate_sessions, Conversation, ConversationStore, Workspace};
pub use step0::{match_step0, MatchResult};
pub use step1::{match_step1, match_step1_simple, ConversationWithFiles, FileMentions};
pub use step2::{match_step2, CodeBlockLines, ConversationWithCode};
