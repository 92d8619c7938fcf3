//! The store of link records, one file per commit.
//!
//! The store says where each record is kept; reading and writing the files is
//! left to the caller.

use crate::layout::{join_path, links_root, record_file, shard_of, LINKS_DIR, RECORD_SUFFIX, STATE_DIR};
use vstd::prelude::*;
use vstd::string::StringExecFns;

verus! {

/// The store of the link records of one repository.
pub struct LinkStorage {
    base_path: String,
}

impl LinkStorage {
    /// The directory that holds the records.
    pub closed spec fn base(&self) -> Seq<char> {
        self.base_path@
    }

    /// The store of the repository at `repo_root`.
    pub fn new(repo_root: &str) -> (store: LinkStorage)
        ensures
            store.base() == links_root(repo_root@),
    {
        let state = join_path(repo_root, STATE_DIR);
        LinkStorage { base_path: join_path(state.as_str(), LINKS_DIR) }
    }

    /// The file that holds the record of `commit_sha`: in the directory named
    /// by the first two characters of the SHA, the file named by the SHA.
    pub fn link_path(&self, commit_sha: &str) -> (path: String)
        ensures
            path@ == record_file(self.base(), commit_sha@),
    {
        let shard = shard_of(commit_sha);
        let dir = join_path(self.base_path.as_str(), shard.as_str());
        let mut file = commit_sha.to_owned();
        file.append(RECORD_SUFFIX);
        join_path(dir.as_str(), file.as_str())
    }

    /// The directory that holds the records.
    pub fn base_path(&self) -> (path: &str)
        ensures
            path@ == self.base(),
    {
        self.base_path.as_str()
    }
}

} // verus!
