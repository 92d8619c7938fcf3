//! Where the links of a repository are kept.
//!
//! ```text
//! <repo>/.prv/
//!   links/<xx>/<sha>.json   one record per commit
//!   index.json              the index from SHA to session id
//! ```
//!
//! Paths are texts with `/` between their parts.

use crate::text::to_chars;
use vstd::prelude::*;
use vstd::string::StringExecFns;

verus! {

/// The directory, below the repository, that holds everything kept here.
pub const STATE_DIR: &'static str = ".prv";

/// The directory, below the state directory, that holds the records.
pub const LINKS_DIR: &'static str = "links";

/// The file, below the state directory, that holds the index.
pub const INDEX_FILE: &'static str = "index.json";

/// What follows the SHA in the name of a record file.
pub const RECORD_SUFFIX: &'static str = ".json";

/// The path of `name` below `base`: the two with one `/` between them, and
/// `name` alone where `base` is empty.
pub open spec fn joined(base: Seq<char>, name: Seq<char>) -> Seq<char> {
    if base.len() == 0 {
        name
    } else if base.last() == '/' {
        base + name
    } else {
        base + seq!['/'] + name
    }
}

/// The directory in which the records of a repository are kept.
pub open spec fn links_root(repo_root: Seq<char>) -> Seq<char> {
    joined(joined(repo_root, STATE_DIR@), LINKS_DIR@)
}

/// The file in which the index of a repository is kept.
pub open spec fn index_file(repo_root: Seq<char>) -> Seq<char> {
    joined(joined(repo_root, STATE_DIR@), INDEX_FILE@)
}

/// The name of the directory that holds the record of a commit: the first two
/// characters of its SHA, or the whole SHA where it is shorter.
pub open spec fn shard(commit_sha: Seq<char>) -> Seq<char> {
    if commit_sha.len() < 2 {
        commit_sha
    } else {
        commit_sha.take(2)
    }
}

/// The file, below `base`, that holds the record of a commit.
pub open spec fn record_file(base: Seq<char>, commit_sha: Seq<char>) -> Seq<char> {
    joined(joined(base, shard(commit_sha)), commit_sha + RECORD_SUFFIX@)
}

/// The path of `name` below `base`.
pub fn join_path(base: &str, name: &str) -> (path: String)
    ensures
        path@ == joined(base@, name@),
{
    let chars = to_chars(base);
    let mut path = base.to_owned();
    if chars.len() == 0 {
        assert(path@ + name@ =~= name@);
    } else if chars[chars.len() - 1] != '/' {
        path.push('/');
        assert(path@ =~= base@ + seq!['/']);
    }
    path.append(name);
    path
}

/// The file in which the index of the repository at `repo_root` is kept.
pub fn index_path(repo_root: &str) -> (path: String)
    ensures
        path@ == index_file(repo_root@),
{
    let state = join_path(repo_root, STATE_DIR);
    join_path(state.as_str(), INDEX_FILE)
}

/// The name of the directory that holds the record of a commit.
pub fn shard_of(commit_sha: &str) -> (name: String)
    ensures
        name@ == shard(commit_sha@),
{
    let chars = to_chars(commit_sha);
    let mut name = String::new();
    if chars.len() < 2 {
        assert(name@ + commit_sha@ =~= commit_sha@);
        name.append(commit_sha);
    } else {
        name.push(chars[0]);
        name.push(chars[1]);
        assert(name@ =~= commit_sha@.take(2));
    }
    name
}

} // verus!
