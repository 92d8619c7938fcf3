//! Which workspace of the catalogue a repository belongs to.

use crate::cass::models::Workspace;
use vstd::prelude::*;

verus! {

/// `s` in lower case, as `str::to_lowercase` gives it.
pub uninterp spec fn lowercased(s: Seq<char>) -> Seq<char>;

/// `str::to_lowercase`: the text with each character in lower case, by the
/// rules of Unicode, which the library only refers to by name.
pub assume_specification[ str::to_lowercase ](s: &str) -> (r: String)
    ensures
        r@ == lowercased(s@),
;

/// Whether two canonical paths name the same directory: they are equal, or,
/// where the file system ignores case, equal in lower case.
pub open spec fn same_path(a: Seq<char>, b: Seq<char>, ignore_case: bool) -> bool {
    if ignore_case {
        lowercased(a) == lowercased(b)
    } else {
        a == b
    }
}

/// A workspace together with the canonical form of its path, where the path
/// could be made canonical.
#[derive(Debug, Clone)]
pub struct LocatedWorkspace {
    pub workspace: Workspace,
    pub canonical_path: Option<String>,
}

impl LocatedWorkspace {
    /// Whether the workspace is that of the repository with canonical path
    /// `repo`. A workspace whose path could not be made canonical is no one's.
    pub open spec fn is_workspace_of(self, repo: Seq<char>, ignore_case: bool) -> bool {
        match self.canonical_path {
            Some(path) => same_path(path@, repo, ignore_case),
            None => false,
        }
    }
}

/// Index of the first workspace at or after `i` that is the repository's.
pub open spec fn first_match(
    workspaces: Seq<LocatedWorkspace>,
    repo: Seq<char>,
    ignore_case: bool,
    i: int,
) -> Option<int>
    decreases workspaces.len() - i,
{
    if i < 0 || i >= workspaces.len() {
        None
    } else if workspaces[i].is_workspace_of(repo, ignore_case) {
        Some(i)
    } else {
        first_match(workspaces, repo, ignore_case, i + 1)
    }
}

fn paths_match(a: &String, b: &String, ignore_case: bool) -> (same: bool)
    ensures
        same == same_path(a@, b@, ignore_case),
{
    if ignore_case {
        a.as_str().to_lowercase() == b.as_str().to_lowercase()
    } else {
        *a == *b
    }
}

/// The workspace of the repository whose canonical path is `repo_path`: the
/// first of `workspaces` whose canonical path is the same. `ignore_case` says
/// whether the file system ignores case.
pub fn find_workspace_for_repo(
    workspaces: &Vec<LocatedWorkspace>,
    repo_path: &str,
    ignore_case: bool,
) -> (found: Option<Workspace>)
    ensures
        match first_match(workspaces@, repo_path@, ignore_case, 0) {
            Some(i) => found matches Some(w) && w.id == workspaces@[i].workspace.id && w.path@
                == workspaces@[i].workspace.path@,
            None => found is None,
        },
{
    let repo = repo_path.to_owned();
    let mut i: usize = 0;
    while i < workspaces.len()
        invariant
            i <= workspaces@.len(),
            repo@ == repo_path@,
            first_match(workspaces@, repo_path@, ignore_case, 0) == first_match(
                workspaces@,
                repo_path@,
                ignore_case,
                i as int,
            ),
        decreases workspaces.len() - i,
    {
        let hit = match &workspaces[i].canonical_path {
            Some(path) => paths_match(path, &repo, ignore_case),
            None => false,
        };
        if hit {
            return Some(
                Workspace {
                    id: workspaces[i].workspace.id,
                    path: workspaces[i].workspace.path.clone(),
                },
            );
        }
        i += 1;
    }
    None
}

} // verus!
