//! The state of a git checkout, from what git answered.
use vstd::prelude::*;

use crate::snapshot::GitInfo;
use crate::text::{chars_of, line_list, lines};

verus! {

/// A line of `git submodule status` that marks a submodule as not checked
/// out (`-`), at another commit (`+`) or in conflict (`U`).
pub open spec fn marks_dirty(line: Seq<char>) -> bool {
    line.len() > 0 && (line[0] == '-' || line[0] == '+' || line[0] == 'U')
}

/// Some submodule in the `git submodule status --recursive` output is not clean.
pub open spec fn any_dirty(status: Seq<char>) -> bool {
    exists|i: int| 0 <= i < lines(status).len() && marks_dirty(#[trigger] lines(status)[i])
}

pub fn submodules_dirty(status: &str) -> (r: bool)
    ensures
        r == any_dirty(status@),
{
    let ls = line_list(&chars_of(status));
    let ghost lv = ls@.map_values(|p: Vec<char>| p@);
    let mut i: usize = 0;
    while i < ls.len()
        invariant
            i <= ls.len(),
            lv == ls@.map_values(|p: Vec<char>| p@),
            lv == lines(status@),
            forall|k: int| 0 <= k < i ==> !marks_dirty(#[trigger] lv[k]),
        decreases ls.len() - i,
    {
        assert(lv[i as int] == ls@[i as int]@);
        let l = &ls[i];
        if l.len() > 0 && (l[0] == '-' || l[0] == '+' || l[0] == 'U') {
            assert(marks_dirty(lv[i as int]));
            return true;
        }
        i += 1;
    }
    false
}

/// What is recorded of a checkout, from git's answers: nothing outside a
/// checkout (no top-level directory); else the answers, with the checkout
/// detached where it has no branch.
pub open spec fn recorded_git(
    root: Option<String>,
    commit: Option<String>,
    branch: Option<String>,
    dirty: Option<bool>,
    submodule_status: Option<String>,
) -> GitInfo {
    match root {
        None => GitInfo {
            root: None,
            commit: None,
            branch: None,
            dirty: None,
            detached: None,
            submodules_dirty: None,
        },
        Some(_) => GitInfo {
            root,
            commit,
            branch,
            dirty,
            detached: Some(branch is None),
            submodules_dirty: match submodule_status {
                Some(st) => Some(any_dirty(st@)),
                None => None,
            },
        },
    }
}

/// The record of a checkout from the top-level directory, the short commit,
/// the branch, whether the work tree has changes, and the text of
/// `git submodule status --recursive`, as far as git answered each.
pub fn git_info(
    root: Option<String>,
    commit: Option<String>,
    branch: Option<String>,
    dirty: Option<bool>,
    submodule_status: Option<String>,
) -> (r: GitInfo)
    ensures
        r == recorded_git(root, commit, branch, dirty, submodule_status),
{
    if root.is_none() {
        return GitInfo {
            root: None,
            commit: None,
            branch: None,
            dirty: None,
            detached: None,
            submodules_dirty: None,
        };
    }
    let detached = Some(branch.is_none());
    let submodules = match &submodule_status {
        Some(st) => Some(submodules_dirty(st.as_str())),
        None => None,
    };
    GitInfo { root, commit, branch, dirty, detached, submodules_dirty: submodules }
}

} // verus!
