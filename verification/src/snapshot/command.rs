//! What is made of a tool's answer, and which executables a PATH offers.
use vstd::prelude::*;

use crate::paths::{join, join_path, path_eq, path_key};
use crate::snapshot::{opt_view, views};
use crate::text::{chars_of, string_of, trim, trimmed};

verus! {

/// The text of a command's standard output: trimmed, and nothing when that is empty.
pub open spec fn output_text(stdout: Seq<char>) -> Option<Seq<char>> {
    let t = trim(stdout);
    if t.len() == 0 {
        None
    } else {
        Some(t)
    }
}

/// The text that a successful command printed, as `output` keeps it.
pub fn command_text(stdout: &str) -> (r: Option<String>)
    ensures
        opt_view(r) == output_text(stdout@),
{
    let t = trimmed(&chars_of(stdout));
    if t.len() == 0 {
        None
    } else {
        Some(string_of(&t))
    }
}

/// Where `name` could be found: each PATH directory joined with it, in order.
pub open spec fn candidates(dirs: Seq<String>, name: Seq<char>) -> Seq<Seq<char>> {
    dirs.map_values(|d: String| join(d@, name))
}

/// Some path in `v` equals `p`, component by component.
pub open spec fn names_path(v: Seq<Seq<char>>, p: Seq<char>) -> bool {
    exists|k: int| 0 <= k < v.len() && path_key(#[trigger] v[k]) == path_key(p)
}

/// Of the first `n` candidates, those that are files, each path kept at its
/// first appearance.
pub open spec fn kept_files(cands: Seq<Seq<char>>, is_file: Seq<bool>, n: nat) -> Seq<Seq<char>>
    decreases n,
{
    if n == 0 {
        seq![]
    } else {
        let prev = kept_files(cands, is_file, (n - 1) as nat);
        let c = cands[n - 1];
        if is_file[n - 1] && !names_path(prev, c) {
            prev.push(c)
        } else {
            prev
        }
    }
}

/// The paths at which `name` could be found in the PATH directories `dirs`.
pub fn executable_candidates(dirs: &Vec<String>, name: &str) -> (r: Vec<String>)
    ensures
        views(r@) == candidates(dirs@, name@),
{
    let mut r: Vec<String> = Vec::new();
    let mut i: usize = 0;
    while i < dirs.len()
        invariant
            i <= dirs.len(),
            views(r@) == candidates(dirs@, name@).take(i as int),
        decreases dirs.len() - i,
    {
        let ghost before = views(r@);
        let c = join_path(dirs[i].as_str(), name);
        r.push(c);
        assert(views(r@) =~= before.push(c@));
        assert(candidates(dirs@, name@).take(i + 1) =~= candidates(dirs@, name@).take(i as int).push(
            join(dirs@[i as int]@, name@),
        ));
        i += 1;
    }
    assert(candidates(dirs@, name@).take(dirs.len() as int) =~= candidates(dirs@, name@));
    r
}

fn names_path_in(v: &Vec<String>, p: &str) -> (r: bool)
    ensures
        r == names_path(views(v@), p@),
{
    let mut k: usize = 0;
    while k < v.len()
        invariant
            k <= v.len(),
            forall|j: int| 0 <= j < k ==> path_key(#[trigger] views(v@)[j]) != path_key(p@),
        decreases v.len() - k,
    {
        if path_eq(v[k].as_str(), p) {
            assert(views(v@)[k as int] == v@[k as int]@);
            return true;
        }
        assert(views(v@)[k as int] == v@[k as int]@);
        k += 1;
    }
    false
}

/// Each executable named `name` along the PATH directories `dirs`: the
/// candidates that are files (`is_file`, one flag per candidate, in order),
/// each path once, in PATH order.
pub fn find_executables(dirs: &Vec<String>, name: &str, is_file: &Vec<bool>) -> (r: Vec<String>)
    requires
        is_file@.len() == dirs@.len(),
    ensures
        views(r@) == kept_files(candidates(dirs@, name@), is_file@, dirs@.len() as nat),
{
    let cands = executable_candidates(dirs, name);
    let ghost cs = candidates(dirs@, name@);
    assert(views(cands@).len() == cands@.len() && cs.len() == dirs@.len());
    let mut r: Vec<String> = Vec::new();
    let mut i: usize = 0;
    while i < cands.len()
        invariant
            i <= cands.len(),
            cands@.len() == dirs@.len(),
            is_file@.len() == dirs@.len(),
            views(cands@) == cs,
            cs == candidates(dirs@, name@),
            views(r@) == kept_files(cs, is_file@, i as nat),
        decreases cands.len() - i,
    {
        let ghost before = views(r@);
        assert(views(cands@)[i as int] == cands@[i as int]@);
        if is_file[i] && !names_path_in(&r, cands[i].as_str()) {
            let c = cands[i].clone();
            r.push(c);
            assert(views(r@) =~= before.push(c@));
        }
        i += 1;
    }
    r
}

/// The first executable named `name` along the PATH directories `dirs`, given
/// which candidates are files.
pub fn find_executable(dirs: &Vec<String>, name: &str, is_file: &Vec<bool>) -> (r: Option<String>)
    requires
        is_file@.len() == dirs@.len(),
    ensures
        ({
            let found = kept_files(candidates(dirs@, name@), is_file@, dirs@.len() as nat);
            opt_view(r) == if found.len() > 0 {
                Some(found[0])
            } else {
                None::<Seq<char>>
            }
        }),
{
    let all = find_executables(dirs, name, is_file);
    if all.len() > 0 {
        assert(views(all@)[0] == all@[0]@);
        Some(all[0].clone())
    } else {
        None
    }
}

/// The executables found name each path once.
pub proof fn lemma_executables_distinct(cands: Seq<Seq<char>>, is_file: Seq<bool>, n: nat)
    requires
        n <= cands.len(),
        n <= is_file.len(),
    ensures
        forall|a: int, b: int|
            0 <= a < b < kept_files(cands, is_file, n).len() ==> path_key(kept_files(cands, is_file, n)[a])
                != path_key(kept_files(cands, is_file, n)[b]),
    decreases n,
{
    if n > 0 {
        lemma_executables_distinct(cands, is_file, (n - 1) as nat);
        let prev = kept_files(cands, is_file, (n - 1) as nat);
        let r = kept_files(cands, is_file, n);
        assert forall|a: int, b: int| 0 <= a < b < r.len() implies path_key(r[a]) != path_key(r[b]) by {
            if b == prev.len() {
                assert(r[a] == prev[a]);
                if path_key(r[a]) == path_key(r[b]) {
                    assert(names_path(prev, cands[n - 1]));
                }
            } else {
                assert(r[a] == prev[a] && r[b] == prev[b]);
            }
        }
    }
}

} // verus!
