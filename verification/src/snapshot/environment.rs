//! The captured environment variables, and where shell startup files seem to
//! set them.
use vstd::prelude::*;

use crate::assoc::{insert, lookup, seq_lt, sorted_keys};
use crate::paths::{join, join_path};
use crate::snapshot::{sources_sorted, views, EnvironmentSource};
use crate::text::{chars_of, has_prefix, line_list, lines, slice, starts_with, trim_start, trimmed_start};

verus! {

/// The variables a snapshot records, where they are set.
pub fn captured_names() -> (r: Vec<&'static str>)
    ensures
        r@.map_values(|s: &'static str| s@) == seq![
            "CC"@,
            "CXX"@,
            "CUDA_HOME"@,
            "CUDA_PATH"@,
            "CONDA_DEFAULT_ENV"@,
            "CONDA_PREFIX"@,
            "CUDNN_PATH"@,
            "HF_HOME"@,
            "LD_LIBRARY_PATH"@,
            "PYTHONPATH"@,
            "TORCH_HOME"@,
            "VIRTUAL_ENV"@,
            "WAN_CKPT"@,
        ],
{
    let mut r: Vec<&'static str> = Vec::new();
    r.push("CC");
    r.push("CXX");
    r.push("CUDA_HOME");
    r.push("CUDA_PATH");
    r.push("CONDA_DEFAULT_ENV");
    r.push("CONDA_PREFIX");
    r.push("CUDNN_PATH");
    r.push("HF_HOME");
    r.push("LD_LIBRARY_PATH");
    r.push("PYTHONPATH");
    r.push("TORCH_HOME");
    r.push("VIRTUAL_ENV");
    r.push("WAN_CKPT");
    assert(r@.map_values(|s: &'static str| s@) =~= seq![
        "CC"@,
        "CXX"@,
        "CUDA_HOME"@,
        "CUDA_PATH"@,
        "CONDA_DEFAULT_ENV"@,
        "CONDA_PREFIX"@,
        "CUDNN_PATH"@,
        "HF_HOME"@,
        "LD_LIBRARY_PATH"@,
        "PYTHONPATH"@,
        "TORCH_HOME"@,
        "VIRTUAL_ENV"@,
        "WAN_CKPT"@,
    ]);
    r
}

/// The variables that were set, as a map ordered by name (a later pair for
/// the same name wins).
pub fn collect_variables(pairs: Vec<(String, String)>) -> (r: Vec<(String, String)>)
    ensures
        sorted_keys(r@),
        forall|k: Seq<char>| #[trigger] lookup(r@, k) == lookup(pairs@, k),
{
    let mut r: Vec<(String, String)> = Vec::new();
    let mut i: usize = 0;
    while i < pairs.len()
        invariant
            i <= pairs.len(),
            sorted_keys(r@),
            forall|k: Seq<char>| #[trigger] lookup(r@, k) == lookup(pairs@.take(i as int), k),
        decreases pairs.len() - i,
    {
        let (k, v) = (pairs[i].0.clone(), pairs[i].1.clone());
        insert(&mut r, k, v);
        assert(pairs@.take(i + 1).drop_last() =~= pairs@.take(i as int));
        i += 1;
    }
    assert(pairs@.take(pairs.len() as int) =~= pairs@);
    r
}

/// The shell startup files under the home directory, in the order they are read.
pub fn startup_files(home: &str) -> (r: Vec<String>)
    ensures
        views(r@) == seq![
            join(home@, ".profile"@),
            join(home@, ".bash_profile"@),
            join(home@, ".bashrc"@),
            join(home@, ".zprofile"@),
            join(home@, ".zshrc"@),
            join(home@, ".config/fish/config.fish"@),
        ],
{
    let mut r: Vec<String> = Vec::new();
    r.push(join_path(home, ".profile"));
    r.push(join_path(home, ".bash_profile"));
    r.push(join_path(home, ".bashrc"));
    r.push(join_path(home, ".zprofile"));
    r.push(join_path(home, ".zshrc"));
    r.push(join_path(home, ".config/fish/config.fish"));
    assert(views(r@) =~= seq![
        join(home@, ".profile"@),
        join(home@, ".bash_profile"@),
        join(home@, ".bashrc"@),
        join(home@, ".zprofile"@),
        join(home@, ".zshrc"@),
        join(home@, ".config/fish/config.fish"@),
    ]);
    r
}

/// A shell line that sets `name`: after leading whitespace and an optional
/// `export `, the name, then optional whitespace and `=`.
pub open spec fn assigns(line: Seq<char>, name: Seq<char>) -> bool {
    let t0 = trim_start(line);
    let t = if starts_with(t0, "export "@) {
        t0.skip(7)
    } else {
        t0
    };
    starts_with(t, name) && starts_with(trim_start(t.skip(name.len() as int)), "="@)
}

/// The index of the last of `ls` that sets `name`.
pub open spec fn last_line(ls: Seq<Seq<char>>, name: Seq<char>) -> Option<nat>
    decreases ls.len(),
{
    if ls.len() == 0 {
        None
    } else if assigns(ls.last(), name) {
        Some((ls.len() - 1) as nat)
    } else {
        last_line(ls.drop_last(), name)
    }
}

/// Where `name` is last set among the startup files (path, text): the file
/// and the line number, counted from one.
pub open spec fn source_of(files: Seq<(String, String)>, name: Seq<char>) -> Option<(Seq<char>, nat)>
    decreases files.len(),
{
    if files.len() == 0 {
        None
    } else {
        match last_line(lines(files.last().1@), name) {
            Some(i) => Some((files.last().0@, i + 1)),
            None => source_of(files.drop_last(), name),
        }
    }
}

/// For each variable, in order, where it seems to be set (name, file, line).
pub open spec fn provenance_of(variables: Seq<(String, String)>, files: Seq<(String, String)>) -> Seq<(Seq<char>, Seq<char>, nat)>
    decreases variables.len(),
{
    if variables.len() == 0 {
        seq![]
    } else {
        let prev = provenance_of(variables.drop_last(), files);
        let name = variables.last().0@;
        match source_of(files, name) {
            Some((f, n)) => prev.push((name, f, n)),
            None => prev,
        }
    }
}

/// Each name in the provenance of `variables` is the name of one of them, and
/// where the variables are ordered by name, so is their provenance.
proof fn lemma_provenance_names(variables: Seq<(String, String)>, files: Seq<(String, String)>)
    ensures
        forall|k: int| 0 <= k < provenance_of(variables, files).len() ==> exists|i: int|
            0 <= i < variables.len() && (#[trigger] provenance_of(variables, files)[k]).0 == variables[i].0@,
        sorted_keys(variables) ==> forall|a: int, b: int|
            0 <= a < b < provenance_of(variables, files).len() ==> seq_lt(
                provenance_of(variables, files)[a].0,
                provenance_of(variables, files)[b].0,
            ),
    decreases variables.len(),
{
    if variables.len() > 0 {
        let init = variables.drop_last();
        lemma_provenance_names(init, files);
        let prev = provenance_of(init, files);
        let p = provenance_of(variables, files);
        assert forall|k: int| 0 <= k < p.len() implies exists|i: int|
            0 <= i < variables.len() && (#[trigger] p[k]).0 == variables[i].0@ by {
            if k < prev.len() {
                assert(p[k] == prev[k]);
                let i = choose|i: int| 0 <= i < init.len() && prev[k].0 == init[i].0@;
                assert(init[i] == variables[i]);
            } else {
                assert(p[k].0 == variables.last().0@);
                assert(variables.last() == variables[variables.len() - 1]);
            }
        }
        if sorted_keys(variables) {
            assert(sorted_keys(init)) by {
                assert forall|a: int, b: int| 0 <= a < b < init.len() implies seq_lt(init[a].0@, init[b].0@) by {
                    assert(init[a] == variables[a] && init[b] == variables[b]);
                }
            }
            assert forall|a: int, b: int| 0 <= a < b < p.len() implies seq_lt(p[a].0, p[b].0) by {
                if b < prev.len() {
                    assert(p[a] == prev[a] && p[b] == prev[b]);
                } else {
                    assert(p[a] == prev[a]);
                    let i = choose|i: int| 0 <= i < init.len() && (#[trigger] prev[a]).0 == init[i].0@;
                    assert(init[i] == variables[i]);
                    assert(p[b].0 == variables.last().0@);
                    assert(variables.last() == variables[variables.len() - 1]);
                }
            }
        }
    }
}

pub open spec fn source_views(r: Seq<(String, EnvironmentSource)>) -> Seq<(Seq<char>, Seq<char>, nat)> {
    r.map_values(|e: (String, EnvironmentSource)| (e.0@, e.1.file@, e.1.line as nat))
}

fn sets_name(line: &Vec<char>, name: &Vec<char>) -> (r: bool)
    ensures
        r == assigns(line@, name@),
{
    let export = chars_of("export ");
    let eq = chars_of("=");
    proof {
        reveal_strlit("export ");
        reveal_strlit("=");
    }
    let t0 = trimmed_start(line);
    let t = if has_prefix(&t0, &export) {
        let s = slice(&t0, 7, t0.len());
        assert(s@ =~= t0@.skip(7));
        s
    } else {
        t0
    };
    if !has_prefix(&t, name) {
        return false;
    }
    let rest = slice(&t, name.len(), t.len());
    assert(rest@ =~= t@.skip(name@.len() as int));
    has_prefix(&trimmed_start(&rest), &eq)
}

fn last_line_of(ls: &Vec<Vec<char>>, name: &Vec<char>) -> (r: Option<usize>)
    ensures
        match r {
            Some(i) => last_line(ls@.map_values(|p: Vec<char>| p@), name@) == Some(i as nat) && i < ls@.len(),
            None => last_line(ls@.map_values(|p: Vec<char>| p@), name@) is None,
        },
{
    let ghost lv = ls@.map_values(|p: Vec<char>| p@);
    let mut j: usize = ls.len();
    assert(lv.take(j as int) =~= lv);
    while j > 0
        invariant
            j <= ls.len(),
            lv == ls@.map_values(|p: Vec<char>| p@),
            last_line(lv, name@) == last_line(lv.take(j as int), name@),
        decreases j,
    {
        let ghost t = lv.take(j as int);
        assert(t.last() == ls@[j - 1]@);
        assert(t.drop_last() =~= lv.take(j - 1));
        if sets_name(&ls[j - 1], name) {
            return Some(j - 1);
        }
        j -= 1;
    }
    None
}

fn source_in(files: &Vec<(String, String)>, name: &Vec<char>) -> (r: Option<(String, usize)>)
    ensures
        match r {
            Some((f, n)) => source_of(files@, name@) == Some((f@, n as nat)),
            None => source_of(files@, name@) is None,
        },
{
    let mut j: usize = files.len();
    assert(files@.take(j as int) =~= files@);
    while j > 0
        invariant
            j <= files.len(),
            source_of(files@, name@) == source_of(files@.take(j as int), name@),
        decreases j,
    {
        let ghost t = files@.take(j as int);
        assert(t.last() == files@[j - 1]);
        assert(t.drop_last() =~= files@.take(j - 1));
        let ls = line_list(&chars_of(files[j - 1].1.as_str()));
        match last_line_of(&ls, name) {
            Some(i) => {
                let n = ls.len();
                assert(i < n);
                return Some((files[j - 1].0.clone(), i + 1));
            },
            None => {},
        }
        j -= 1;
    }
    None
}

/// Where each captured variable seems to be set: for each variable, in the
/// order of `variables`, the startup file (path, text; in reading order) and
/// line of the last line that sets it, where one does.
pub fn provenance(variables: &Vec<(String, String)>, files: &Vec<(String, String)>) -> (r: Vec<(String, EnvironmentSource)>)
    ensures
        source_views(r@) == provenance_of(variables@, files@),
        forall|k: int| 0 <= k < r@.len() ==> (#[trigger] r@[k]).1.confidence@ == "heuristic"@,
        sorted_keys(variables@) ==> sources_sorted(r@),
{
    let mut r: Vec<(String, EnvironmentSource)> = Vec::new();
    let mut i: usize = 0;
    while i < variables.len()
        invariant
            i <= variables.len(),
            source_views(r@) == provenance_of(variables@.take(i as int), files@),
            forall|k: int| 0 <= k < r@.len() ==> (#[trigger] r@[k]).1.confidence@ == "heuristic"@,
        decreases variables.len() - i,
    {
        let name = chars_of(variables[i].0.as_str());
        let ghost before = source_views(r@);
        assert(variables@.take(i + 1).drop_last() =~= variables@.take(i as int));
        assert(variables@.take(i + 1).last() == variables@[i as int]);
        match source_in(files, &name) {
            Some((f, n)) => {
                let e = (variables[i].0.clone(), EnvironmentSource { file: f, line: n, confidence: String::from_str("heuristic") });
                r.push(e);
                assert(source_views(r@) =~= before.push((e.0@, e.1.file@, e.1.line as nat)));
            },
            None => {},
        }
        i += 1;
    }
    assert(variables@.take(variables.len() as int) =~= variables@);
    proof {
        lemma_provenance_names(variables@, files@);
        let p = provenance_of(variables@, files@);
        assert forall|a: int, b: int| 0 <= a < b < r@.len() && sorted_keys(variables@) implies seq_lt(
            r@[a].0@,
            r@[b].0@,
        ) by {
            assert(source_views(r@)[a] == p[a] && source_views(r@)[b] == p[b]);
        }
    }
    r
}

} // verus!
