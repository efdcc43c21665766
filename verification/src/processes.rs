//! Which development project a running process belongs to, and what the
//! kernel's socket tables say about the ports it listens on.
pub mod scan;
pub mod watch;

use std::collections::BTreeMap;

use vstd::prelude::*;

use crate::paths::{extension, extension_of, file_name, file_name_of};
use crate::text::{
    chars_of, concat, concat3, has_prefix, line_list, lines, occurs_at,
    parse_unsigned, parse_unsigned_chars, rfind, rfind_sub, same, slice, split, split_by,
    starts_with, string_of, to_lowercase, lowercase, trim, trimmed, word_list, words, CharClass,
};

verus! {

/// One process in a project group. CPU use is kept as the bit pattern of the
/// `f32` percentage that the process table reports, carried unchanged.
#[derive(Clone, Debug)]
pub struct ProcessInfo {
    pub pid: u32,
    pub parent_pid: Option<u32>,
    pub name: String,
    pub cwd: String,
    pub cpu_percent_bits: u32,
    pub memory_bytes: u64,
    pub runtime_seconds: u64,
    pub ports: Vec<u16>,
    pub gpu_memory_bytes: Option<u64>,
    pub attribution_confidence: u8,
    pub attribution_evidence: String,
}

/// The processes of one project. CPU use is the bit pattern of the `f32` sum.
#[derive(Clone, Debug)]
pub struct ProjectProcesses {
    pub project: String,
    pub root: String,
    pub cpu_percent_bits: u32,
    pub memory_bytes: u64,
    pub gpu_memory_bytes: u64,
    pub ports: Vec<u16>,
    pub processes: Vec<ProcessInfo>,
    pub attribution_confidence: u8,
    pub attribution_evidence: Vec<String>,
}

/// Which processes a report includes.
pub struct ProcessFilter {
    pub project: Option<String>,
    pub ports_only: bool,
    pub gpu_only: bool,
    pub include_unclassified: bool,
}

/// The project root that `cur` inherits: the first process on the way up its
/// parent chain that has a project root of its own, stopping where the chain
/// ends or comes back to a process already seen.
pub open spec fn inherit_walk(
    cur: Option<u32>,
    roots: Map<u32, Option<String>>,
    parents: Map<u32, Option<u32>>,
    visited: Set<u32>,
) -> Option<String>
    decreases 2 * parents.dom().difference(visited).len() + (if cur is Some {
        1int
    } else {
        0int
    }),
    when parents.dom().finite() && visited.finite()
{
    match cur {
        None => None,
        Some(pid) => if visited.contains(pid) {
            None
        } else if roots.contains_key(pid) && roots[pid] is Some {
            roots[pid]
        } else {
            let next = if parents.contains_key(pid) {
                parents[pid]
            } else {
                None
            };
            proof {
                lemma_walk_measure(parents.dom(), visited, pid);
            }
            inherit_walk(next, roots, parents, visited.insert(pid))
        },
    }
}

pub proof fn lemma_walk_measure(dom: Set<u32>, visited: Set<u32>, pid: u32)
    requires
        dom.finite(),
        visited.finite(),
        !visited.contains(pid),
    ensures
        dom.difference(visited.insert(pid)).len() + (if dom.contains(pid) {
            1int
        } else {
            0int
        }) == dom.difference(visited).len(),
        visited.insert(pid).finite(),
{
    assert(dom.difference(visited.insert(pid)) =~= dom.difference(visited).remove(pid));
    vstd::set::axiom_set_difference_finite(dom, visited);
    vstd::set::axiom_set_remove_len(dom.difference(visited), pid);
}

/// The project root that a process inherits from its nearest ancestor that has one.
pub fn inherited_project_root(
    pid: u32,
    direct_roots: &BTreeMap<u32, Option<String>>,
    parents: &BTreeMap<u32, Option<u32>>,
) -> (r: Option<String>)
    ensures
        r == inherit_walk(Some(pid), direct_roots@, parents@, Set::empty()),
{
    broadcast use vstd::std_specs::btree::group_btree_axioms;

    let mut current: Option<u32> = Some(pid);
    let mut visited: Vec<u32> = Vec::new();
    let ghost seen: Set<u32> = Set::empty();
    proof {
        vstd::std_specs::btree::axiom_btree_map_view_finite_dom(*parents);
    }
    loop
        invariant
            parents@.dom().finite(),
            seen.finite(),
            forall|x: u32| seen.contains(x) <==> visited@.contains(x),
            inherit_walk(current, direct_roots@, parents@, seen) == inherit_walk(
                Some(pid),
                direct_roots@,
                parents@,
                Set::empty(),
            ),
        decreases 2 * parents@.dom().difference(seen).len() + (if current is Some {
            1int
        } else {
            0int
        }),
    {
        match current {
            None => {
                return None;
            },
            Some(p) => {
                let mut k: usize = 0;
                let mut found = false;
                while k < visited.len()
                    invariant
                        k <= visited.len(),
                        found == exists|j: int| 0 <= j < k && visited@[j] == p,
                    decreases visited.len() - k,
                {
                    if visited[k] == p {
                        found = true;
                    }
                    k += 1;
                }
                if found {
                    return None;
                }
                assert(!seen.contains(p));
                match direct_roots.get(&p) {
                    Some(Some(root)) => {
                        return Some(root.clone());
                    },
                    _ => {},
                }
                let next = match parents.get(&p) {
                    Some(n) => *n,
                    None => None,
                };
                proof {
                    lemma_walk_measure(parents@.dom(), seen, p);
                    seen = seen.insert(p);
                }
                let ghost before = visited@;
                visited.push(p);
                assert forall|x: u32| seen.contains(x) <==> visited@.contains(x) by {
                    if x == p {
                        assert(visited@[before.len() as int] == p);
                    } else if before.contains(x) {
                        let j = choose|j: int| 0 <= j < before.len() && before[j] == x;
                        assert(visited@[j] == x);
                    } else if visited@.contains(x) {
                        let j = choose|j: int| 0 <= j < visited@.len() && visited@[j] == x;
                        assert(j < before.len());
                        assert(before[j] == x);
                    }
                }
                current = next;
            },
        }
    }
}


/// The text after the last `:` of `s`, or all of `s`.
pub open spec fn after_last_colon(s: Seq<char>) -> Seq<char> {
    match rfind_sub(s, seq![':']) {
        Some(i) => s.skip(i + 1),
        None => s,
    }
}

/// A row of `/proc/net/{tcp,udp}{,6}`: the socket's inode and local port, for a
/// row in the wanted state (any state where none is given) with a port other than 0.
pub open spec fn spec_socket_line(line: Seq<char>, listen_state: Option<Seq<char>>) -> Option<(u64, u16)> {
    let f = words(line);
    if f.len() < 10 || (listen_state matches Some(st) && f[3] != st) {
        None
    } else {
        match parse_unsigned(after_last_colon(f[1]), 16, 0xffff) {
            Some(port) => match parse_unsigned(f[9], 10, 0xffff_ffff_ffff_ffff) {
                Some(inode) => if port != 0 {
                    Some((inode as u64, port as u16))
                } else {
                    None
                },
                None => None,
            },
            None => None,
        }
    }
}

pub fn parse_socket_line(line: &str, listen_state: Option<&str>) -> (r: Option<(u64, u16)>)
    ensures
        r == spec_socket_line(
            line@,
            match listen_state {
                Some(s) => Some(s@),
                None => None,
            },
        ),
{
    let text = chars_of(line);
    let f = word_list(&text);
    let ghost fv = f@.map_values(|p: Vec<char>| p@);
    if f.len() < 10 {
        return None;
    }
    assert(fv[1] == f@[1]@ && fv[3] == f@[3]@ && fv[9] == f@[9]@);
    match listen_state {
        Some(st) => {
            if !same(&f[3], &chars_of(st)) {
                return None;
            }
        },
        None => {},
    }
    let mut colon: Vec<char> = Vec::new();
    colon.push(':');
    assert(colon@ =~= seq![':']);
    let port_hex = match rfind(&f[1], &colon) {
        Some(i) => {
            assert(occurs_at(f@[1]@, colon@, i as int));
            let n = f[1].len();
            assert(i + 1 <= n);
            let t = slice(&f[1], i + 1, n);
            assert(t@ =~= f@[1]@.skip(i + 1));
            t
        },
        None => f[1].clone(),
    };
    let port = match parse_unsigned_chars(&port_hex, 16, 0xffff) {
        Some(p) => p,
        None => {
            return None;
        },
    };
    let inode = match parse_unsigned_chars(&f[9], 10, 0xffff_ffff_ffff_ffff) {
        Some(n) => n,
        None => {
            return None;
        },
    };
    if port != 0 {
        Some((inode, port as u16))
    } else {
        None
    }
}

/// The inode of a `socket:[N]` link target.
pub open spec fn spec_socket_inode(target: Seq<char>) -> Option<u64> {
    let prefix = "socket:["@;
    if starts_with(target, prefix) && target.len() >= prefix.len() + 1 && target.last() == ']' {
        match parse_unsigned(target.subrange(prefix.len() as int, target.len() - 1), 10, 0xffff_ffff_ffff_ffff) {
            Some(n) => Some(n as u64),
            None => None,
        }
    } else {
        None
    }
}

pub fn socket_inode(target: &str) -> (r: Option<u64>)
    ensures
        r == spec_socket_inode(target@),
{
    let t = chars_of(target);
    let prefix = chars_of("socket:[");
    if !has_prefix(&t, &prefix) || t.len() <= prefix.len() || t[t.len() - 1] != ']' {
        return None;
    }
    let inner = slice(&t, prefix.len(), t.len() - 1);
    match parse_unsigned_chars(&inner, 10, 0xffff_ffff_ffff_ffff) {
        Some(n) => Some(n),
        None => None,
    }
}

/// A row of `nvidia-smi --query-compute-apps=pid,used_memory` output: the pid and
/// its GPU memory in bytes (MiB scaled, saturating).
pub open spec fn gpu_row(line: Seq<char>) -> Option<(u32, u64)> {
    let ps = split_by(line, CharClass::Is(','));
    if ps.len() >= 2 {
        match parse_unsigned(trim(ps[0]), 10, 0xffff_ffff) {
            Some(pid) => match parse_unsigned(trim(ps[1]), 10, 0xffff_ffff_ffff_ffff) {
                Some(mib) => Some(
                    (
                        pid as u32,
                        if mib * 1048576 > 0xffff_ffff_ffff_ffffnat {
                            0xffff_ffff_ffff_ffffu64
                        } else {
                            (mib * 1048576) as u64
                        },
                    ),
                ),
                None => None,
            },
            None => None,
        }
    } else {
        None
    }
}

/// GPU memory by pid after the given rows; a later row for the same pid wins.
pub open spec fn gpu_table(ls: Seq<Seq<char>>) -> Map<u32, u64>
    decreases ls.len(),
{
    if ls.len() == 0 {
        Map::empty()
    } else {
        let m = gpu_table(ls.drop_last());
        match gpu_row(ls.last()) {
            Some((pid, bytes)) => m.insert(pid, bytes),
            None => m,
        }
    }
}

fn gpu_row_of(line: &Vec<char>) -> (r: Option<(u32, u64)>)
    ensures
        r == gpu_row(line@),
{
    let ps = split(line, CharClass::Is(','));
    let ghost pv = ps@.map_values(|p: Vec<char>| p@);
    if ps.len() < 2 {
        return None;
    }
    assert(pv[0] == ps@[0]@ && pv[1] == ps@[1]@);
    let pid = match parse_unsigned_chars(&trimmed(&ps[0]), 10, 0xffff_ffff) {
        Some(p) => p,
        None => {
            return None;
        },
    };
    let mib = match parse_unsigned_chars(&trimmed(&ps[1]), 10, 0xffff_ffff_ffff_ffff) {
        Some(m) => m,
        None => {
            return None;
        },
    };
    let bytes: u64 = if mib > 0xffff_ffff_ffff_ffff / 1048576 {
        0xffff_ffff_ffff_ffff
    } else {
        mib * 1048576
    };
    Some((pid as u32, bytes))
}

/// The GPU memory of each compute process listed in `nvidia-smi` output.
pub fn gpu_memory_table(output: &str) -> (r: BTreeMap<u32, u64>)
    ensures
        r@ == gpu_table(lines(output@)),
{
    broadcast use vstd::std_specs::btree::group_btree_axioms;

    let text = chars_of(output);
    let ls = line_list(&text);
    let ghost lv = ls@.map_values(|p: Vec<char>| p@);
    let mut table: BTreeMap<u32, u64> = BTreeMap::new();
    let mut i: usize = 0;
    while i < ls.len()
        invariant
            i <= ls.len(),
            lv == ls@.map_values(|p: Vec<char>| p@),
            table@ == gpu_table(lv.take(i as int)),
        decreases ls.len() - i,
    {
        assert(lv.take(i + 1).drop_last() =~= lv.take(i as int));
        assert(lv.take(i + 1).last() == ls@[i as int]@);
        match gpu_row_of(&ls[i]) {
            Some((pid, bytes)) => {
                table.insert(pid, bytes);
            },
            None => {},
        }
        i += 1;
    }
    assert(lv.take(ls.len() as int) =~= lv);
    table
}

/// How a process is attributed to a project: its own project root (full
/// confidence), else one inherited from a parent process (80).
pub open spec fn spec_attribution(
    pid: u32,
    cwd: Seq<char>,
    roots: Map<u32, Option<String>>,
    parents: Map<u32, Option<u32>>,
) -> Option<(Seq<char>, u8, Seq<char>)> {
    if roots.contains_key(pid) && roots[pid] is Some {
        let root = roots[pid]->Some_0@;
        Some((root, 100u8, "cwd "@ + cwd + " \u{2192} project marker at "@ + root))
    } else {
        match inherit_walk(Some(pid), roots, parents, Set::empty()) {
            Some(root) => Some(
                (root@, 80u8, "parent process \u{2192} project marker at "@ + root@),
            ),
            None => None,
        }
    }
}

pub fn process_attribution(
    pid: u32,
    cwd: &str,
    direct_roots: &BTreeMap<u32, Option<String>>,
    parents: &BTreeMap<u32, Option<u32>>,
) -> (r: Option<(String, u8, String)>)
    ensures
        match r {
            Some(t) => spec_attribution(pid, cwd@, direct_roots@, parents@) == Some(
                (t.0@, t.1, t.2@),
            ),
            None => spec_attribution(pid, cwd@, direct_roots@, parents@) is None,
        },
{
    broadcast use vstd::std_specs::btree::group_btree_axioms;

    match direct_roots.get(&pid) {
        Some(Some(root)) => {
            let head = concat("cwd ", cwd);
            let evidence = concat3(head.as_str(), " \u{2192} project marker at ", root.as_str());
            return Some((root.clone(), 100, evidence));
        },
        _ => {},
    }
    match inherited_project_root(pid, direct_roots, parents) {
        Some(root) => {
            let evidence = concat("parent process \u{2192} project marker at ", root.as_str());
            Some((root, 80, evidence))
        },
        None => None,
    }
}

/// The root that an unattributed process is grouped under: its own directory.
pub fn unclassified_root(cwd: &str) -> (r: String)
    ensures
        r@ == cwd@,
{
    String::from_str(cwd)
}

/// The directories that mark a project root.
pub fn project_markers() -> (r: Vec<&'static str>)
    ensures
        r@.len() == 6,
        r@[0]@ == ".git"@,
        r@[1]@ == "Cargo.toml"@,
        r@[2]@ == "pyproject.toml"@,
        r@[3]@ == "package.json"@,
        r@[4]@ == "go.mod"@,
        r@[5]@ == "pom.xml"@,
{
    let mut r: Vec<&'static str> = Vec::new();
    r.push(".git");
    r.push("Cargo.toml");
    r.push("pyproject.toml");
    r.push("package.json");
    r.push("go.mod");
    r.push("pom.xml");
    r
}

/// The nearest of `ancestors` (innermost first) for which `marked` says that it
/// holds a project marker.
pub open spec fn spec_marked_root(ancestors: Seq<String>, marked: Seq<bool>) -> Option<String>
    decreases ancestors.len(),
{
    if ancestors.len() == 0 || marked.len() == 0 {
        None
    } else if marked[0] {
        Some(ancestors[0])
    } else {
        spec_marked_root(ancestors.drop_first(), marked.drop_first())
    }
}

/// The project root is the nearest marked ancestor: where `marked[i]` holds
/// and no earlier ancestor is marked, the root is `ancestors[i]` (so a
/// directory that itself holds a marker is its own root); where none of the
/// ancestors is marked, there is none.
pub proof fn lemma_nearest_marked(ancestors: Seq<String>, marked: Seq<bool>)
    ensures
        forall|i: int|
            0 <= i < ancestors.len() && i < marked.len() && #[trigger] marked[i] && (forall|j: int|
                0 <= j < i ==> !marked[j]) ==> spec_marked_root(ancestors, marked) == Some(ancestors[i]),
        (forall|i: int| 0 <= i < ancestors.len() && i < marked.len() ==> !marked[i]) ==> spec_marked_root(
            ancestors,
            marked,
        ) is None,
    decreases ancestors.len(),
{
    if ancestors.len() > 0 && marked.len() > 0 && !marked[0] {
        let a = ancestors.drop_first();
        let m = marked.drop_first();
        lemma_nearest_marked(a, m);
        assert forall|i: int|
            0 <= i < ancestors.len() && i < marked.len() && #[trigger] marked[i] && (forall|j: int|
                0 <= j < i ==> !marked[j]) implies spec_marked_root(ancestors, marked) == Some(ancestors[i]) by {
            assert(i > 0);
            assert(m[i - 1] == marked[i] && a[i - 1] == ancestors[i]);
            assert forall|j: int| 0 <= j < i - 1 implies !m[j] by {
                assert(m[j] == marked[j + 1]);
            }
        }
        if forall|i: int| 0 <= i < ancestors.len() && i < marked.len() ==> !marked[i] {
            assert forall|i: int| 0 <= i < a.len() && i < m.len() implies !m[i] by {
                assert(m[i] == marked[i + 1]);
            }
        }
    }
}

pub fn marked_project_root(ancestors: &Vec<String>, marked: &Vec<bool>) -> (r: Option<String>)
    ensures
        r == spec_marked_root(ancestors@, marked@),
{
    let mut i: usize = 0;
    assert(ancestors@.skip(0) =~= ancestors@);
    assert(marked@.skip(0) =~= marked@);
    while i < ancestors.len() && i < marked.len()
        invariant
            i <= ancestors.len(),
            i <= marked.len(),
            spec_marked_root(ancestors@, marked@) == spec_marked_root(
                ancestors@.skip(i as int),
                marked@.skip(i as int),
            ),
        decreases ancestors.len() - i,
    {
        assert(ancestors@.skip(i as int)[0] == ancestors@[i as int]);
        assert(marked@.skip(i as int)[0] == marked@[i as int]);
        if marked[i] {
            return Some(ancestors[i].clone());
        }
        assert(ancestors@.skip(i as int).drop_first() =~= ancestors@.skip(i + 1));
        assert(marked@.skip(i as int).drop_first() =~= marked@.skip(i + 1));
        i += 1;
    }
    assert(ancestors@.skip(i as int).len() == 0 || marked@.skip(i as int).len() == 0);
    None
}

/// The first argument after the program whose extension is one of `exts`.
#[verifier::opaque]
pub open spec fn first_script(cmd: Seq<Seq<char>>, exts: Seq<Seq<char>>) -> Option<Seq<char>> {
    if exists|i: int| 1 <= i < cmd.len() && is_script(cmd[i], exts) {
        Some(cmd[choose|i: int| 1 <= i < cmd.len() && is_script(cmd[i], exts) && forall|j: int| 1 <= j < i ==> !is_script(cmd[j], exts)])
    } else {
        None
    }
}

pub open spec fn is_script(arg: Seq<char>, exts: Seq<Seq<char>>) -> bool {
    extension(arg) matches Some(e) && exts.contains(e)
}

/// The file name of a script argument, or the argument itself where it has none.
pub open spec fn script_name(arg: Seq<char>) -> Seq<char> {
    match file_name(arg) {
        Some(n) => n,
        None => arg,
    }
}

pub open spec fn python_exts() -> Seq<Seq<char>> {
    seq!["py"@]
}

pub open spec fn node_exts() -> Seq<Seq<char>> {
    seq!["js"@, "mjs"@, "cjs"@, "ts"@, "tsx"@]
}

/// A short name for a process: `python -m module`, the script that Python or a
/// JavaScript runtime runs, or the executable's name. No other argument is shown.
pub open spec fn spec_useful_name(exe: Seq<char>, cmd: Seq<Seq<char>>) -> Seq<char> {
    name_for(exe, lowercase(exe), cmd)
}

/// The short name of a process, given the executable's name in lower case
/// beside the name itself.
pub open spec fn name_for(exe: Seq<char>, lower: Seq<char>, cmd: Seq<Seq<char>>) -> Seq<char> {
    let is_python = starts_with(lower, "python"@);
    let module = python_module(cmd);
    if is_python && module is Some {
        "python -m "@ + module->Some_0
    } else if is_python && first_script(cmd, python_exts()) is Some {
        script_name(first_script(cmd, python_exts())->Some_0)
    } else if (lower == "node"@ || lower == "deno"@ || lower == "bun"@) && first_script(cmd, node_exts()) is Some {
        script_name(first_script(cmd, node_exts())->Some_0)
    } else {
        exe
    }
}

fn script_in(cmd: &Vec<Vec<char>>, exts: &Vec<Vec<char>>) -> (r: Option<usize>)
    ensures
        r matches Some(i) ==> 1 <= i < cmd.len() && Some(cmd@[i as int]@) == first_script(
            cmd@.map_values(|a: Vec<char>| a@),
            exts@.map_values(|e: Vec<char>| e@),
        ),
        r is None ==> first_script(
            cmd@.map_values(|a: Vec<char>| a@),
            exts@.map_values(|e: Vec<char>| e@),
        ) is None,
{
    let ghost cv = cmd@.map_values(|a: Vec<char>| a@);
    let ghost ev = exts@.map_values(|e: Vec<char>| e@);
    let mut i: usize = 1;
    while i < cmd.len()
        invariant
            1 <= i,
            cv == cmd@.map_values(|a: Vec<char>| a@),
            ev == exts@.map_values(|e: Vec<char>| e@),
            forall|j: int| 1 <= j < i && j < cmd.len() ==> !is_script(cv[j], ev),
        decreases cmd.len() - i,
    {
        let hit = match extension_of(&cmd[i]) {
            Some(e) => {
                let mut k: usize = 0;
                let mut found = false;
                while k < exts.len()
                    invariant
                        k <= exts.len(),
                        ev == exts@.map_values(|e: Vec<char>| e@),
                        found == exists|m: int| 0 <= m < k && ev[m] == e@,
                    decreases exts.len() - k,
                {
                    assert(ev[k as int] == exts@[k as int]@);
                    if same(&exts[k], &e) {
                        found = true;
                    }
                    k += 1;
                }
                proof {
                    if found {
                        let m = choose|m: int| 0 <= m < k && ev[m] == e@;
                        assert(ev.contains(e@));
                    } else if ev.contains(e@) {
                        let m = choose|m: int| 0 <= m < ev.len() && ev[m] == e@;
                        assert(false);
                    }
                }
                found
            },
            None => false,
        };
        assert(cv[i as int] == cmd@[i as int]@);
        assert(hit == is_script(cv[i as int], ev));
        if hit {
            proof {
                reveal(first_script);
                let c = choose|k: int| 1 <= k < cv.len() && is_script(cv[k], ev) && forall|j: int| 1 <= j < k ==> !is_script(cv[j], ev);
                assert(c == i);
            }
            return Some(i);
        }
        i += 1;
    }
    proof {
        reveal(first_script);
    }
    None
}

fn name_of_script(arg: &Vec<char>) -> (r: String)
    ensures
        r@ == script_name(arg@),
{
    match file_name_of(arg) {
        Some(n) => string_of(&n),
        None => string_of(arg),
    }
}

fn literal_list(items: &Vec<&str>) -> (r: Vec<Vec<char>>)
    ensures
        r@.map_values(|e: Vec<char>| e@) == items@.map_values(|s: &str| s@),
{
    let mut r: Vec<Vec<char>> = Vec::new();
    let mut i: usize = 0;
    while i < items.len()
        invariant
            i <= items.len(),
            r@.map_values(|e: Vec<char>| e@) == items@.map_values(|s: &str| s@).take(i as int),
        decreases items.len() - i,
    {
        let ghost before = r@.map_values(|e: Vec<char>| e@);
        let c = chars_of(items[i]);
        r.push(c);
        assert(r@.map_values(|e: Vec<char>| e@) =~= before.push(items@[i as int]@));
        assert(items@.map_values(|s: &str| s@).take(i + 1) =~= items@.map_values(|s: &str| s@).take(
            i as int,
        ).push(items@[i as int]@));
        i += 1;
    }
    assert(items@.map_values(|s: &str| s@).take(items.len() as int) =~= items@.map_values(|s: &str| s@));
    r
}

fn arg_chars(command: &Vec<String>) -> (cmd: Vec<Vec<char>>)
    ensures
        cmd@.map_values(|a: Vec<char>| a@) == command@.map_values(|a: String| a@),
{
    let ghost cv = command@.map_values(|a: String| a@);
    let mut cmd: Vec<Vec<char>> = Vec::new();
    let mut i: usize = 0;
    while i < command.len()
        invariant
            i <= command.len(),
            cv == command@.map_values(|a: String| a@),
            cmd@.map_values(|a: Vec<char>| a@) == cv.take(i as int),
        decreases command.len() - i,
    {
        let ghost before = cmd@.map_values(|a: Vec<char>| a@);
        let c = chars_of(command[i].as_str());
        cmd.push(c);
        assert(cmd@.map_values(|a: Vec<char>| a@) =~= before.push(command@[i as int]@));
        assert(cv.take(i + 1) =~= cv.take(i as int).push(command@[i as int]@));
        i += 1;
    }
    assert(cv.take(command.len() as int) =~= cv);
    cmd
}

/// An argument that is an option to the interpreter: it starts with `-`.
pub open spec fn is_option(arg: Seq<char>) -> bool {
    arg.len() > 0 && arg[0] == '-'
}

/// An interpreter option whose value is the next argument: `-W`, `-X` and
/// `--check-hash-based-pycs`.
pub open spec fn takes_value(arg: Seq<char>) -> bool {
    arg == "-W"@ || arg == "-X"@ || arg == "--check-hash-based-pycs"@
}

/// The module named by a `-m` among the arguments from index `i` on, looking
/// only as far as the interpreter's own options go.
pub open spec fn module_from(cmd: Seq<Seq<char>>, i: int) -> Option<Seq<char>>
    decreases cmd.len() - i,
{
    if i < 0 || i >= cmd.len() {
        None
    } else if cmd[i] == "-m"@ {
        if i + 1 < cmd.len() {
            Some(cmd[i + 1])
        } else {
            None
        }
    } else if takes_value(cmd[i]) {
        if i + 1 < cmd.len() {
            module_from(cmd, i + 2)
        } else {
            None
        }
    } else if is_option(cmd[i]) {
        module_from(cmd, i + 1)
    } else {
        None
    }
}

/// The module of `python -m module`: the argument after a `-m` that stands
/// among the interpreter's options (the value of an option that takes one
/// passed over), before the first argument that is not an option (a script or
/// a command). An argument given to a script is never taken, whatever it is.
pub open spec fn python_module(cmd: Seq<Seq<char>>) -> Option<Seq<char>> {
    module_from(cmd, 1)
}

fn module_arg(cmd: &Vec<Vec<char>>) -> (r: Option<usize>)
    ensures
        r matches Some(i) ==> i < cmd.len() && python_module(cmd@.map_values(|a: Vec<char>| a@)) == Some(cmd@[i as int]@),
        r is None ==> python_module(cmd@.map_values(|a: Vec<char>| a@)) is None,
{
    let ghost cv = cmd@.map_values(|a: Vec<char>| a@);
    let dash_m = chars_of("-m");
    let dash_w = chars_of("-W");
    let dash_x = chars_of("-X");
    let check_pycs = chars_of("--check-hash-based-pycs");
    let mut k: usize = 1;
    while k < cmd.len()
        invariant
            1 <= k,
            k <= cmd.len() || cmd.len() == 0,
            cv == cmd@.map_values(|a: Vec<char>| a@),
            dash_m@ == "-m"@,
            dash_w@ == "-W"@,
            dash_x@ == "-X"@,
            check_pycs@ == "--check-hash-based-pycs"@,
            python_module(cv) == module_from(cv, k as int),
        decreases cmd.len() - k,
    {
        assert(cv[k as int] == cmd@[k as int]@);
        if same(&cmd[k], &dash_m) {
            if k + 1 < cmd.len() {
                assert(cv[k + 1] == cmd@[k + 1]@);
                return Some(k + 1);
            }
            return None;
        }
        if same(&cmd[k], &dash_w) || same(&cmd[k], &dash_x) || same(&cmd[k], &check_pycs) {
            if cmd.len() - k < 2 {
                return None;
            }
            k += 2;
        } else if cmd[k].len() > 0 && cmd[k][0] == '-' {
            k += 1;
        } else {
            return None;
        }
    }
    None
}

fn python_script(cmd: &Vec<Vec<char>>) -> (r: Option<usize>)
    ensures
        r matches Some(i) ==> i < cmd.len() && first_script(cmd@.map_values(|a: Vec<char>| a@), python_exts()) == Some(cmd@[i as int]@),
        r is None ==> first_script(cmd@.map_values(|a: Vec<char>| a@), python_exts()) is None,
{
    let mut py: Vec<&str> = Vec::new();
    py.push("py");
    assert(py@.map_values(|s: &str| s@) =~= python_exts());
    let exts = literal_list(&py);
    script_in(cmd, &exts)
}

fn node_script(cmd: &Vec<Vec<char>>) -> (r: Option<usize>)
    ensures
        r matches Some(i) ==> i < cmd.len() && first_script(cmd@.map_values(|a: Vec<char>| a@), node_exts()) == Some(cmd@[i as int]@),
        r is None ==> first_script(cmd@.map_values(|a: Vec<char>| a@), node_exts()) is None,
{
    let mut names: Vec<&str> = Vec::new();
    names.push("js");
    names.push("mjs");
    names.push("cjs");
    names.push("ts");
    names.push("tsx");
    assert(names@.map_values(|s: &str| s@) =~= node_exts());
    let exts = literal_list(&names);
    script_in(cmd, &exts)
}

/// A short, argument-free name for a process from its executable and command line.
pub fn useful_name(executable: &str, command: &Vec<String>) -> (r: String)
    ensures
        r@ == spec_useful_name(executable@, command@.map_values(|a: String| a@)),
{
    let lower_text = to_lowercase(executable);
    name_from_lowered(executable, lower_text.as_str(), command)
}

/// The short name of a process, from its executable, the executable's name in
/// lower case, and its command line.
pub fn name_from_lowered(executable: &str, lower_name: &str, command: &Vec<String>) -> (r: String)
    ensures
        r@ == name_for(executable@, lower_name@, command@.map_values(|a: String| a@)),
{
    let lower = chars_of(lower_name);
    let cmd = arg_chars(command);
    let is_python = has_prefix(&lower, &chars_of("python"));
    if is_python {
        match module_arg(&cmd) {
            Some(k) => {
                return concat("python -m ", string_of(&cmd[k]).as_str());
            },
            None => {},
        }
        match python_script(&cmd) {
            Some(j) => {
                return name_of_script(&cmd[j]);
            },
            None => {},
        }
    }
    let js = same(&lower, &chars_of("node")) || same(&lower, &chars_of("deno")) || same(
        &lower,
        &chars_of("bun"),
    );
    if js {
        match node_script(&cmd) {
            Some(j) => {
                return name_of_script(&cmd[j]);
            },
            None => {},
        }
    }
    String::from_str(executable)
}

/// A process with a project root of its own belongs to that root.
pub proof fn lemma_own_root(pid: u32, roots: Map<u32, Option<String>>, parents: Map<u32, Option<u32>>)
    requires
        parents.dom().finite(),
        roots.contains_key(pid),
        roots[pid] is Some,
    ensures
        inherit_walk(Some(pid), roots, parents, Set::empty()) == roots[pid],
{
}

/// A process without a project root of its own, whose parent (another
/// process) has one, belongs to its parent's root.
pub proof fn lemma_parent_root(
    pid: u32,
    parent: u32,
    roots: Map<u32, Option<String>>,
    parents: Map<u32, Option<u32>>,
)
    requires
        parents.dom().finite(),
        !(roots.contains_key(pid) && roots[pid] is Some),
        parents.contains_key(pid),
        parents[pid] == Some(parent),
        parent != pid,
        roots.contains_key(parent),
        roots[parent] is Some,
    ensures
        inherit_walk(Some(pid), roots, parents, Set::empty()) == roots[parent],
{
    let v = Set::<u32>::empty();
    assert(v.finite());
    lemma_walk_measure(parents.dom(), v, pid);
    assert(!v.insert(pid).contains(parent));
    assert(v.insert(pid).finite());
    assert(inherit_walk(Some(parent), roots, parents, v.insert(pid)) == roots[parent]);
    assert(inherit_walk(Some(pid), roots, parents, v) == inherit_walk(Some(parent), roots, parents, v.insert(pid)));
}

} // verus!
