//! From a process table to project groups: which processes are looked at,
//! which project each belongs to, and how the groups are summed and ordered.
use std::collections::BTreeMap;

use vstd::prelude::*;

use crate::assoc::{less, lemma_lt_irreflexive, lemma_lt_total, lemma_lt_transitive, seq_lt};
use crate::group::{all_groups, group_all, lemma_members_nonempty, GroupKey};
use crate::rank::{sort_ranked, stably_sorted, Ranked};
use crate::paths::{
    file_name, file_name_of, keys_lt, lemma_keys_irreflexive, lemma_keys_total, lemma_keys_transitive,
    path_eq, path_key, path_less, path_lt,
};
use crate::processes::{
    parse_socket_line, process_attribution, socket_inode, spec_attribution, spec_socket_inode, spec_socket_line,
    spec_useful_name, useful_name, ProcessInfo, ProjectProcesses,
};
use crate::snapshot::opt_view;
use crate::text::{
    chars_of, concat3, contains_text, find_sub, line_list, lines, lowercase, string_of, to_lowercase,
};

verus! {

/// A process as the process table shows it.
#[derive(Clone, Debug)]
pub struct ObservedProcess {
    pub pid: u32,
    pub parent_pid: Option<u32>,
    pub executable: String,
    pub command: Vec<String>,
    pub cwd: Option<String>,
    pub user: Option<u32>,
    pub cpu_percent_bits: u32,
    pub memory_bytes: u64,
    pub runtime_seconds: u64,
}

/// A project root, ordered and compared as a path, component by component.
#[derive(Clone, Debug)]
pub struct RootPath {
    pub path: String,
}

impl GroupKey for RootPath {
    open spec fn key_lt(self, other: Self) -> bool {
        path_lt(self.path@, other.path@)
    }

    open spec fn same_key(self, other: Self) -> bool {
        path_key(self.path@) == path_key(other.path@)
    }

    proof fn lemma_key_laws(a: Self, b: Self, c: Self) {
        let (ka, kb, kc) = (path_key(a.path@), path_key(b.path@), path_key(c.path@));
        lemma_keys_irreflexive(ka);
        lemma_keys_total(ka, kb);
        if keys_lt(ka, kb) && keys_lt(kb, kc) {
            lemma_keys_transitive(ka, kb, kc);
        }
    }

    fn precedes(&self, other: &Self) -> (r: bool) {
        path_less(self.path.as_str(), other.path.as_str())
    }

    fn same_as(&self, other: &Self) -> (r: bool) {
        path_eq(self.path.as_str(), other.path.as_str())
    }
}

/// A process is looked at: it runs as the current user (where that is known)
/// and has a working directory other than `/`.
pub open spec fn looked_at(p: ObservedProcess, current_user: Option<u32>) -> bool {
    &&& (current_user matches Some(u) ==> p.user == Some(u))
    &&& p.cwd matches Some(c) && path_key(c@) != path_key("/"@)
}

pub fn is_candidate(p: &ObservedProcess, current_user: Option<u32>) -> (r: bool)
    ensures
        r == looked_at(*p, current_user),
{
    let user_ok = match current_user {
        Some(u) => p.user == Some(u),
        None => true,
    };
    match &p.cwd {
        Some(c) => user_ok && !path_eq(c.as_str(), "/"),
        None => false,
    }
}

/// The attribution of a process that has no project: its own directory,
/// with low confidence.
pub open spec fn unclassified_attribution(cwd: Seq<char>) -> (Seq<char>, u8, Seq<char>) {
    (cwd, 25u8, "cwd "@ + cwd + " (no project marker)"@)
}

/// Where a process that is looked at is grouped: by its project, else, where
/// unattributed processes are included, by its own directory.
pub open spec fn grouping(
    pid: u32,
    cwd: Seq<char>,
    roots: Map<u32, Option<String>>,
    parents: Map<u32, Option<u32>>,
    include_unclassified: bool,
) -> Option<(Seq<char>, u8, Seq<char>)> {
    match spec_attribution(pid, cwd, roots, parents) {
        Some(a) => Some(a),
        None => if include_unclassified {
            Some(unclassified_attribution(cwd))
        } else {
            None
        },
    }
}

pub fn attribute(
    pid: u32,
    cwd: &str,
    roots: &BTreeMap<u32, Option<String>>,
    parents: &BTreeMap<u32, Option<u32>>,
    include_unclassified: bool,
) -> (r: Option<(String, u8, String)>)
    ensures
        match r {
            Some(t) => grouping(pid, cwd@, roots@, parents@, include_unclassified) == Some((t.0@, t.1, t.2@)),
            None => grouping(pid, cwd@, roots@, parents@, include_unclassified) is None,
        },
{
    match process_attribution(pid, cwd, roots, parents) {
        Some(a) => Some(a),
        None => {
            if include_unclassified {
                Some((String::from_str(cwd), 25, concat3("cwd ", cwd, " (no project marker)")))
            } else {
                None
            }
        },
    }
}

/// A process's entry as plain values: (pid, parent, name, cwd, CPU bits,
/// memory, run time, ports, GPU memory, confidence, evidence).
pub type ProcessView = (u32, Option<u32>, Seq<char>, Seq<char>, u32, u64, u64, Seq<u16>, Option<u64>, u8, Seq<char>);

pub open spec fn process_view(p: ProcessInfo) -> ProcessView {
    (
        p.pid,
        p.parent_pid,
        p.name@,
        p.cwd@,
        p.cpu_percent_bits,
        p.memory_bytes,
        p.runtime_seconds,
        p.ports@,
        p.gpu_memory_bytes,
        p.attribution_confidence,
        p.attribution_evidence@,
    )
}

/// The ports of a process: those found for it, else none.
pub open spec fn ports_of(ports: Map<u32, Vec<u16>>, pid: u32) -> Seq<u16> {
    if ports.contains_key(pid) {
        ports[pid]@
    } else {
        seq![]
    }
}

pub open spec fn gpu_of(gpu: Map<u32, u64>, pid: u32) -> Option<u64> {
    if gpu.contains_key(pid) {
        Some(gpu[pid])
    } else {
        None
    }
}

/// The processes to report, in table order, as (root, entry): those looked
/// at, attributed to a root, and passing the port and GPU filters.
pub open spec fn grouped_processes(
    procs: Seq<ObservedProcess>,
    current_user: Option<u32>,
    roots: Map<u32, Option<String>>,
    parents: Map<u32, Option<u32>>,
    ports: Map<u32, Vec<u16>>,
    gpu: Map<u32, u64>,
    ports_only: bool,
    gpu_only: bool,
    include_unclassified: bool,
) -> Seq<(Seq<char>, ProcessView)>
    decreases procs.len(),
{
    if procs.len() == 0 {
        seq![]
    } else {
        let prev = grouped_processes(
            procs.drop_last(),
            current_user,
            roots,
            parents,
            ports,
            gpu,
            ports_only,
            gpu_only,
            include_unclassified,
        );
        let p = procs.last();
        if !looked_at(p, current_user) {
            prev
        } else {
            let cwd = p.cwd->Some_0@;
            match grouping(p.pid, cwd, roots, parents, include_unclassified) {
                None => prev,
                Some((root, confidence, evidence)) => {
                    let ps = ports_of(ports, p.pid);
                    let g = gpu_of(gpu, p.pid);
                    if (ports_only && ps.len() == 0) || (gpu_only && g is None) {
                        prev
                    } else {
                        prev.push(
                            (
                                root,
                                (
                                    p.pid,
                                    p.parent_pid,
                                    spec_useful_name(p.executable@, p.command@.map_values(|a: String| a@)),
                                    cwd,
                                    p.cpu_percent_bits,
                                    p.memory_bytes,
                                    p.runtime_seconds,
                                    ps,
                                    g,
                                    confidence,
                                    evidence,
                                ),
                            ),
                        )
                    }
                },
            }
        }
    }
}

/// The number of processes looked at that no root was found for.
pub open spec fn unattributed_count(
    procs: Seq<ObservedProcess>,
    current_user: Option<u32>,
    roots: Map<u32, Option<String>>,
    parents: Map<u32, Option<u32>>,
    include_unclassified: bool,
) -> nat
    decreases procs.len(),
{
    if procs.len() == 0 {
        0
    } else {
        let prev = unattributed_count(procs.drop_last(), current_user, roots, parents, include_unclassified);
        let p = procs.last();
        if looked_at(p, current_user) && grouping(
            p.pid,
            p.cwd->Some_0@,
            roots,
            parents,
            include_unclassified,
        ) is None {
            prev + 1
        } else {
            prev
        }
    }
}

pub open spec fn item_views(items: Seq<(RootPath, ProcessInfo)>) -> Seq<(Seq<char>, ProcessView)> {
    items.map_values(|it: (RootPath, ProcessInfo)| (it.0.path@, process_view(it.1)))
}

/// The reportable processes of a process table, gathered by project root
/// (roots in path order, processes in table order), and the number of
/// processes looked at that no root was found for.
pub fn scan_groups(
    procs: Vec<ObservedProcess>,
    current_user: Option<u32>,
    roots: &BTreeMap<u32, Option<String>>,
    parents: &BTreeMap<u32, Option<u32>>,
    ports: &BTreeMap<u32, Vec<u16>>,
    gpu: &BTreeMap<u32, u64>,
    ports_only: bool,
    gpu_only: bool,
    include_unclassified: bool,
) -> (r: (Vec<(RootPath, Vec<ProcessInfo>)>, usize))
    requires
        procs@.len() <= usize::MAX,
    ensures
        exists|items: Seq<(RootPath, ProcessInfo)>|
            {
                &&& item_views(items) == grouped_processes(
                    procs@,
                    current_user,
                    roots@,
                    parents@,
                    ports@,
                    gpu@,
                    ports_only,
                    gpu_only,
                    include_unclassified,
                )
                &&& all_groups(items, r.0@)
            },
        r.1 == unattributed_count(procs@, current_user, roots@, parents@, include_unclassified),
{
    broadcast use vstd::std_specs::btree::group_btree_axioms;

    let ghost all = procs@;
    let mut rest = procs;
    let mut items: Vec<(RootPath, ProcessInfo)> = Vec::new();
    let mut unattributed: usize = 0;
    let ghost mut m: int = 0;
    assert(all.skip(0) =~= all);
    while rest.len() > 0
        invariant
            0 <= m <= all.len(),
            all.len() <= usize::MAX,
            rest@ == all.skip(m),
            item_views(items@) == grouped_processes(
                all.take(m),
                current_user,
                roots@,
                parents@,
                ports@,
                gpu@,
                ports_only,
                gpu_only,
                include_unclassified,
            ),
            unattributed == unattributed_count(all.take(m), current_user, roots@, parents@, include_unclassified),
            unattributed <= m,
        decreases rest.len(),
    {
        let p = rest.remove(0);
        assert(p == all[m]);
        assert(all.take(m + 1).drop_last() =~= all.take(m));
        let ghost before = item_views(items@);
        if is_candidate(&p, current_user) {
            let cwd = match &p.cwd {
                Some(c) => c.clone(),
                None => String::new(),
            };
            match attribute(p.pid, cwd.as_str(), roots, parents, include_unclassified) {
                None => {
                    unattributed = unattributed + 1;
                },
                Some((root, confidence, evidence)) => {
                    let port_list: Vec<u16> = match ports.get(&p.pid) {
                        Some(v) => v.clone(),
                        None => Vec::new(),
                    };
                    let g: Option<u64> = match gpu.get(&p.pid) {
                        Some(b) => Some(*b),
                        None => None,
                    };
                    if !((ports_only && port_list.len() == 0) || (gpu_only && g.is_none())) {
                        let info = ProcessInfo {
                            pid: p.pid,
                            parent_pid: p.parent_pid,
                            name: useful_name(p.executable.as_str(), &p.command),
                            cwd,
                            cpu_percent_bits: p.cpu_percent_bits,
                            memory_bytes: p.memory_bytes,
                            runtime_seconds: p.runtime_seconds,
                            ports: port_list,
                            gpu_memory_bytes: g,
                            attribution_confidence: confidence,
                            attribution_evidence: evidence,
                        };
                        let it = (RootPath { path: root }, info);
                        let ghost iv = (it.0.path@, process_view(it.1));
                        items.push(it);
                        assert(item_views(items@) =~= before.push(iv));
                    }
                },
            }
        }
        proof {
            m = m + 1;
        }
        assert(rest@ =~= all.skip(m));
    }
    assert(all.take(m) =~= all);
    let ghost iv = items@;
    let groups = group_all(items);
    (groups, unattributed)
}

/// The place of an `f32`'s bit pattern in the IEEE total order (`total_cmp`):
/// positive patterns in their own order, negative ones below them, reversed.
pub open spec fn cpu_rank(bits: u32) -> int {
    if bits < 0x8000_0000 {
        bits as int
    } else {
        0x7fff_ffff - bits
    }
}

fn cpu_rank_of(bits: u32) -> (r: i64)
    ensures
        r == cpu_rank(bits),
{
    if bits < 0x8000_0000 {
        bits as i64
    } else {
        0x7fff_ffffi64 - (bits as i64)
    }
}

impl Ranked for ProcessInfo {
    /// More CPU first, then more memory, then the lower pid.
    open spec fn ranks_before(self, other: Self) -> bool {
        cpu_rank(self.cpu_percent_bits) > cpu_rank(other.cpu_percent_bits) || (cpu_rank(self.cpu_percent_bits)
            == cpu_rank(other.cpu_percent_bits) && (self.memory_bytes > other.memory_bytes || (self.memory_bytes
            == other.memory_bytes && self.pid < other.pid)))
    }

    proof fn lemma_irreflexive(a: Self) {
    }

    proof fn lemma_transitive(a: Self, b: Self, c: Self) {
    }

    proof fn lemma_negatively_transitive(a: Self, b: Self, c: Self) {
    }

    fn goes_before(&self, other: &Self) -> (r: bool) {
        let ra = cpu_rank_of(self.cpu_percent_bits);
        let rb = cpu_rank_of(other.cpu_percent_bits);
        ra > rb || (ra == rb && (self.memory_bytes > other.memory_bytes || (self.memory_bytes == other.memory_bytes
            && self.pid < other.pid)))
    }
}

/// Orders the processes of a project: more CPU first, then more memory, then
/// the lower pid.
pub fn order_processes(processes: &mut Vec<ProcessInfo>)
    ensures
        stably_sorted(final(processes)@, old(processes)@),
{
    sort_ranked(processes);
}

impl GroupKey for u16 {
    open spec fn key_lt(self, other: Self) -> bool {
        self < other
    }

    open spec fn same_key(self, other: Self) -> bool {
        self == other
    }

    proof fn lemma_key_laws(a: Self, b: Self, c: Self) {
    }

    fn precedes(&self, other: &Self) -> (r: bool) {
        *self < *other
    }

    fn same_as(&self, other: &Self) -> (r: bool) {
        *self == *other
    }
}

/// The name of a project: the last component of its root, else the root.
pub open spec fn project_name(root: Seq<char>) -> Seq<char> {
    match file_name(root) {
        Some(n) => n,
        None => root,
    }
}

/// The sum of the memory of `ps`.
pub open spec fn memory_total(ps: Seq<ProcessInfo>) -> int
    decreases ps.len(),
{
    if ps.len() == 0 {
        0
    } else {
        memory_total(ps.drop_last()) + ps.last().memory_bytes
    }
}

/// The sum of the GPU memory of `ps`, where it is known.
pub open spec fn gpu_total(ps: Seq<ProcessInfo>) -> int
    decreases ps.len(),
{
    if ps.len() == 0 {
        0
    } else {
        gpu_total(ps.drop_last()) + match ps.last().gpu_memory_bytes {
            Some(b) => b as int,
            None => 0,
        }
    }
}

proof fn lemma_totals_prefix(ps: Seq<ProcessInfo>, n: int)
    requires
        0 <= n <= ps.len(),
    ensures
        0 <= memory_total(ps.take(n)) <= memory_total(ps),
        0 <= gpu_total(ps.take(n)) <= gpu_total(ps),
    decreases ps.len() - n,
{
    if n < ps.len() {
        assert(ps.take(n + 1).drop_last() =~= ps.take(n));
        lemma_totals_prefix(ps, n + 1);
        lemma_totals_nonnegative(ps.take(n));
    } else {
        assert(ps.take(n) =~= ps);
        lemma_totals_nonnegative(ps);
    }
}

proof fn lemma_totals_nonnegative(ps: Seq<ProcessInfo>)
    ensures
        memory_total(ps) >= 0,
        gpu_total(ps) >= 0,
    decreases ps.len(),
{
    if ps.len() > 0 {
        lemma_totals_nonnegative(ps.drop_last());
    }
}

/// A port that some process of `ps` listens on.
pub open spec fn listens(ps: Seq<ProcessInfo>, port: u16) -> bool {
    exists|k: int, j: int| 0 <= k < ps.len() && 0 <= j < ps[k].ports@.len() && (#[trigger] ps[k].ports@[j]) == port
}

/// The ports of `ps`, one process after another.
pub open spec fn all_ports(ps: Seq<ProcessInfo>) -> Seq<u16>
    decreases ps.len(),
{
    if ps.len() == 0 {
        seq![]
    } else {
        all_ports(ps.drop_last()) + ps.last().ports@
    }
}

proof fn lemma_all_ports(ps: Seq<ProcessInfo>, x: u16)
    ensures
        all_ports(ps).contains(x) <==> listens(ps, x),
    decreases ps.len(),
{
    if ps.len() > 0 {
        let init = ps.drop_last();
        lemma_all_ports(init, x);
        let a = all_ports(init);
        let l = ps.last().ports@;
        if all_ports(ps).contains(x) {
            let t = choose|t: int| 0 <= t < all_ports(ps).len() && all_ports(ps)[t] == x;
            if t < a.len() {
                assert(a[t] == x);
                let (k, j) = choose|k: int, j: int|
                    0 <= k < init.len() && 0 <= j < init[k].ports@.len() && (#[trigger] init[k].ports@[j]) == x;
                assert(ps[k] == init[k]);
            } else {
                assert(l[t - a.len()] == x);
                assert(ps[ps.len() - 1].ports@[t - a.len()] == x);
            }
        }
        if listens(ps, x) {
            let (k, j) = choose|k: int, j: int|
                0 <= k < ps.len() && 0 <= j < ps[k].ports@.len() && (#[trigger] ps[k].ports@[j]) == x;
            if k < ps.len() - 1 {
                assert(init[k] == ps[k]);
                assert(listens(init, x));
                let t = choose|t: int| 0 <= t < a.len() && a[t] == x;
                assert(all_ports(ps)[t] == x);
            } else {
                assert(all_ports(ps)[a.len() + j] == x);
            }
        }
    }
}

/// The evidence of some process of `ps`.
pub open spec fn gives_evidence(ps: Seq<ProcessInfo>, e: Seq<char>) -> bool {
    exists|k: int| 0 <= k < ps.len() && (#[trigger] ps[k]).attribution_evidence@ == e
}

/// The lowest confidence among `ps` (0 where there is none).
pub open spec fn lowest_confidence(ps: Seq<ProcessInfo>, c: u8) -> bool {
    if ps.len() == 0 {
        c == 0
    } else {
        &&& exists|k: int| 0 <= k < ps.len() && (#[trigger] ps[k]).attribution_confidence == c
        &&& forall|k: int| 0 <= k < ps.len() ==> c <= (#[trigger] ps[k]).attribution_confidence
    }
}

/// The summary of one project's processes (already in report order): its
/// name, the sums of memory and GPU memory, every port once in increasing
/// order, the lowest confidence, and every piece of evidence once in text
/// order. `cpu_percent_bits` is the bit pattern of the `f32` sum of the
/// processes' CPU use, summed in their order.
pub fn project_summary(root: String, processes: Vec<ProcessInfo>, cpu_percent_bits: u32) -> (r: ProjectProcesses)
    requires
        memory_total(processes@) <= u64::MAX,
        gpu_total(processes@) <= u64::MAX,
    ensures
        r.project@ == project_name(root@),
        r.root == root,
        r.cpu_percent_bits == cpu_percent_bits,
        r.memory_bytes == memory_total(processes@),
        r.gpu_memory_bytes == gpu_total(processes@),
        forall|a: int, b: int| 0 <= a < b < r.ports@.len() ==> r.ports@[a] < r.ports@[b],
        forall|x: u16| r.ports@.contains(x) <==> listens(processes@, x),
        r.processes@ == processes@,
        lowest_confidence(processes@, r.attribution_confidence),
        forall|a: int, b: int|
            0 <= a < b < r.attribution_evidence@.len() ==> seq_lt(r.attribution_evidence@[a]@, r.attribution_evidence@[b]@),
        forall|e: Seq<char>|
            (exists|k: int| 0 <= k < r.attribution_evidence@.len() && (#[trigger] r.attribution_evidence@[k])@ == e)
                <==> gives_evidence(processes@, e),
{
    let ps = &processes;
    let mut memory: u64 = 0;
    let mut gpu: u64 = 0;
    let mut lowest: u8 = 0;
    let mut port_items: Vec<(u16, ())> = Vec::new();
    let mut evidence_items: Vec<(String, ())> = Vec::new();
    let mut i: usize = 0;
    while i < ps.len()
        invariant
            i <= ps.len(),
            memory_total(ps@) <= u64::MAX,
            gpu_total(ps@) <= u64::MAX,
            memory == memory_total(ps@.take(i as int)),
            gpu == gpu_total(ps@.take(i as int)),
            lowest_confidence(ps@.take(i as int), lowest),
            port_items@.map_values(|x: (u16, ())| x.0) == all_ports(ps@.take(i as int)),
            evidence_items@.len() == i,
            forall|t: int| 0 <= t < i ==> (#[trigger] evidence_items@[t]).0@ == ps@[t].attribution_evidence@,
        decreases ps.len() - i,
    {
        let p = &ps[i];
        assert(ps@.take(i + 1).drop_last() =~= ps@.take(i as int));
        proof {
            lemma_totals_prefix(ps@, i as int + 1);
        }
        memory = memory + p.memory_bytes;
        match p.gpu_memory_bytes {
            Some(b) => {
                gpu = gpu + b;
            },
            None => {},
        }
        let ghost t = ps@.take(i as int);
        let ghost t1 = ps@.take(i + 1);
        if i == 0 || p.attribution_confidence < lowest {
            lowest = p.attribution_confidence;
            proof {
                assert(t1[i as int] == ps@[i as int]);
                assert forall|k: int| 0 <= k < t1.len() implies lowest <= (#[trigger] t1[k]).attribution_confidence by {
                    if k < i {
                        assert(t1[k] == t[k]);
                    }
                }
            }
        } else {
            proof {
                let w = choose|k: int| 0 <= k < t.len() && (#[trigger] t[k]).attribution_confidence == lowest;
                assert(t1[w] == t[w]);
                assert forall|k: int| 0 <= k < t1.len() implies lowest <= (#[trigger] t1[k]).attribution_confidence by {
                    if k < i {
                        assert(t1[k] == t[k]);
                    }
                }
            }
        }
        let ghost before_keys = port_items@.map_values(|x: (u16, ())| x.0);
        let mut j: usize = 0;
        while j < p.ports.len()
            invariant
                j <= p.ports.len(),
                i < ps.len(),
                *p == ps@[i as int],
                port_items@.map_values(|x: (u16, ())| x.0) == before_keys + ps@[i as int].ports@.take(j as int),
            decreases p.ports.len() - j,
        {
            let ghost bk = port_items@.map_values(|x: (u16, ())| x.0);
            port_items.push((p.ports[j], ()));
            assert(port_items@.map_values(|x: (u16, ())| x.0) =~= bk.push(p.ports@[j as int]));
            assert(ps@[i as int].ports@.take(j + 1) =~= ps@[i as int].ports@.take(j as int).push(p.ports@[j as int]));
            j += 1;
        }
        assert(ps@[i as int].ports@.take(j as int) =~= ps@[i as int].ports@);
        assert(t1.drop_last() =~= t);
        evidence_items.push((p.attribution_evidence.clone(), ()));
        i += 1;
    }
    assert(ps@.take(ps.len() as int) =~= ps@);
    let ghost pitems = port_items@;
    let ghost eitems = evidence_items@;
    let port_groups = group_all(port_items);
    let evidence_groups = group_all(evidence_items);
    let mut ports: Vec<u16> = Vec::new();
    let mut k: usize = 0;
    while k < port_groups.len()
        invariant
            k <= port_groups.len(),
            ports@.len() == k,
            forall|x: int| 0 <= x < k ==> ports@[x] == (#[trigger] port_groups@[x]).0,
        decreases port_groups.len() - k,
    {
        ports.push(port_groups[k].0);
        k += 1;
    }
    let mut evidence: Vec<String> = Vec::new();
    let mut k: usize = 0;
    while k < evidence_groups.len()
        invariant
            k <= evidence_groups.len(),
            evidence@.len() == k,
            forall|x: int| 0 <= x < k ==> evidence@[x]@ == (#[trigger] evidence_groups@[x]).0@,
        decreases evidence_groups.len() - k,
    {
        evidence.push(evidence_groups[k].0.clone());
        k += 1;
    }
    proof {
        assert forall|a: int, b: int| 0 <= a < b < ports@.len() implies ports@[a] < ports@[b] by {
            assert(port_groups@[a].0.key_lt(port_groups@[b].0));
        }
        assert forall|a: int, b: int| 0 <= a < b < evidence@.len() implies seq_lt(evidence@[a]@, evidence@[b]@) by {
            assert(evidence_groups@[a].0.key_lt(evidence_groups@[b].0));
        }
        assert forall|x: u16| ports@.contains(x) <==> listens(ps@, x) by {
            lemma_all_ports(ps@, x);
            let keys = pitems.map_values(|y: (u16, ())| y.0);
            assert(keys == all_ports(ps@));
            if ports@.contains(x) {
                let a = choose|a: int| 0 <= a < ports@.len() && ports@[a] == x;
                assert(port_groups@[a].1@.len() > 0);
                lemma_members_nonempty(pitems, port_groups@[a].0);
                let t = choose|t: int| 0 <= t < pitems.len() && (#[trigger] pitems[t]).0.same_key(port_groups@[a].0);
                assert(keys[t] == x);
            }
            if listens(ps@, x) {
                let t = choose|t: int| 0 <= t < keys.len() && keys[t] == x;
                assert(pitems[t].0 == x);
                let a = choose|a: int| 0 <= a < port_groups@.len() && (#[trigger] port_groups@[a]).0.same_key((#[trigger] pitems[t]).0);
                assert(ports@[a] == x);
            }
        }
        assert forall|e: Seq<char>|
            (exists|x: int| 0 <= x < evidence@.len() && (#[trigger] evidence@[x])@ == e) implies gives_evidence(ps@, e) by {
            let a = choose|a: int| 0 <= a < evidence@.len() && (#[trigger] evidence@[a])@ == e;
            assert(evidence_groups@[a].1@.len() > 0);
            lemma_members_nonempty(eitems, evidence_groups@[a].0);
            let t = choose|t: int| 0 <= t < eitems.len() && (#[trigger] eitems[t]).0.same_key(evidence_groups@[a].0);
            assert(eitems[t].0@ == ps@[t].attribution_evidence@);
            assert(ps@[t].attribution_evidence@ == e);
        }
        assert forall|e: Seq<char>| gives_evidence(ps@, e) implies
            (exists|x: int| 0 <= x < evidence@.len() && (#[trigger] evidence@[x])@ == e) by {
            let t = choose|t: int| 0 <= t < ps@.len() && (#[trigger] ps@[t]).attribution_evidence@ == e;
            assert(eitems[t].0@ == e);
            let a = choose|a: int| 0 <= a < evidence_groups@.len() && (#[trigger] evidence_groups@[a]).0.same_key((#[trigger] eitems[t]).0);
            assert(evidence@[a]@ == e);
        }
    }
    let name = match file_name_of(&chars_of(root.as_str())) {
        Some(n) => string_of(&n),
        None => root.clone(),
    };
    let r = ProjectProcesses {
        project: name,
        root,
        cpu_percent_bits,
        memory_bytes: memory,
        gpu_memory_bytes: gpu,
        ports,
        processes,
        attribution_confidence: lowest,
        attribution_evidence: evidence,
    };
    assert(r.attribution_evidence@ == evidence@);
    assert forall|e: Seq<char>|
        (exists|k: int| 0 <= k < r.attribution_evidence@.len() && (#[trigger] r.attribution_evidence@[k])@ == e)
            <==> gives_evidence(r.processes@, e) by {
        if exists|k: int| 0 <= k < r.attribution_evidence@.len() && (#[trigger] r.attribution_evidence@[k])@ == e {
            let k = choose|k: int| 0 <= k < r.attribution_evidence@.len() && (#[trigger] r.attribution_evidence@[k])@ == e;
            assert(evidence@[k]@ == e);
        }
        if gives_evidence(r.processes@, e) {
            let x = choose|x: int| 0 <= x < evidence@.len() && (#[trigger] evidence@[x])@ == e;
            assert(r.attribution_evidence@[x]@ == e);
        }
    }
    r
}


/// A project is reported when no project is asked for, or when its name or
/// its root contains what was asked for, ignoring case.
pub open spec fn project_wanted(project: Seq<char>, root: Seq<char>, wanted: Option<Seq<char>>) -> bool {
    match wanted {
        None => true,
        Some(w) => lowered_match(lowercase(project), lowercase(root), lowercase(w)),
    }
}

/// Whether a lower-cased needle occurs in the lower-cased project name or root.
pub open spec fn lowered_match(project: Seq<char>, root: Seq<char>, needle: Seq<char>) -> bool {
    find_sub(project, needle) is Some || find_sub(root, needle) is Some
}

pub fn project_selected(project: &str, root: &str, wanted: &Option<String>) -> (r: bool)
    ensures
        r == project_wanted(project@, root@, opt_view(*wanted)),
{
    match wanted {
        None => true,
        Some(w) => {
            let needle = to_lowercase(w.as_str());
            let p = to_lowercase(project);
            let r = to_lowercase(root);
            matches_lowered(p.as_str(), r.as_str(), needle.as_str())
        },
    }
}

/// Whether the lower-cased project name or root contains the lower-cased
/// needle.
pub fn matches_lowered(project: &str, root: &str, needle: &str) -> (r: bool)
    ensures
        r == lowered_match(project@, root@, needle@),
{
    contains_text(project, needle) || contains_text(root, needle)
}

impl Ranked for ProjectProcesses {
    /// More CPU first, then more memory, then the name in text order.
    open spec fn ranks_before(self, other: Self) -> bool {
        cpu_rank(self.cpu_percent_bits) > cpu_rank(other.cpu_percent_bits) || (cpu_rank(self.cpu_percent_bits)
            == cpu_rank(other.cpu_percent_bits) && (self.memory_bytes > other.memory_bytes || (self.memory_bytes
            == other.memory_bytes && seq_lt(self.project@, other.project@))))
    }

    proof fn lemma_irreflexive(a: Self) {
        lemma_lt_irreflexive(a.project@);
    }

    proof fn lemma_transitive(a: Self, b: Self, c: Self) {
        if seq_lt(a.project@, b.project@) && seq_lt(b.project@, c.project@) {
            lemma_lt_transitive(a.project@, b.project@, c.project@);
        }
    }

    proof fn lemma_negatively_transitive(a: Self, b: Self, c: Self) {
        lemma_lt_total(a.project@, b.project@);
        lemma_lt_total(b.project@, c.project@);
        if seq_lt(b.project@, a.project@) && seq_lt(a.project@, c.project@) {
            lemma_lt_transitive(b.project@, a.project@, c.project@);
        }
        if seq_lt(a.project@, c.project@) && seq_lt(c.project@, b.project@) {
            lemma_lt_transitive(a.project@, c.project@, b.project@);
        }
    }

    fn goes_before(&self, other: &Self) -> (r: bool) {
        let ra = cpu_rank_of(self.cpu_percent_bits);
        let rb = cpu_rank_of(other.cpu_percent_bits);
        ra > rb || (ra == rb && (self.memory_bytes > other.memory_bytes || (self.memory_bytes == other.memory_bytes
            && less(self.project.as_str(), other.project.as_str()))))
    }
}

/// What a process scan found.
#[derive(Clone, Debug)]
pub struct ProcessReport {
    pub projects: Vec<ProjectProcesses>,
    pub process_count: usize,
    pub port_inspection_available: bool,
    pub gpu_inspection_available: bool,
    pub unclassified_process_count: usize,
}

/// The number of processes in `ps`, all groups together.
pub open spec fn process_total(ps: Seq<ProjectProcesses>) -> int
    decreases ps.len(),
{
    if ps.len() == 0 {
        0
    } else {
        process_total(ps.drop_last()) + ps.last().processes@.len()
    }
}

proof fn lemma_process_total_prefix(ps: Seq<ProjectProcesses>, n: int)
    requires
        0 <= n <= ps.len(),
    ensures
        0 <= process_total(ps.take(n)) <= process_total(ps),
    decreases ps.len() - n,
{
    if n < ps.len() {
        assert(ps.take(n + 1).drop_last() =~= ps.take(n));
        lemma_process_total_prefix(ps, n + 1);
        lemma_process_total_nonnegative(ps.take(n));
    } else {
        assert(ps.take(n) =~= ps);
        lemma_process_total_nonnegative(ps);
    }
}

proof fn lemma_process_total_nonnegative(ps: Seq<ProjectProcesses>)
    ensures
        process_total(ps) >= 0,
    decreases ps.len(),
{
    if ps.len() > 0 {
        lemma_process_total_nonnegative(ps.drop_last());
    }
}

/// The report of a scan: the projects, most CPU first (then most memory,
/// then by name), and how many processes they hold.
pub fn process_report(
    projects: Vec<ProjectProcesses>,
    port_inspection_available: bool,
    gpu_inspection_available: bool,
    unclassified_process_count: usize,
) -> (r: ProcessReport)
    requires
        process_total(projects@) <= usize::MAX,
    ensures
        stably_sorted(r.projects@, projects@),
        r.process_count == process_total(projects@),
        r.port_inspection_available == port_inspection_available,
        r.gpu_inspection_available == gpu_inspection_available,
        r.unclassified_process_count == unclassified_process_count,
{
    let mut count: usize = 0;
    let mut i: usize = 0;
    while i < projects.len()
        invariant
            i <= projects.len(),
            count == process_total(projects@.take(i as int)),
            process_total(projects@) <= usize::MAX,
        decreases projects.len() - i,
    {
        assert(projects@.take(i + 1).drop_last() =~= projects@.take(i as int));
        proof {
            lemma_process_total_prefix(projects@, i as int + 1);
        }
        count = count + projects[i].processes.len();
        i += 1;
    }
    assert(projects@.take(projects.len() as int) =~= projects@);
    let mut projects = projects;
    sort_ranked(&mut projects);
    ProcessReport {
        projects,
        process_count: count,
        port_inspection_available,
        gpu_inspection_available,
        unclassified_process_count,
    }
}

/// The listening sockets of the lines of one socket table (its header line
/// already left out), added to `m`: a later line for an inode wins.
pub open spec fn table_sockets(m: Map<u64, u16>, ls: Seq<Seq<char>>, state: Option<Seq<char>>) -> Map<u64, u16>
    decreases ls.len(),
{
    if ls.len() == 0 {
        m
    } else {
        let prev = table_sockets(m, ls.drop_last(), state);
        match spec_socket_line(ls.last(), state) {
            Some((inode, port)) => prev.insert(inode, port),
            None => prev,
        }
    }
}

/// The lines of a table after its header line.
pub open spec fn after_header(ls: Seq<Seq<char>>) -> Seq<Seq<char>> {
    if ls.len() == 0 {
        seq![]
    } else {
        ls.skip(1)
    }
}

/// The listening sockets (inode to port) of the socket tables that could be
/// read (text, state that marks a listening socket), in order.
pub open spec fn socket_map(tables: Seq<(String, Option<String>)>) -> Map<u64, u16>
    decreases tables.len(),
{
    if tables.len() == 0 {
        Map::empty()
    } else {
        let t = tables.last();
        table_sockets(socket_map(tables.drop_last()), after_header(lines(t.0@)), opt_view(t.1))
    }
}

pub fn socket_table(tables: &Vec<(String, Option<String>)>) -> (r: BTreeMap<u64, u16>)
    ensures
        r@ == socket_map(tables@),
{
    broadcast use vstd::std_specs::btree::group_btree_axioms;

    let mut m: BTreeMap<u64, u16> = BTreeMap::new();
    let mut i: usize = 0;
    assert(m@ =~= Map::<u64, u16>::empty());
    while i < tables.len()
        invariant
            i <= tables.len(),
            m@ == socket_map(tables@.take(i as int)),
        decreases tables.len() - i,
    {
        assert(tables@.take(i + 1).drop_last() =~= tables@.take(i as int));
        assert(tables@.take(i + 1).last() == tables@[i as int]);
        let ls = line_list(&chars_of(tables[i].0.as_str()));
        let ghost lv = ls@.map_values(|p: Vec<char>| p@);
        let ghost body = after_header(lv);
        let ghost base = m@;
        let state: Option<&str> = match &tables[i].1 {
            Some(s) => Some(s.as_str()),
            None => None,
        };
        let ghost st = opt_view(tables@[i as int].1);
        assert(match state {
            Some(s) => Some(s@),
            None => None::<Seq<char>>,
        } == st);
        let mut k: usize = 1;
        if ls.len() == 0 {
            assert(body.len() == 0);
            assert(table_sockets(base, body, st) == base);
        } else {
            assert(body.take(0) =~= Seq::<Seq<char>>::empty());
            while k < ls.len()
                invariant
                    1 <= k <= ls.len(),
                    lv == ls@.map_values(|p: Vec<char>| p@),
                    body == lv.skip(1),
                    lv.len() > 0,
                    m@ == table_sockets(base, body.take(k - 1), st),
                    state matches Some(s) ==> st == Some(s@),
                    state is None ==> st is None,
                decreases ls.len() - k,
            {
                let line = string_of(&ls[k]);
                assert(body.take(k as int).drop_last() =~= body.take(k - 1));
                assert(body.take(k as int).last() == ls@[k as int]@);
                match parse_socket_line(line.as_str(), state) {
                    Some((inode, port)) => {
                        m.insert(inode, port);
                    },
                    None => {},
                }
                k += 1;
            }
            assert(body.take(k - 1) =~= body);
        }
        i += 1;
    }
    assert(tables@.take(tables.len() as int) =~= tables@);
    m
}

/// The port of the listening socket that a descriptor points to, if it does.
pub open spec fn listening_port(target: Seq<char>, sockets: Map<u64, u16>) -> Option<u16> {
    match spec_socket_inode(target) {
        Some(inode) => if sockets.contains_key(inode) {
            Some(sockets[inode])
        } else {
            None
        },
        None => None,
    }
}

/// A port that a process listens on: one of its descriptors is a socket
/// whose inode is a listening socket's.
pub open spec fn socket_port(targets: Seq<String>, sockets: Map<u64, u16>, port: u16) -> bool {
    exists|t: int| 0 <= t < targets.len() && #[trigger] listening_port(targets[t]@, sockets) == Some(port)
}

/// The ports a process listens on, given where its file descriptors point:
/// each once, in increasing order.
pub fn pid_ports(targets: &Vec<String>, sockets: &BTreeMap<u64, u16>) -> (r: Vec<u16>)
    ensures
        forall|a: int, b: int| 0 <= a < b < r@.len() ==> r@[a] < r@[b],
        forall|x: u16| r@.contains(x) <==> socket_port(targets@, sockets@, x),
{
    broadcast use vstd::std_specs::btree::group_btree_axioms;

    let mut items: Vec<(u16, ())> = Vec::new();
    let ghost mut origin: Seq<int> = Seq::empty();
    let mut i: usize = 0;
    while i < targets.len()
        invariant
            i <= targets.len(),
            origin.len() == items@.len(),
            forall|k: int|
                0 <= k < items@.len() ==> 0 <= #[trigger] origin[k] < i && listening_port(targets@[origin[k]]@, sockets@)
                    == Some(items@[k].0),
            forall|t: int|
                0 <= t < i && (#[trigger] listening_port(targets@[t]@, sockets@)) is Some ==> exists|k: int|
                    0 <= k < items@.len() && origin[k] == t,
        decreases targets.len() - i,
    {
        let ghost old_origin = origin;
        let ghost old_len = items@.len();
        match socket_inode(targets[i].as_str()) {
            Some(inode) => match sockets.get(&inode) {
                Some(port) => {
                    items.push((*port, ()));
                    proof {
                        origin = origin.push(i as int);
                        assert(origin[items@.len() - 1] == i);
                    }
                },
                None => {},
            },
            None => {},
        }
        proof {
            assert forall|t: int|
                0 <= t < i + 1 && (#[trigger] listening_port(targets@[t]@, sockets@)) is Some implies exists|k: int|
                    0 <= k < items@.len() && origin[k] == t by {
                if t < i {
                    let k = choose|k: int| 0 <= k < old_len && old_origin[k] == t;
                    assert(origin[k] == old_origin[k]);
                } else {
                    assert(items@.len() == old_len + 1);
                    assert(origin[old_len as int] == t);
                }
            }
        }
        i += 1;
    }
    let ghost iv = items@;
    let groups = group_all(items);
    let mut r: Vec<u16> = Vec::new();
    let mut k: usize = 0;
    while k < groups.len()
        invariant
            k <= groups.len(),
            r@.len() == k,
            forall|x: int| 0 <= x < k ==> r@[x] == (#[trigger] groups@[x]).0,
        decreases groups.len() - k,
    {
        r.push(groups[k].0);
        k += 1;
    }
    proof {
        assert forall|a: int, b: int| 0 <= a < b < r@.len() implies r@[a] < r@[b] by {
            assert(groups@[a].0.key_lt(groups@[b].0));
        }
        assert forall|x: u16| r@.contains(x) <==> socket_port(targets@, sockets@, x) by {
            if r@.contains(x) {
                let a = choose|a: int| 0 <= a < r@.len() && r@[a] == x;
                assert(groups@[a].1@.len() > 0);
                lemma_members_nonempty(iv, groups@[a].0);
                let k = choose|k: int| 0 <= k < iv.len() && (#[trigger] iv[k]).0.same_key(groups@[a].0);
                let t = origin[k];
                assert(listening_port(targets@[t]@, sockets@) == Some(x));
            }
            if socket_port(targets@, sockets@, x) {
                let t = choose|t: int| 0 <= t < targets@.len() && #[trigger] listening_port(targets@[t]@, sockets@) == Some(x);
                let k = choose|k: int| 0 <= k < iv.len() && origin[k] == t;
                assert(iv[k].0 == x);
                let a = choose|a: int| 0 <= a < groups@.len() && (#[trigger] groups@[a]).0.same_key((#[trigger] iv[k]).0);
                assert(r@[a] == x);
            }
        }
    }
    r
}

} // verus!
