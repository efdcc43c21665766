//! What the disk commands decide: which caches and project artifacts are
//! looked at, which files a query keeps, how files that hash alike are
//! grouped, and in what order findings are reported and how they are summed.
use sha2::Digest;
use vstd::prelude::*;

use crate::paths::{keys_lt, lemma_keys_irreflexive, lemma_keys_total, lemma_keys_transitive, path_key, path_less, path_lt};
use crate::rank::{sort_ranked, stably_sorted, Ranked};
use crate::assoc::{get_last, lookup};
use crate::group::{group_shared, shared_groups};
use crate::paths::{join, join_path, path_eq};
use crate::snapshot::DiskInfo;
use crate::text::{push_char, text_eq};

verus! {

/// A file that a query kept.
#[derive(Clone, Debug)]
pub struct FileMatch {
    pub path: String,
    pub bytes: u64,
    pub modified_unix_seconds: Option<u64>,
}

/// The files under a root that a query kept, largest first.
#[derive(Clone, Debug)]
pub struct FileQueryReport {
    pub root: String,
    pub files: Vec<FileMatch>,
    pub total_bytes: u64,
    pub unreadable_entries: u64,
}

/// Files with the same size and the same SHA-256 digest.
#[derive(Clone, Debug)]
pub struct DuplicateGroup {
    pub bytes_each: u64,
    pub reclaimable_bytes: u64,
    pub sha256: String,
    pub paths: Vec<String>,
}

/// The groups of identical files under a root, most reclaimable first.
#[derive(Clone, Debug)]
pub struct DuplicateReport {
    pub root: String,
    pub groups: Vec<DuplicateGroup>,
    pub reclaimable_bytes: u64,
    pub unreadable_entries: u64,
}

/// A directory or file whose size is reported.
#[derive(Clone, Debug)]
pub struct DiskEntry {
    pub category: String,
    pub path: String,
    pub bytes: u64,
    pub reason: String,
    pub regeneratable: Option<bool>,
}

/// What an analysis of a project and its caches found.
#[derive(Clone, Debug)]
pub struct DiskReport {
    pub filesystem: DiskInfo,
    pub scanned_path: String,
    pub potentially_reclaimable_bytes: u64,
    pub safe: Vec<DiskEntry>,
    pub review: Vec<DiskEntry>,
    pub top: Vec<DiskEntry>,
    pub unreadable_entries: u64,
}

/// A mounted filesystem and its space.
#[derive(Clone, Debug)]
pub struct FilesystemEntry {
    pub name: String,
    pub mount_point: String,
    pub file_system: String,
    pub kind: String,
    pub removable: bool,
    pub total_bytes: u64,
    pub used_bytes: u64,
    pub available_bytes: u64,
}

/// The mounted filesystems, fullest first.
#[derive(Clone, Debug)]
pub struct FilesystemReport {
    pub filesystems: Vec<FilesystemEntry>,
}

/// A larger size ranks first; equal sizes go by path.
pub open spec fn larger_first(a_bytes: u64, a_path: Seq<char>, b_bytes: u64, b_path: Seq<char>) -> bool {
    a_bytes > b_bytes || (a_bytes == b_bytes && path_lt(a_path, b_path))
}

proof fn lemma_larger_first_irreflexive(n: u64, p: Seq<char>)
    ensures
        !larger_first(n, p, n, p),
{
    lemma_keys_irreflexive(path_key(p));
}

proof fn lemma_larger_first_transitive(an: u64, ap: Seq<char>, bn: u64, bp: Seq<char>, cn: u64, cp: Seq<char>)
    requires
        larger_first(an, ap, bn, bp),
        larger_first(bn, bp, cn, cp),
    ensures
        larger_first(an, ap, cn, cp),
{
    if an == bn && bn == cn {
        lemma_keys_transitive(path_key(ap), path_key(bp), path_key(cp));
    }
}

proof fn lemma_larger_first_negatively_transitive(an: u64, ap: Seq<char>, bn: u64, bp: Seq<char>, cn: u64, cp: Seq<char>)
    requires
        larger_first(an, ap, cn, cp),
    ensures
        larger_first(an, ap, bn, bp) || larger_first(bn, bp, cn, cp),
{
    if an == cn && bn == an {
        lemma_keys_total(path_key(ap), path_key(bp));
        if keys_lt(path_key(bp), path_key(ap)) {
            lemma_keys_transitive(path_key(bp), path_key(ap), path_key(cp));
        }
    }
}

impl Ranked for DiskEntry {
    open spec fn ranks_before(self, other: Self) -> bool {
        larger_first(self.bytes, self.path@, other.bytes, other.path@)
    }

    proof fn lemma_irreflexive(a: Self) {
        lemma_larger_first_irreflexive(a.bytes, a.path@);
    }

    proof fn lemma_transitive(a: Self, b: Self, c: Self) {
        lemma_larger_first_transitive(a.bytes, a.path@, b.bytes, b.path@, c.bytes, c.path@);
    }

    proof fn lemma_negatively_transitive(a: Self, b: Self, c: Self) {
        lemma_larger_first_negatively_transitive(a.bytes, a.path@, b.bytes, b.path@, c.bytes, c.path@);
    }

    fn goes_before(&self, other: &Self) -> (r: bool) {
        self.bytes > other.bytes || (self.bytes == other.bytes && path_less(self.path.as_str(), other.path.as_str()))
    }
}

impl Ranked for FileMatch {
    open spec fn ranks_before(self, other: Self) -> bool {
        larger_first(self.bytes, self.path@, other.bytes, other.path@)
    }

    proof fn lemma_irreflexive(a: Self) {
        lemma_larger_first_irreflexive(a.bytes, a.path@);
    }

    proof fn lemma_transitive(a: Self, b: Self, c: Self) {
        lemma_larger_first_transitive(a.bytes, a.path@, b.bytes, b.path@, c.bytes, c.path@);
    }

    proof fn lemma_negatively_transitive(a: Self, b: Self, c: Self) {
        lemma_larger_first_negatively_transitive(a.bytes, a.path@, b.bytes, b.path@, c.bytes, c.path@);
    }

    fn goes_before(&self, other: &Self) -> (r: bool) {
        self.bytes > other.bytes || (self.bytes == other.bytes && path_less(self.path.as_str(), other.path.as_str()))
    }
}

impl Ranked for DuplicateGroup {
    open spec fn ranks_before(self, other: Self) -> bool {
        self.reclaimable_bytes > other.reclaimable_bytes
    }

    proof fn lemma_irreflexive(a: Self) {
    }

    proof fn lemma_transitive(a: Self, b: Self, c: Self) {
    }

    proof fn lemma_negatively_transitive(a: Self, b: Self, c: Self) {
    }

    fn goes_before(&self, other: &Self) -> (r: bool) {
        self.reclaimable_bytes > other.reclaimable_bytes
    }
}

/// Orders entries by size, largest first, and entries of one size by path.
pub fn sort_largest_first(entries: &mut Vec<DiskEntry>)
    ensures
        stably_sorted(final(entries)@, old(entries)@),
{
    sort_ranked(entries);
}

/// The space a filesystem can hold for use: used plus available, saturated
/// at the largest `u64`; one where that is nothing (the fill then reads as 0).
pub open spec fn usable_space(e: FilesystemEntry) -> int {
    let u = e.used_bytes.saturating_add(e.available_bytes);
    if u == 0 {
        1
    } else {
        u as int
    }
}

/// `a` is fuller than `b`: a larger share of its usable space is used.
pub open spec fn fuller(a: FilesystemEntry, b: FilesystemEntry) -> bool {
    a.used_bytes * usable_space(b) > b.used_bytes * usable_space(a)
}

/// `a` and `b` are equally full.
pub open spec fn equally_full(a: FilesystemEntry, b: FilesystemEntry) -> bool {
    a.used_bytes * usable_space(b) == b.used_bytes * usable_space(a)
}

/// Comparing fractions `x / d` by cross products is transitive.
proof fn lemma_fraction_order(x1: int, d1: int, x2: int, d2: int, x3: int, d3: int)
    requires
        d1 > 0,
        d2 > 0,
        d3 > 0,
    ensures
        x1 * d2 >= x2 * d1 && x2 * d3 >= x3 * d2 ==> x1 * d3 >= x3 * d1,
        x1 * d2 > x2 * d1 && x2 * d3 >= x3 * d2 ==> x1 * d3 > x3 * d1,
        x1 * d2 >= x2 * d1 && x2 * d3 > x3 * d2 ==> x1 * d3 > x3 * d1,
{
    let a = x1 * d2 - x2 * d1;
    let b = x2 * d3 - x3 * d2;
    let c = x1 * d3 - x3 * d1;
    assert(a * d3 + b * d1 == c * d2) by (nonlinear_arith)
        requires
            a == x1 * d2 - x2 * d1,
            b == x2 * d3 - x3 * d2,
            c == x1 * d3 - x3 * d1,
    ;
    if a >= 0 && b >= 0 {
        assert(a * d3 >= 0 && b * d1 >= 0) by (nonlinear_arith)
            requires
                a >= 0,
                b >= 0,
                d1 > 0,
                d3 > 0,
        ;
        assert(c >= 0) by (nonlinear_arith)
            requires
                c * d2 >= 0,
                d2 > 0,
        ;
        if a > 0 || b > 0 {
            assert(a * d3 > 0 || b * d1 > 0) by (nonlinear_arith)
                requires
                    a > 0 || b > 0,
                    a >= 0,
                    b >= 0,
                    d1 > 0,
                    d3 > 0,
            ;
            assert(c > 0) by (nonlinear_arith)
                requires
                    c * d2 > 0,
                    d2 > 0,
            ;
        }
    }
}

proof fn lemma_fill_orders(a: FilesystemEntry, b: FilesystemEntry, c: FilesystemEntry)
    ensures
        !fuller(b, a) && !fuller(c, b) ==> !fuller(c, a),
        fuller(a, b) && !fuller(c, b) ==> fuller(a, c),
        !fuller(b, a) && fuller(b, c) ==> fuller(a, c),
        equally_full(a, b) && equally_full(b, c) ==> equally_full(a, c),
        !fuller(a, b) && !fuller(b, c) ==> !fuller(a, c),
        fuller(b, a) && equally_full(a, c) ==> fuller(b, c),
        fuller(c, b) && equally_full(a, c) ==> fuller(a, b),
        equally_full(a, b) <==> !fuller(a, b) && !fuller(b, a),
        equally_full(b, c) <==> !fuller(b, c) && !fuller(c, b),
        equally_full(a, c) <==> !fuller(a, c) && !fuller(c, a),
{
    lemma_fill_order(a, b, c);
    lemma_fill_order(c, b, a);
    lemma_fill_order(b, a, c);
    lemma_fill_order(a, c, b);
    lemma_fill_order(b, c, a);
    lemma_fill_order(c, a, b);
}

proof fn lemma_fill_order(a: FilesystemEntry, b: FilesystemEntry, c: FilesystemEntry)
    ensures
        !fuller(b, a) && !fuller(c, b) ==> !fuller(c, a),
        fuller(a, b) && !fuller(c, b) ==> fuller(a, c),
        !fuller(b, a) && fuller(b, c) ==> fuller(a, c),
        equally_full(a, b) && equally_full(b, c) ==> equally_full(a, c),
        equally_full(a, b) <==> !fuller(a, b) && !fuller(b, a),
{
    lemma_fraction_order(
        a.used_bytes as int,
        usable_space(a),
        b.used_bytes as int,
        usable_space(b),
        c.used_bytes as int,
        usable_space(c),
    );
    lemma_fraction_order(
        c.used_bytes as int,
        usable_space(c),
        b.used_bytes as int,
        usable_space(b),
        a.used_bytes as int,
        usable_space(a),
    );
}

impl Ranked for FilesystemEntry {
    /// Fuller first; equally full ones by mount point.
    open spec fn ranks_before(self, other: Self) -> bool {
        fuller(self, other) || (equally_full(self, other) && path_lt(self.mount_point@, other.mount_point@))
    }

    proof fn lemma_irreflexive(a: Self) {
        lemma_keys_irreflexive(path_key(a.mount_point@));
    }

    proof fn lemma_transitive(a: Self, b: Self, c: Self) {
        lemma_fill_orders(a, b, c);
        if equally_full(a, b) && equally_full(b, c) {
            lemma_keys_transitive(path_key(a.mount_point@), path_key(b.mount_point@), path_key(c.mount_point@));
        }
    }

    proof fn lemma_negatively_transitive(a: Self, b: Self, c: Self) {
        lemma_fill_orders(a, b, c);
        if equally_full(a, b) && equally_full(b, c) {
            let (ka, kb, kc) = (path_key(a.mount_point@), path_key(b.mount_point@), path_key(c.mount_point@));
            lemma_keys_total(ka, kb);
            if keys_lt(kb, ka) {
                lemma_keys_transitive(kb, ka, kc);
            }
        }
    }

    fn goes_before(&self, other: &Self) -> (r: bool) {
        let ua = self.used_bytes.saturating_add(self.available_bytes);
        let ub = other.used_bytes.saturating_add(other.available_bytes);
        let da: u128 = if ua == 0 { 1 } else { ua as u128 };
        let db: u128 = if ub == 0 { 1 } else { ub as u128 };
        assert((self.used_bytes as u128) * db <= u64::MAX * u64::MAX) by (nonlinear_arith)
            requires
                db <= u64::MAX,
                self.used_bytes <= u64::MAX,
        ;
        assert((other.used_bytes as u128) * da <= u64::MAX * u64::MAX) by (nonlinear_arith)
            requires
                da <= u64::MAX,
                other.used_bytes <= u64::MAX,
        ;
        let left = (self.used_bytes as u128) * db;
        let right = (other.used_bytes as u128) * da;
        left > right || (left == right && path_less(self.mount_point.as_str(), other.mount_point.as_str()))
    }
}

/// Orders filesystems fullest first, and equally full ones by mount point.
pub fn sort_filesystems(report: &mut FilesystemReport)
    ensures
        stably_sorted(final(report).filesystems@, old(report).filesystems@),
{
    sort_ranked(&mut report.filesystems);
}

/// A directory that may be reported: what it is, where, why, and whether it
/// can be made again.
#[derive(Clone, Debug)]
pub struct ArtifactCandidate {
    pub category: String,
    pub path: String,
    pub reason: String,
    pub regeneratable: Option<bool>,
}

/// A candidate as plain values: (category, path, reason, regeneratable).
pub type ArtifactView = (Seq<char>, Seq<char>, Seq<char>, Option<bool>);

impl View for ArtifactCandidate {
    type V = ArtifactView;

    open spec fn view(&self) -> ArtifactView {
        (self.category@, self.path@, self.reason@, self.regeneratable)
    }
}

pub open spec fn artifact_views(v: Seq<ArtifactCandidate>) -> Seq<ArtifactView> {
    v.map_values(|c: ArtifactCandidate| c@)
}

/// `name` is among the names found in the project directory.
pub open spec fn present(found: Seq<String>, name: Seq<char>) -> bool {
    exists|k: int| 0 <= k < found.len() && (#[trigger] found[k])@ == name
}

/// The item, where the condition holds.
pub open spec fn when(cond: bool, item: ArtifactView) -> Seq<ArtifactView> {
    if cond {
        seq![item]
    } else {
        seq![]
    }
}

/// The build artifacts of a project, given which names exist in its
/// directory: an output directory is reported only beside the manifest that
/// makes it.
pub open spec fn project_artifacts(project: Seq<char>, found: Seq<String>) -> Seq<ArtifactView> {
    let python = present(found, "pyproject.toml"@) || present(found, "requirements.txt"@);
    when(
        present(found, "Cargo.toml"@) && present(found, "target"@),
        ("Rust build artifacts"@, join(project, "target"@), "Cargo build output for this manifest"@, Some(true)),
    ) + when(
        present(found, "package.json"@) && present(found, "node_modules"@),
        ("Node dependencies"@, join(project, "node_modules"@), "installed dependencies declared by package.json"@, Some(true)),
    ) + when(
        present(found, "CMakeLists.txt"@) && present(found, "build"@),
        ("CMake build artifacts"@, join(project, "build"@), "generated output for CMakeLists.txt"@, Some(true)),
    ) + when(
        python && present(found, ".venv"@),
        ("Python virtual environment"@, join(project, ".venv"@), "environment associated with this Python project"@, None),
    ) + when(
        python && present(found, "venv"@),
        ("Python virtual environment"@, join(project, "venv"@), "environment associated with this Python project"@, None),
    ) + when(
        present(found, "wandb/latest-run"@),
        ("Weights & Biases runs"@, join(project, "wandb"@), "local W&B run metadata"@, Some(false)),
    )
}

proof fn lemma_when_concat(a: Seq<ArtifactView>, cond: bool, item: ArtifactView, x: ArtifactView)
    ensures
        (a + when(cond, item)).contains(x) <==> (a.contains(x) || (cond && x == item)),
{
    let s = a + when(cond, item);
    if s.contains(x) {
        let k = choose|k: int| 0 <= k < s.len() && s[k] == x;
        if k < a.len() {
            assert(a[k] == s[k]);
        }
    }
    if a.contains(x) {
        let k = choose|k: int| 0 <= k < a.len() && a[k] == x;
        assert(s[k] == a[k]);
    }
    if cond && x == item {
        assert(s[a.len() as int] == item);
    }
}

/// Each build output is reported exactly when it stands beside the manifest
/// that makes it, and nothing else is reported: `target` beside `Cargo.toml`,
/// `node_modules` beside `package.json`, `build` beside `CMakeLists.txt`,
/// `.venv` or `venv` beside `pyproject.toml` or `requirements.txt`, and
/// `wandb` where `wandb/latest-run` exists.
pub proof fn lemma_artifacts_follow_manifests(project: Seq<char>, found: Seq<String>, x: ArtifactView)
    ensures
        project_artifacts(project, found).contains(x) <==> {
            let python = present(found, "pyproject.toml"@) || present(found, "requirements.txt"@);
            ||| (present(found, "Cargo.toml"@) && present(found, "target"@) && x == (
                "Rust build artifacts"@,
                join(project, "target"@),
                "Cargo build output for this manifest"@,
                Some(true),
            ))
            ||| (present(found, "package.json"@) && present(found, "node_modules"@) && x == (
                "Node dependencies"@,
                join(project, "node_modules"@),
                "installed dependencies declared by package.json"@,
                Some(true),
            ))
            ||| (present(found, "CMakeLists.txt"@) && present(found, "build"@) && x == (
                "CMake build artifacts"@,
                join(project, "build"@),
                "generated output for CMakeLists.txt"@,
                Some(true),
            ))
            ||| (python && present(found, ".venv"@) && x == (
                "Python virtual environment"@,
                join(project, ".venv"@),
                "environment associated with this Python project"@,
                None::<bool>,
            ))
            ||| (python && present(found, "venv"@) && x == (
                "Python virtual environment"@,
                join(project, "venv"@),
                "environment associated with this Python project"@,
                None::<bool>,
            ))
            ||| (present(found, "wandb/latest-run"@) && x == (
                "Weights & Biases runs"@,
                join(project, "wandb"@),
                "local W&B run metadata"@,
                Some(false),
            ))
        },
{
    let python = present(found, "pyproject.toml"@) || present(found, "requirements.txt"@);
    let w1 = when(
        present(found, "Cargo.toml"@) && present(found, "target"@),
        ("Rust build artifacts"@, join(project, "target"@), "Cargo build output for this manifest"@, Some(true)),
    );
    assert(w1.contains(x) <==> (present(found, "Cargo.toml"@) && present(found, "target"@) && x == (
        "Rust build artifacts"@,
        join(project, "target"@),
        "Cargo build output for this manifest"@,
        Some(true),
    ))) by {
        if w1.contains(x) {
            let k = choose|k: int| 0 <= k < w1.len() && w1[k] == x;
        }
        if present(found, "Cargo.toml"@) && present(found, "target"@) {
            assert(w1[0] == w1[0]);
        }
    }
    let i2 = ("Node dependencies"@, join(project, "node_modules"@), "installed dependencies declared by package.json"@, Some(true));
    let c2 = present(found, "package.json"@) && present(found, "node_modules"@);
    lemma_when_concat(w1, c2, i2, x);
    let w2 = w1 + when(c2, i2);
    let i3 = ("CMake build artifacts"@, join(project, "build"@), "generated output for CMakeLists.txt"@, Some(true));
    let c3 = present(found, "CMakeLists.txt"@) && present(found, "build"@);
    lemma_when_concat(w2, c3, i3, x);
    let w3 = w2 + when(c3, i3);
    let i4 = ("Python virtual environment"@, join(project, ".venv"@), "environment associated with this Python project"@, None::<bool>);
    let c4 = python && present(found, ".venv"@);
    lemma_when_concat(w3, c4, i4, x);
    let w4 = w3 + when(c4, i4);
    let i5 = ("Python virtual environment"@, join(project, "venv"@), "environment associated with this Python project"@, None::<bool>);
    let c5 = python && present(found, "venv"@);
    lemma_when_concat(w4, c5, i5, x);
    let w5 = w4 + when(c5, i5);
    let i6 = ("Weights & Biases runs"@, join(project, "wandb"@), "local W&B run metadata"@, Some(false));
    let c6 = present(found, "wandb/latest-run"@);
    lemma_when_concat(w5, c6, i6, x);
    assert(project_artifacts(project, found) == w5 + when(c6, i6));
}

/// The names in a project directory whose existence `project_candidates` asks about.
pub fn project_probe_names() -> (r: Vec<&'static str>)
    ensures
        r@.map_values(|s: &'static str| s@) == seq![
            "Cargo.toml"@,
            "target"@,
            "package.json"@,
            "node_modules"@,
            "CMakeLists.txt"@,
            "build"@,
            "pyproject.toml"@,
            "requirements.txt"@,
            ".venv"@,
            "venv"@,
            "wandb/latest-run"@,
        ],
{
    let mut r: Vec<&'static str> = Vec::new();
    r.push("Cargo.toml");
    r.push("target");
    r.push("package.json");
    r.push("node_modules");
    r.push("CMakeLists.txt");
    r.push("build");
    r.push("pyproject.toml");
    r.push("requirements.txt");
    r.push(".venv");
    r.push("venv");
    r.push("wandb/latest-run");
    assert(r@.map_values(|s: &'static str| s@) =~= seq![
        "Cargo.toml"@,
        "target"@,
        "package.json"@,
        "node_modules"@,
        "CMakeLists.txt"@,
        "build"@,
        "pyproject.toml"@,
        "requirements.txt"@,
        ".venv"@,
        "venv"@,
        "wandb/latest-run"@,
    ]);
    r
}

fn is_present(found: &Vec<String>, name: &str) -> (r: bool)
    ensures
        r == present(found@, name@),
{
    let mut k: usize = 0;
    while k < found.len()
        invariant
            k <= found.len(),
            forall|j: int| 0 <= j < k ==> (#[trigger] found@[j])@ != name@,
        decreases found.len() - k,
    {
        if text_eq(found[k].as_str(), name) {
            return true;
        }
        k += 1;
    }
    false
}

fn candidate(category: &str, path: String, reason: &str, regeneratable: Option<bool>) -> (r: ArtifactCandidate)
    ensures
        r@ == (category@, path@, reason@, regeneratable),
{
    ArtifactCandidate {
        category: String::from_str(category),
        path,
        reason: String::from_str(reason),
        regeneratable,
    }
}

fn add_when(out: &mut Vec<ArtifactCandidate>, cond: bool, c: ArtifactCandidate)
    ensures
        artifact_views(final(out)@) == artifact_views(old(out)@) + when(cond, c@),
{
    let ghost before = artifact_views(out@);
    if cond {
        let ghost cv = c@;
        out.push(c);
        assert(artifact_views(out@) =~= before + seq![cv]);
    } else {
        assert(artifact_views(out@) =~= before + Seq::<ArtifactView>::empty());
    }
}

/// The build artifacts of the project at `project`, given the names (of
/// `project_probe_names`) that exist in it.
pub fn project_candidates(project: &str, found: &Vec<String>) -> (r: Vec<ArtifactCandidate>)
    ensures
        artifact_views(r@) == project_artifacts(project@, found@),
{
    let mut out: Vec<ArtifactCandidate> = Vec::new();
    let python = is_present(found, "pyproject.toml") || is_present(found, "requirements.txt");
    let c1 = is_present(found, "Cargo.toml") && is_present(found, "target");
    add_when(
        &mut out,
        c1,
        candidate("Rust build artifacts", join_path(project, "target"), "Cargo build output for this manifest", Some(true)),
    );
    let c2 = is_present(found, "package.json") && is_present(found, "node_modules");
    add_when(
        &mut out,
        c2,
        candidate("Node dependencies", join_path(project, "node_modules"), "installed dependencies declared by package.json", Some(true)),
    );
    let c3 = is_present(found, "CMakeLists.txt") && is_present(found, "build");
    add_when(
        &mut out,
        c3,
        candidate("CMake build artifacts", join_path(project, "build"), "generated output for CMakeLists.txt", Some(true)),
    );
    let c4 = python && is_present(found, ".venv");
    add_when(
        &mut out,
        c4,
        candidate("Python virtual environment", join_path(project, ".venv"), "environment associated with this Python project", None),
    );
    let c5 = python && is_present(found, "venv");
    add_when(
        &mut out,
        c5,
        candidate("Python virtual environment", join_path(project, "venv"), "environment associated with this Python project", None),
    );
    let c6 = is_present(found, "wandb/latest-run");
    add_when(
        &mut out,
        c6,
        candidate("Weights & Biases runs", join_path(project, "wandb"), "local W&B run metadata", Some(false)),
    );
    assert(artifact_views(Seq::<ArtifactCandidate>::empty()) =~= Seq::<ArtifactView>::empty());
    assert(artifact_views(out@) =~= project_artifacts(project@, found@));
    out
}

/// A cache's row: (category, variable that may name it, place under the home
/// directory otherwise, reason, regeneratable).
pub type CacheRow = (Seq<char>, Option<Seq<char>>, Seq<char>, Seq<char>, Option<bool>);

/// The caches that are looked for, in order.
pub open spec fn cache_table() -> Seq<CacheRow> {
    seq![
        ("pip cache"@, Some("PIP_CACHE_DIR"@), ".cache/pip"@, "package download and build cache"@, Some(true)),
        ("uv cache"@, Some("UV_CACHE_DIR"@), ".cache/uv"@, "downloaded and built Python packages"@, Some(true)),
        ("Hugging Face hub cache"@, None, ".cache/huggingface/hub"@, "downloaded model and dataset artifacts from the Hub"@, Some(true)),
        ("Hugging Face datasets cache"@, None, ".cache/huggingface/datasets"@, "prepared datasets cache"@, Some(true)),
        ("Hugging Face Xet cache"@, None, ".cache/huggingface/xet"@, "downloaded Xet chunks"@, Some(true)),
        ("Cargo registry cache"@, None, ".cargo/registry/cache"@, "downloaded crate archives"@, Some(true)),
        ("npm cache"@, Some("NPM_CONFIG_CACHE"@), ".npm/_cacache"@, "downloaded npm package cache"@, Some(true)),
        ("pnpm store"@, None, ".local/share/pnpm/store"@, "content-addressed package store"@, Some(true)),
        ("Yarn cache"@, Some("YARN_CACHE_FOLDER"@), ".cache/yarn"@, "downloaded Yarn package cache"@, Some(true)),
        ("Gradle cache"@, None, ".gradle/caches"@, "downloaded dependencies and build cache"@, Some(true)),
        ("Conda package cache"@, None, ".conda/pkgs"@, "downloaded and extracted Conda packages"@, None),
    ]
}

/// Where a cache is, given the environment (name, value): the directory its
/// variable names, else its place under `HOME`, else nowhere.
pub open spec fn detected(row: CacheRow, env: Seq<(String, String)>) -> Seq<ArtifactView> {
    let configured = match row.1 {
        Some(v) => lookup(env, v),
        None => None,
    };
    let place = match configured {
        Some(c) => Some(c),
        None => match lookup(env, "HOME"@) {
            Some(h) => Some(join(h, row.2)),
            None => None,
        },
    };
    match place {
        Some(p) => seq![(row.0, p, row.3, row.4)],
        None => seq![],
    }
}

/// The caches of each row, in order.
pub open spec fn detections(rows: Seq<CacheRow>, env: Seq<(String, String)>) -> Seq<ArtifactView>
    decreases rows.len(),
{
    if rows.len() == 0 {
        seq![]
    } else {
        detections(rows.drop_last(), env) + detected(rows.last(), env)
    }
}

/// The caches that `CONDA_PREFIX` and `HF_HOME` point at.
pub open spec fn named_caches(env: Seq<(String, String)>) -> Seq<ArtifactView> {
    let conda = match lookup(env, "CONDA_PREFIX"@) {
        Some(p) => seq![("Conda package cache"@, join(p, "pkgs"@), "downloaded and extracted Conda packages"@, None)],
        None => seq![],
    };
    let hf = match lookup(env, "HF_HOME"@) {
        Some(h) => seq![
            ("Hugging Face hub cache"@, join(h, "hub"@), "downloaded model and dataset artifacts from the Hub"@, Some(true)),
            ("Hugging Face datasets cache"@, join(h, "datasets"@), "prepared datasets cache"@, Some(true)),
            ("Hugging Face Xet cache"@, join(h, "xet"@), "downloaded Xet chunks"@, Some(true)),
        ],
        None => seq![],
    };
    conda + hf
}

/// The candidates, each path kept at its first appearance.
pub open spec fn first_by_path(s: Seq<ArtifactView>) -> Seq<ArtifactView>
    decreases s.len(),
{
    if s.len() == 0 {
        seq![]
    } else {
        let prev = first_by_path(s.drop_last());
        if exists|k: int| 0 <= k < prev.len() && path_key(#[trigger] prev[k].1) == path_key(s.last().1) {
            prev
        } else {
            prev.push(s.last())
        }
    }
}

/// The caches on this machine that may be reported, given the environment.
pub open spec fn cache_artifacts(env: Seq<(String, String)>) -> Seq<ArtifactView> {
    first_by_path(detections(cache_table(), env) + named_caches(env))
}

/// A cache that can be looked for.
#[derive(Clone, Copy, Debug)]
pub struct CacheProvider {
    pub category: &'static str,
    pub variable: Option<&'static str>,
    pub fallback: &'static str,
    pub reason: &'static str,
    pub regeneratable: Option<bool>,
}

impl CacheProvider {
    pub open spec fn row(self) -> CacheRow {
        (
            self.category@,
            match self.variable {
                Some(v) => Some(v@),
                None => None,
            },
            self.fallback@,
            self.reason@,
            self.regeneratable,
        )
    }

    /// Where this cache is, given the environment (name, value).
    pub fn detect(&self, env: &Vec<(String, String)>) -> (r: Vec<ArtifactCandidate>)
        ensures
            artifact_views(r@) == detected(self.row(), env@),
    {
        let configured = match self.variable {
            Some(v) => get_last(env, v),
            None => None,
        };
        let place = match configured {
            Some(c) => Some(c),
            None => match get_last(env, "HOME") {
                Some(h) => Some(join_path(h.as_str(), self.fallback)),
                None => None,
            },
        };
        let mut r: Vec<ArtifactCandidate> = Vec::new();
        match place {
            Some(p) => {
                let c = candidate(self.category, p, self.reason, self.regeneratable);
                r.push(c);
                assert(artifact_views(r@) =~= seq![c@]);
            },
            None => {
                assert(artifact_views(r@) =~= Seq::<ArtifactView>::empty());
            },
        }
        r
    }
}

fn provider(
    category: &'static str,
    variable: Option<&'static str>,
    fallback: &'static str,
    reason: &'static str,
    regeneratable: Option<bool>,
) -> (r: CacheProvider)
    ensures
        r == (CacheProvider { category, variable, fallback, reason, regeneratable }),
{
    CacheProvider { category, variable, fallback, reason, regeneratable }
}

/// The caches that are looked for, in order.
pub fn cache_providers() -> (r: Vec<CacheProvider>)
    ensures
        r@.map_values(|p: CacheProvider| p.row()) == cache_table(),
{
    let mut r: Vec<CacheProvider> = Vec::new();
    r.push(provider("pip cache", Some("PIP_CACHE_DIR"), ".cache/pip", "package download and build cache", Some(true)));
    r.push(provider("uv cache", Some("UV_CACHE_DIR"), ".cache/uv", "downloaded and built Python packages", Some(true)));
    r.push(provider("Hugging Face hub cache", None, ".cache/huggingface/hub", "downloaded model and dataset artifacts from the Hub", Some(true)));
    r.push(provider("Hugging Face datasets cache", None, ".cache/huggingface/datasets", "prepared datasets cache", Some(true)));
    r.push(provider("Hugging Face Xet cache", None, ".cache/huggingface/xet", "downloaded Xet chunks", Some(true)));
    r.push(provider("Cargo registry cache", None, ".cargo/registry/cache", "downloaded crate archives", Some(true)));
    r.push(provider("npm cache", Some("NPM_CONFIG_CACHE"), ".npm/_cacache", "downloaded npm package cache", Some(true)));
    r.push(provider("pnpm store", None, ".local/share/pnpm/store", "content-addressed package store", Some(true)));
    r.push(provider("Yarn cache", Some("YARN_CACHE_FOLDER"), ".cache/yarn", "downloaded Yarn package cache", Some(true)));
    r.push(provider("Gradle cache", None, ".gradle/caches", "downloaded dependencies and build cache", Some(true)));
    r.push(provider("Conda package cache", None, ".conda/pkgs", "downloaded and extracted Conda packages", None));
    assert(r@.map_values(|p: CacheProvider| p.row()) =~= cache_table());
    r
}

/// Adds `c` unless a candidate with its path is already there.
fn push_first(out: &mut Vec<ArtifactCandidate>, c: ArtifactCandidate, Ghost(seen): Ghost<Seq<ArtifactView>>)
    requires
        artifact_views(old(out)@) == first_by_path(seen),
    ensures
        artifact_views(final(out)@) == first_by_path(seen.push(c@)),
{
    let ghost s1 = seen.push(c@);
    assert(s1.drop_last() =~= seen);
    let ghost prev = artifact_views(out@);
    let mut k: usize = 0;
    while k < out.len()
        invariant
            k <= out.len(),
            prev == artifact_views(out@),
            prev == first_by_path(seen),
            s1 == seen.push(c@),
            forall|j: int| 0 <= j < k ==> path_key(#[trigger] prev[j].1) != path_key(c@.1),
        decreases out.len() - k,
    {
        assert(prev[k as int] == out@[k as int]@);
        if path_eq(out[k].path.as_str(), c.path.as_str()) {
            assert(path_key(prev[k as int].1) == path_key(s1.last().1));
            assert(s1.drop_last() =~= seen);
            assert(first_by_path(s1) == prev);
            return;
        }
        k += 1;
    }
    let ghost cv = c@;
    out.push(c);
    assert(artifact_views(out@) =~= prev.push(cv));
}

fn candidate_owned(category: String, path: String, reason: String, regeneratable: Option<bool>) -> (r: ArtifactCandidate)
    ensures
        r@ == (category@, path@, reason@, regeneratable),
{
    ArtifactCandidate { category, path, reason, regeneratable }
}

/// The caches on this machine that may be reported, given the environment
/// (name, value): each provider's, then Conda's under `CONDA_PREFIX` and the
/// Hugging Face ones under `HF_HOME`, each path once.
pub fn cache_candidates(env: &Vec<(String, String)>) -> (r: Vec<ArtifactCandidate>)
    ensures
        artifact_views(r@) == cache_artifacts(env@),
{
    let providers = cache_providers();
    let ghost table = cache_table();
    let mut out: Vec<ArtifactCandidate> = Vec::new();
    let ghost mut seen: Seq<ArtifactView> = Seq::empty();
    let mut i: usize = 0;
    assert(providers@.map_values(|p: CacheProvider| p.row()).len() == providers@.len());
    while i < providers.len()
        invariant
            i <= providers.len(),
            providers@.map_values(|p: CacheProvider| p.row()) == table,
            table == cache_table(),
            seen == detections(table.take(i as int), env@),
            artifact_views(out@) == first_by_path(seen),
        decreases providers.len() - i,
    {
        assert(table[i as int] == providers@[i as int].row());
        assert(table.take(i + 1).drop_last() =~= table.take(i as int));
        let found = providers[i].detect(env);
        let ghost mut j: int = 0;
        let mut found = found;
        let ghost fv = artifact_views(found@);
        let ghost base = seen;
        assert(fv.skip(0) =~= fv);
        assert(base + fv.take(0) =~= base);
        while found.len() > 0
            invariant
                0 <= j <= fv.len(),
                found@.len() + j == fv.len(),
                artifact_views(found@) == fv.skip(j),
                seen == base + fv.take(j),
                artifact_views(out@) == first_by_path(seen),
            decreases found.len(),
        {
            let ghost before_found = found@;
            let c = found.remove(0);
            assert(c == before_found[0]);
            assert(artifact_views(before_found)[0] == before_found[0]@);
            assert(c@ == fv[j]);
            push_first(&mut out, c, Ghost(seen));
            proof {
                seen = seen.push(fv[j]);
                assert(seen =~= base + fv.take(j + 1));
                assert(found@ =~= before_found.skip(1));
                assert(artifact_views(found@) =~= artifact_views(before_found).skip(1));
                assert(fv.skip(j).skip(1) =~= fv.skip(j + 1));
                j = j + 1;
            }
        }
        proof {
            assert(fv.take(j) =~= fv);
        }
        i += 1;
    }
    assert(table.take(providers.len() as int) =~= table);
    let ghost main = seen;
    let ghost extra: Seq<ArtifactView> = Seq::empty();
    match get_last(env, "CONDA_PREFIX") {
        Some(p) => {
            let c = candidate_owned(
                String::from_str("Conda package cache"),
                join_path(p.as_str(), "pkgs"),
                String::from_str("downloaded and extracted Conda packages"),
                None,
            );
            proof {
                extra = extra.push(c@);
            }
            push_first(&mut out, c, Ghost(seen));
            proof {
                seen = seen.push(extra.last());
            }
        },
        None => {},
    }
    match get_last(env, "HF_HOME") {
        Some(h) => {
            let c = candidate("Hugging Face hub cache", join_path(h.as_str(), "hub"), "downloaded model and dataset artifacts from the Hub", Some(true));
            proof {
                extra = extra.push(c@);
            }
            push_first(&mut out, c, Ghost(seen));
            proof {
                seen = seen.push(extra.last());
            }
            let c = candidate("Hugging Face datasets cache", join_path(h.as_str(), "datasets"), "prepared datasets cache", Some(true));
            proof {
                extra = extra.push(c@);
            }
            push_first(&mut out, c, Ghost(seen));
            proof {
                seen = seen.push(extra.last());
            }
            let c = candidate("Hugging Face Xet cache", join_path(h.as_str(), "xet"), "downloaded Xet chunks", Some(true));
            proof {
                extra = extra.push(c@);
            }
            push_first(&mut out, c, Ghost(seen));
            proof {
                seen = seen.push(extra.last());
            }
        },
        None => {},
    }
    assert(extra =~= named_caches(env@));
    assert(seen =~= main + extra);
    out
}

/// Sizes measured so far, by path.
#[derive(Clone, Debug, Default)]
pub struct SizeCache {
    pub entries: Vec<(String, u64)>,
}

/// The size recorded for a path equal to `p`, the first one recorded.
pub open spec fn recorded_size(entries: Seq<(String, u64)>, p: Seq<char>) -> Option<u64>
    decreases entries.len(),
{
    if entries.len() == 0 {
        None
    } else {
        match recorded_size(entries.drop_last(), p) {
            Some(n) => Some(n),
            None => if path_key(entries.last().0@) == path_key(p) {
                Some(entries.last().1)
            } else {
                None
            },
        }
    }
}

/// The size already measured for `path`, where there is one.
pub fn cached_size(sizes: &SizeCache, path: &str) -> (r: Option<u64>)
    ensures
        r == recorded_size(sizes.entries@, path@),
{
    let ghost e = sizes.entries@;
    let mut k: usize = 0;
    while k < sizes.entries.len()
        invariant
            k <= e.len(),
            e == sizes.entries@,
            recorded_size(e.take(k as int), path@) is None,
        decreases e.len() - k,
    {
        assert(e.take(k + 1).drop_last() =~= e.take(k as int));
        if path_eq(sizes.entries[k].0.as_str(), path) {
            proof {
                lemma_recorded_prefix(e, k as int + 1, path@);
            }
            return Some(sizes.entries[k].1);
        }
        k += 1;
    }
    assert(e.take(e.len() as int) =~= e);
    None
}

proof fn lemma_recorded_prefix(e: Seq<(String, u64)>, n: int, p: Seq<char>)
    requires
        0 <= n <= e.len(),
        recorded_size(e.take(n), p) is Some,
    ensures
        recorded_size(e, p) == recorded_size(e.take(n), p),
    decreases e.len() - n,
{
    if n < e.len() {
        assert(e.take(n + 1).drop_last() =~= e.take(n));
        lemma_recorded_prefix(e, n + 1, p);
    } else {
        assert(e.take(n) =~= e);
    }
}

impl SizeCache {
    /// Records the size measured for `path`.
    pub fn remember(&mut self, path: String, bytes: u64)
        ensures
            final(self).entries@ == old(self).entries@.push((path, bytes)),
    {
        self.entries.push((path, bytes));
    }
}

/// Where there is no size for `p` yet, recording one makes it the size of `p`.
pub proof fn lemma_remembered(entries: Seq<(String, u64)>, path: String, bytes: u64)
    requires
        recorded_size(entries, path@) is None,
    ensures
        recorded_size(entries.push((path, bytes)), path@) == Some(bytes),
{
    assert(entries.push((path, bytes)).drop_last() =~= entries);
}

/// A finding: a candidate with the size measured for it.
pub fn disk_entry(c: ArtifactCandidate, bytes: u64) -> (r: DiskEntry)
    ensures
        r.category == c.category,
        r.path == c.path,
        r.reason == c.reason,
        r.regeneratable == c.regeneratable,
        r.bytes == bytes,
{
    DiskEntry { category: c.category, path: c.path, bytes, reason: c.reason, regeneratable: c.regeneratable }
}

/// The entries directly in a directory, largest first, at most `count` of them.
pub fn top_entries(entries: Vec<DiskEntry>, count: usize) -> (r: Vec<DiskEntry>)
    ensures
        exists|sorted: Seq<DiskEntry>|
            stably_sorted(sorted, entries@) && r@ == if count <= sorted.len() {
                sorted.take(count as int)
            } else {
                sorted
            },
{
    let mut out = entries;
    let ghost before = out@;
    sort_largest_first(&mut out);
    let ghost sorted = out@;
    out.truncate(count);
    proof {
        assert(stably_sorted(sorted, before));
        if count <= sorted.len() {
            assert(out@ =~= sorted.take(count as int));
        }
    }
    out
}

/// What an analysis looks at: the caches (unless only the project is
/// asked for), the project's artifacts (unless only safe findings are asked
/// for), and, with neither restriction to safe findings, the `top` largest
/// entries of the project.
#[derive(Clone, Copy, Debug)]
pub struct AnalysisPlan {
    pub caches: bool,
    pub artifacts: bool,
    pub top: Option<usize>,
}

pub fn analysis_plan(project_only: bool, safe_only: bool, top_count: Option<usize>) -> (r: AnalysisPlan)
    ensures
        r.caches == !project_only,
        r.artifacts == !safe_only,
        r.top == if safe_only {
            None
        } else {
            top_count
        },
{
    AnalysisPlan { caches: !project_only, artifacts: !safe_only, top: if safe_only { None } else { top_count } }
}

/// The sum of the sizes of `s`.
pub open spec fn entry_bytes(s: Seq<DiskEntry>) -> int
    decreases s.len(),
{
    if s.len() == 0 {
        0
    } else {
        entry_bytes(s.drop_last()) + s.last().bytes
    }
}

fn sum_entry_bytes(s: &Vec<DiskEntry>) -> (r: u64)
    requires
        entry_bytes(s@) <= u64::MAX,
    ensures
        r == entry_bytes(s@),
{
    let mut total: u64 = 0;
    let mut i: usize = 0;
    while i < s.len()
        invariant
            i <= s.len(),
            total == entry_bytes(s@.take(i as int)),
            entry_bytes(s@) <= u64::MAX,
        decreases s.len() - i,
    {
        assert(s@.take(i + 1).drop_last() =~= s@.take(i as int));
        proof {
            lemma_entry_bytes_prefix(s@, i as int + 1);
        }
        total = total + s[i].bytes;
        i += 1;
    }
    assert(s@.take(s.len() as int) =~= s@);
    total
}

proof fn lemma_entry_bytes_prefix(s: Seq<DiskEntry>, n: int)
    requires
        0 <= n <= s.len(),
    ensures
        entry_bytes(s.take(n)) <= entry_bytes(s),
    decreases s.len() - n,
{
    if n < s.len() {
        lemma_entry_bytes_prefix(s, n + 1);
        assert(s.take(n + 1).drop_last() =~= s.take(n));
    } else {
        assert(s.take(n) =~= s);
    }
}

/// The report of an analysis: each list largest first, and the sizes of the
/// safe and the reviewable findings summed.
pub fn disk_report(
    filesystem: DiskInfo,
    scanned_path: String,
    safe: Vec<DiskEntry>,
    review: Vec<DiskEntry>,
    top: Vec<DiskEntry>,
    unreadable_entries: u64,
) -> (r: DiskReport)
    requires
        entry_bytes(safe@) + entry_bytes(review@) <= u64::MAX,
    ensures
        r.filesystem == filesystem,
        r.scanned_path == scanned_path,
        r.potentially_reclaimable_bytes == entry_bytes(safe@) + entry_bytes(review@),
        stably_sorted(r.safe@, safe@),
        stably_sorted(r.review@, review@),
        stably_sorted(r.top@, top@),
        r.unreadable_entries == unreadable_entries,
{
    proof {
        lemma_entry_bytes_nonnegative(safe@);
        lemma_entry_bytes_nonnegative(review@);
    }
    let total = sum_entry_bytes(&safe) + sum_entry_bytes(&review);
    let mut safe = safe;
    let mut review = review;
    let mut top = top;
    sort_largest_first(&mut safe);
    sort_largest_first(&mut review);
    sort_largest_first(&mut top);
    DiskReport {
        filesystem,
        scanned_path,
        potentially_reclaimable_bytes: total,
        safe,
        review,
        top,
        unreadable_entries,
    }
}

proof fn lemma_entry_bytes_nonnegative(s: Seq<DiskEntry>)
    ensures
        entry_bytes(s) >= 0,
    decreases s.len(),
{
    if s.len() > 0 {
        lemma_entry_bytes_nonnegative(s.drop_last());
    }
}

/// The space of the filesystem holding a path: used is total less free,
/// where both are known.
pub fn disk_info(path: String, total: Option<u64>, free: Option<u64>, available: Option<u64>) -> (r: DiskInfo)
    ensures
        r.path == path,
        r.total_bytes == total,
        r.available_bytes == available,
        r.used_bytes == match (total, free) {
            (Some(t), Some(f)) => Some(t.saturating_sub(f)),
            _ => None,
        },
{
    let used = match (total, free) {
        (Some(t), Some(f)) => Some(t.saturating_sub(f)),
        _ => None,
    };
    DiskInfo { path, total_bytes: total, used_bytes: used, available_bytes: available }
}

/// A mounted filesystem, its used space being its total less what is available.
pub fn filesystem_entry(
    name: String,
    mount_point: String,
    file_system: String,
    kind: String,
    removable: bool,
    total_bytes: u64,
    available_bytes: u64,
) -> (r: FilesystemEntry)
    ensures
        r == (FilesystemEntry {
            name,
            mount_point,
            file_system,
            kind,
            removable,
            total_bytes,
            used_bytes: total_bytes.saturating_sub(available_bytes),
            available_bytes,
        }),
{
    FilesystemEntry {
        name,
        mount_point,
        file_system,
        kind,
        removable,
        total_bytes,
        used_bytes: total_bytes.saturating_sub(available_bytes),
        available_bytes,
    }
}

/// What the walk of a tree does with one entry that it meets.
#[derive(Clone, Copy, Debug, PartialEq, Eq, Structural)]
pub enum WalkStep {
    /// Its metadata or its listing could not be read: it is counted.
    Unreadable,
    /// Passed over: a symbolic link, or an entry on another filesystem.
    Skip,
    /// A file: it is kept.
    Keep,
    /// A directory: its entries are walked in turn.
    Descend,
}

/// The walk behind file queries and duplicate detection follows no symbolic
/// link and does not leave the filesystem (device) that its root is on.
pub open spec fn spec_walk_step(
    readable: bool,
    is_symlink: bool,
    device: Option<u64>,
    root_device: Option<u64>,
    is_file: bool,
) -> WalkStep {
    if !readable {
        WalkStep::Unreadable
    } else if is_symlink || device != root_device {
        WalkStep::Skip
    } else if is_file {
        WalkStep::Keep
    } else {
        WalkStep::Descend
    }
}

/// The step for one entry of the walk, from what its metadata says.
pub fn walk_step(
    readable: bool,
    is_symlink: bool,
    device: Option<u64>,
    root_device: Option<u64>,
    is_file: bool,
) -> (r: WalkStep)
    ensures
        r == spec_walk_step(readable, is_symlink, device, root_device, is_file),
{
    let same_device = match (device, root_device) {
        (Some(a), Some(b)) => a == b,
        (None, None) => true,
        _ => false,
    };
    if !readable {
        WalkStep::Unreadable
    } else if is_symlink || !same_device {
        WalkStep::Skip
    } else if is_file {
        WalkStep::Keep
    } else {
        WalkStep::Descend
    }
}

/// The walk that measures a directory's size follows no symbolic link; it
/// does cross filesystems.
pub open spec fn spec_size_step(readable: bool, is_symlink: bool, is_file: bool) -> WalkStep {
    if !readable {
        WalkStep::Unreadable
    } else if is_symlink {
        WalkStep::Skip
    } else if is_file {
        WalkStep::Keep
    } else {
        WalkStep::Descend
    }
}

/// The step for one entry while measuring a directory, from its metadata.
pub fn size_step(readable: bool, is_symlink: bool, is_file: bool) -> (r: WalkStep)
    ensures
        r == spec_size_step(readable, is_symlink, is_file),
{
    if !readable {
        WalkStep::Unreadable
    } else if is_symlink {
        WalkStep::Skip
    } else if is_file {
        WalkStep::Keep
    } else {
        WalkStep::Descend
    }
}

/// A file met while walking a tree: its size, its age in whole seconds where
/// its modification time is known and not in the future, and that time in
/// seconds since the Unix epoch.
#[derive(Clone, Debug)]
pub struct WalkedFile {
    pub path: String,
    pub bytes: u64,
    pub age_seconds: Option<u64>,
    pub modified_unix_seconds: Option<u64>,
}

/// A file passes the filters: at least `larger_than` bytes, and at least
/// `older_than` seconds old (a file of unknown age fails an age filter).
pub open spec fn passes(bytes: u64, age: Option<u64>, older_than: Option<u64>, larger_than: Option<u64>) -> bool {
    &&& !(larger_than matches Some(min) && bytes < min)
    &&& !(older_than matches Some(min_age) && (age matches Some(a) ==> a < min_age))
}

/// The filters: with `--older-than m` alone, a file of known age `a` is kept
/// exactly when `a >= m` (older files kept, younger dropped) and a file of
/// unknown age is dropped; with `--larger-than n` alone, a file of `b` bytes
/// is kept exactly when `b >= n`; with both, a file must pass each; with
/// neither, every file is kept.
pub proof fn lemma_filters(bytes: u64, age: Option<u64>, older_than: Option<u64>, larger_than: Option<u64>)
    ensures
        forall|a: u64, m: u64| #[trigger] passes(bytes, Some(a), Some(m), None) == (a >= m),
        forall|m: u64| !#[trigger] passes(bytes, None, Some(m), None),
        forall|n: u64| #[trigger] passes(bytes, age, None, Some(n)) == (bytes >= n),
        passes(bytes, age, None, None),
        passes(bytes, age, older_than, larger_than) == (passes(bytes, age, older_than, None) && passes(
            bytes,
            age,
            None,
            larger_than,
        )),
{
}

pub fn passes_filters(bytes: u64, age: Option<u64>, older_than: Option<u64>, larger_than: Option<u64>) -> (r: bool)
    ensures
        r == passes(bytes, age, older_than, larger_than),
{
    if let Some(min) = larger_than {
        if bytes < min {
            return false;
        }
    }
    if let Some(min_age) = older_than {
        match age {
            None => {
                return false;
            },
            Some(a) => {
                if a < min_age {
                    return false;
                }
            },
        }
    }
    true
}

/// The files of a walk that pass the filters, as matches, in walk order.
pub open spec fn query_matches(walked: Seq<WalkedFile>, older_than: Option<u64>, larger_than: Option<u64>) -> Seq<FileMatch>
    decreases walked.len(),
{
    if walked.len() == 0 {
        seq![]
    } else {
        let prev = query_matches(walked.drop_last(), older_than, larger_than);
        let w = walked.last();
        if passes(w.bytes, w.age_seconds, older_than, larger_than) {
            prev.push(FileMatch { path: w.path, bytes: w.bytes, modified_unix_seconds: w.modified_unix_seconds })
        } else {
            prev
        }
    }
}

/// The sum of the sizes of `s`.
pub open spec fn match_bytes(s: Seq<FileMatch>) -> int
    decreases s.len(),
{
    if s.len() == 0 {
        0
    } else {
        match_bytes(s.drop_last()) + s.last().bytes
    }
}

proof fn lemma_match_bytes_prefix(s: Seq<FileMatch>, n: int)
    requires
        0 <= n <= s.len(),
    ensures
        0 <= match_bytes(s.take(n)) <= match_bytes(s),
    decreases s.len() - n,
{
    if n < s.len() {
        assert(s.take(n + 1).drop_last() =~= s.take(n));
        lemma_match_bytes_prefix(s, n + 1);
        lemma_match_bytes_nonnegative(s.take(n));
    } else {
        assert(s.take(n) =~= s);
        lemma_match_bytes_nonnegative(s);
    }
}

proof fn lemma_match_bytes_nonnegative(s: Seq<FileMatch>)
    ensures
        match_bytes(s) >= 0,
    decreases s.len(),
{
    if s.len() > 0 {
        lemma_match_bytes_nonnegative(s.drop_last());
    }
}

/// The report of a query: the walked files that pass the filters, largest
/// first (equal sizes by path), and their total size.
pub fn query_report(
    root: String,
    walked: Vec<WalkedFile>,
    older_than: Option<u64>,
    larger_than: Option<u64>,
    unreadable_entries: u64,
) -> (r: FileQueryReport)
    requires
        match_bytes(query_matches(walked@, older_than, larger_than)) <= u64::MAX,
    ensures
        r.root == root,
        stably_sorted(r.files@, query_matches(walked@, older_than, larger_than)),
        r.total_bytes == match_bytes(query_matches(walked@, older_than, larger_than)),
        r.unreadable_entries == unreadable_entries,
{
    let ghost all = walked@;
    let ghost want = query_matches(all, older_than, larger_than);
    let mut rest = walked;
    let mut files: Vec<FileMatch> = Vec::new();
    let mut total: u64 = 0;
    let ghost mut m: int = 0;
    assert(all.skip(0) =~= all);
    while rest.len() > 0
        invariant
            0 <= m <= all.len(),
            rest@ == all.skip(m),
            files@ == query_matches(all.take(m), older_than, larger_than),
            total == match_bytes(files@),
            want == query_matches(all, older_than, larger_than),
            match_bytes(want) <= u64::MAX,
        decreases rest.len(),
    {
        let w = rest.remove(0);
        assert(w == all[m]);
        assert(all.take(m + 1).drop_last() =~= all.take(m));
        proof {
            lemma_query_prefix(all, m + 1, older_than, larger_than);
        }
        if passes_filters(w.bytes, w.age_seconds, older_than, larger_than) {
            let f = FileMatch { path: w.path, bytes: w.bytes, modified_unix_seconds: w.modified_unix_seconds };
            proof {
                lemma_match_bytes_nonnegative(files@);
                assert(files@.push(f).drop_last() =~= files@);
            }
            total = total + f.bytes;
            files.push(f);
        }
        proof {
            m = m + 1;
        }
        assert(rest@ =~= all.skip(m));
    }
    assert(all.take(m) =~= all);
    sort_ranked(&mut files);
    FileQueryReport { root, files, total_bytes: total, unreadable_entries }
}

proof fn lemma_query_prefix(all: Seq<WalkedFile>, n: int, older_than: Option<u64>, larger_than: Option<u64>)
    requires
        0 <= n <= all.len(),
    ensures
        match_bytes(query_matches(all.take(n), older_than, larger_than)) <= match_bytes(
            query_matches(all, older_than, larger_than),
        ),
    decreases all.len() - n,
{
    if n < all.len() {
        lemma_query_prefix(all, n + 1, older_than, larger_than);
        let t = all.take(n + 1);
        assert(t.drop_last() =~= all.take(n));
        let prev = query_matches(all.take(n), older_than, larger_than);
        if passes(t.last().bytes, t.last().age_seconds, older_than, larger_than) {
            assert(prev.push(FileMatch {
                path: t.last().path,
                bytes: t.last().bytes,
                modified_unix_seconds: t.last().modified_unix_seconds,
            }).drop_last() =~= prev);
        }
    } else {
        assert(all.take(n) =~= all);
    }
}

/// The files of a walk that may have duplicates: not empty and passing the
/// filters, as (size, path), in walk order.
pub open spec fn sized_files(walked: Seq<WalkedFile>, older_than: Option<u64>, larger_than: Option<u64>) -> Seq<(u64, String)>
    decreases walked.len(),
{
    if walked.len() == 0 {
        seq![]
    } else {
        let prev = sized_files(walked.drop_last(), older_than, larger_than);
        let w = walked.last();
        if w.bytes != 0 && passes(w.bytes, w.age_seconds, older_than, larger_than) {
            prev.push((w.bytes, w.path))
        } else {
            prev
        }
    }
}

/// The sizes shared by more than one file of a walk that may have duplicates,
/// smallest first, each with its files in walk order.
pub fn size_groups(walked: Vec<WalkedFile>, older_than: Option<u64>, larger_than: Option<u64>) -> (r: Vec<(u64, Vec<String>)>)
    ensures
        shared_groups(sized_files(walked@, older_than, larger_than), r@),
{
    let ghost all = walked@;
    let mut rest = walked;
    let mut items: Vec<(u64, String)> = Vec::new();
    let ghost mut m: int = 0;
    assert(all.skip(0) =~= all);
    while rest.len() > 0
        invariant
            0 <= m <= all.len(),
            rest@ == all.skip(m),
            items@ == sized_files(all.take(m), older_than, larger_than),
        decreases rest.len(),
    {
        let w = rest.remove(0);
        assert(w == all[m]);
        assert(all.take(m + 1).drop_last() =~= all.take(m));
        if w.bytes != 0 && passes_filters(w.bytes, w.age_seconds, older_than, larger_than) {
            items.push((w.bytes, w.path));
        }
        proof {
            m = m + 1;
        }
        assert(rest@ =~= all.skip(m));
    }
    assert(all.take(m) =~= all);
    group_shared(items)
}

/// Whether each file is looked at: not when its identity (device, inode) is
/// one that an earlier file had (a hard link to a file already seen).
pub open spec fn first_identity(ids: Seq<Option<(u64, u64)>>, i: int) -> bool {
    match ids[i] {
        Some(id) => !exists|j: int| 0 <= j < i && #[trigger] ids[j] == Some(id),
        None => true,
    }
}

pub fn fresh_identities(ids: &Vec<Option<(u64, u64)>>) -> (r: Vec<bool>)
    ensures
        r@.len() == ids@.len(),
        forall|i: int| 0 <= i < ids@.len() ==> r@[i] == first_identity(ids@, i),
{
    let mut r: Vec<bool> = Vec::new();
    let mut i: usize = 0;
    while i < ids.len()
        invariant
            i <= ids.len(),
            r@.len() == i,
            forall|k: int| 0 <= k < i ==> r@[k] == first_identity(ids@, k),
        decreases ids.len() - i,
    {
        let keep = match ids[i] {
            None => true,
            Some(id) => {
                let mut j: usize = 0;
                let mut seen = false;
                while j < i
                    invariant
                        j <= i,
                        i < ids.len(),
                        ids@[i as int] == Some(id),
                        seen == exists|x: int| 0 <= x < j && #[trigger] ids@[x] == Some(id),
                    decreases i - j,
                {
                    if ids[j] == Some(id) {
                        seen = true;
                    }
                    j += 1;
                }
                !seen
            },
        };
        r.push(keep);
        i += 1;
    }
    r
}

/// `a * n`, or the largest `u64` where that does not fit.
pub open spec fn saturating_product(a: u64, n: int) -> u64 {
    if a * n > u64::MAX {
        u64::MAX
    } else {
        (a * n) as u64
    }
}

/// The files of one size, as (digest, path), in order.
pub open spec fn digest_items(hashed: Seq<(String, String)>) -> Seq<(String, String)> {
    hashed.map_values(|h: (String, String)| (h.1, h.0))
}

/// Groups of identical files among files of size `bytes_each` that could be
/// hashed (path, hex digest): each digest shared by more than one file, in
/// digest order, with the space that removing all but one would free.
pub fn hash_groups(bytes_each: u64, hashed: Vec<(String, String)>) -> (r: Vec<DuplicateGroup>)
    ensures
        exists|g: Seq<(String, Vec<String>)>|
            {
                &&& shared_groups(digest_items(hashed@), g)
                &&& r@.len() == g.len()
                &&& forall|i: int|
                    0 <= i < g.len() ==> {
                        &&& (#[trigger] r@[i]).sha256 == g[i].0
                        &&& r@[i].paths == g[i].1
                        &&& r@[i].bytes_each == bytes_each
                        &&& r@[i].reclaimable_bytes == saturating_product(bytes_each, g[i].1@.len() - 1)
                    }
            },
{
    let ghost hv = hashed@;
    let mut items: Vec<(String, String)> = Vec::new();
    let mut rest = hashed;
    let ghost mut m: int = 0;
    assert(hv.skip(0) =~= hv);
    while rest.len() > 0
        invariant
            0 <= m <= hv.len(),
            rest@ == hv.skip(m),
            items@ == digest_items(hv.take(m)),
        decreases rest.len(),
    {
        let (path, digest) = rest.remove(0);
        assert((path, digest) == hv[m]);
        items.push((digest, path));
        proof {
            m = m + 1;
        }
        assert(items@ =~= digest_items(hv.take(m)));
        assert(rest@ =~= hv.skip(m));
    }
    assert(hv.take(m) =~= hv);
    let groups = group_shared(items);
    let ghost g = groups@;
    let mut out: Vec<DuplicateGroup> = Vec::new();
    let mut left = groups;
    let ghost mut k: int = 0;
    assert(g.skip(0) =~= g);
    while left.len() > 0
        invariant
            0 <= k <= g.len(),
            left@ == g.skip(k),
            out@.len() == k,
            shared_groups(digest_items(hv), g),
            forall|i: int|
                0 <= i < k ==> {
                    &&& (#[trigger] out@[i]).sha256 == g[i].0
                    &&& out@[i].paths == g[i].1
                    &&& out@[i].bytes_each == bytes_each
                    &&& out@[i].reclaimable_bytes == saturating_product(bytes_each, g[i].1@.len() - 1)
                },
        decreases left.len(),
    {
        let (digest, paths) = left.remove(0);
        assert((digest, paths) == g[k]);
        assert(paths@.len() > 1);
        let n: u64 = (paths.len() - 1) as u64;
        let reclaimable = match bytes_each.checked_mul(n) {
            Some(v) => v,
            None => u64::MAX,
        };
        out.push(DuplicateGroup { bytes_each, reclaimable_bytes: reclaimable, sha256: digest, paths });
        proof {
            k = k + 1;
        }
        assert(left@ =~= g.skip(k));
    }
    assert(shared_groups(digest_items(hashed@), g));
    out
}

/// The sum of the reclaimable space of `s`.
pub open spec fn reclaimable_total(s: Seq<DuplicateGroup>) -> int
    decreases s.len(),
{
    if s.len() == 0 {
        0
    } else {
        reclaimable_total(s.drop_last()) + s.last().reclaimable_bytes
    }
}

proof fn lemma_reclaimable_prefix(s: Seq<DuplicateGroup>, n: int)
    requires
        0 <= n <= s.len(),
    ensures
        0 <= reclaimable_total(s.take(n)) <= reclaimable_total(s),
    decreases s.len() - n,
{
    if n < s.len() {
        assert(s.take(n + 1).drop_last() =~= s.take(n));
        lemma_reclaimable_prefix(s, n + 1);
        lemma_reclaimable_nonnegative(s.take(n));
    } else {
        assert(s.take(n) =~= s);
        lemma_reclaimable_nonnegative(s);
    }
}

proof fn lemma_reclaimable_nonnegative(s: Seq<DuplicateGroup>)
    ensures
        reclaimable_total(s) >= 0,
    decreases s.len(),
{
    if s.len() > 0 {
        lemma_reclaimable_nonnegative(s.drop_last());
    }
}

/// The report of duplicates: the groups, most reclaimable first (groups that
/// free the same space keep their order), and the space they free together.
pub fn duplicate_report(root: String, groups: Vec<DuplicateGroup>, unreadable_entries: u64) -> (r: DuplicateReport)
    requires
        reclaimable_total(groups@) <= u64::MAX,
    ensures
        r.root == root,
        stably_sorted(r.groups@, groups@),
        r.reclaimable_bytes == reclaimable_total(groups@),
        r.unreadable_entries == unreadable_entries,
{
    let mut total: u64 = 0;
    let mut i: usize = 0;
    while i < groups.len()
        invariant
            i <= groups.len(),
            total == reclaimable_total(groups@.take(i as int)),
            reclaimable_total(groups@) <= u64::MAX,
        decreases groups.len() - i,
    {
        assert(groups@.take(i + 1).drop_last() =~= groups@.take(i as int));
        proof {
            lemma_reclaimable_prefix(groups@, i as int + 1);
        }
        total = total + groups[i].reclaimable_bytes;
        i += 1;
    }
    assert(groups@.take(groups.len() as int) =~= groups@);
    let mut groups = groups;
    sort_ranked(&mut groups);
    DuplicateReport { root, groups, reclaimable_bytes: total, unreadable_entries }
}

/// The SHA-256 digest of `data`.
pub uninterp spec fn sha256(data: Seq<u8>) -> Seq<u8>;

/// `sha2::Sha256::digest`: the 32-byte SHA-256 digest of `data`.
#[verifier::external_body]
fn sha256_digest(data: &[u8]) -> (r: Vec<u8>)
    ensures
        r@ == sha256(data@),
        r@.len() == 32,
{
    sha2::Sha256::digest(data).to_vec()
}

/// The lower-case hexadecimal digit of `d` (below 16).
pub open spec fn hex_digit(d: int) -> char {
    if d < 10 {
        (48 + d) as char
    } else {
        (87 + d) as char
    }
}

/// `bytes` in lower-case hexadecimal, two digits a byte (`{:x}` of a digest).
pub open spec fn lower_hex(bytes: Seq<u8>) -> Seq<char>
    decreases bytes.len(),
{
    if bytes.len() == 0 {
        seq![]
    } else {
        lower_hex(bytes.drop_last()) + seq![hex_digit((bytes.last() / 16) as int), hex_digit((bytes.last() % 16) as int)]
    }
}

fn hex_char(d: u8) -> (r: char)
    requires
        d < 16,
    ensures
        r == hex_digit(d as int),
{
    if d < 10 {
        (48u8 + d) as char
    } else {
        (87u8 + d) as char
    }
}

pub fn lower_hex_of(bytes: &Vec<u8>) -> (r: String)
    ensures
        r@ == lower_hex(bytes@),
{
    let mut out = String::new();
    let mut i: usize = 0;
    while i < bytes.len()
        invariant
            i <= bytes.len(),
            out@ == lower_hex(bytes@.take(i as int)),
        decreases bytes.len() - i,
    {
        assert(bytes@.take(i + 1).drop_last() =~= bytes@.take(i as int));
        let b = bytes[i];
        push_char(&mut out, hex_char(b / 16));
        push_char(&mut out, hex_char(b % 16));
        i += 1;
    }
    assert(bytes@.take(bytes.len() as int) =~= bytes@);
    out
}

/// The SHA-256 digest of `data` in lower-case hexadecimal.
pub fn sha256_hex(data: &[u8]) -> (r: String)
    ensures
        r@ == lower_hex(sha256(data@)),
        r@.len() == 64,
{
    let digest = sha256_digest(data);
    let r = lower_hex_of(&digest);
    proof {
        lemma_lower_hex_len(digest@);
    }
    r
}

proof fn lemma_lower_hex_len(bytes: Seq<u8>)
    ensures
        lower_hex(bytes).len() == 2 * bytes.len(),
    decreases bytes.len(),
{
    if bytes.len() > 0 {
        lemma_lower_hex_len(bytes.drop_last());
    }
}

/// The caches that may be reported name each path once.
pub proof fn lemma_cache_paths_distinct(s: Seq<ArtifactView>)
    ensures
        forall|a: int, b: int|
            0 <= a < b < first_by_path(s).len() ==> path_key(first_by_path(s)[a].1) != path_key(first_by_path(s)[b].1),
    decreases s.len(),
{
    if s.len() > 0 {
        lemma_cache_paths_distinct(s.drop_last());
        let prev = first_by_path(s.drop_last());
        let r = first_by_path(s);
        assert forall|a: int, b: int| 0 <= a < b < r.len() implies path_key(r[a].1) != path_key(r[b].1) by {
            if b == prev.len() {
                assert(r[a] == prev[a]);
                if path_key(r[a].1) == path_key(r[b].1) {
                    assert(path_key(prev[a].1) == path_key(s.last().1));
                }
            } else {
                assert(r[a] == prev[a] && r[b] == prev[b]);
            }
        }
    }
}

} // verus!
