//! Comparing two snapshots field by field.
use vstd::prelude::*;

use crate::assoc::{
    entry_views, get, insert, lemma_lookup, lemma_lt_irreflexive, lemma_same_lookups, lemma_sorted_texts_equal,
    lookup, seq_lt, sorted_keys,
};
use crate::snapshot::{opt_view, Snapshot};
use crate::text::{
    chars_of, concat, decimal, decimal_string, eq_ignore_case, find_class, first_in, lower_all, same,
    same_ignore_case, slice, CharClass,
};

verus! {

/// How likely a difference is to matter for reproducing a result.
#[derive(Clone, Copy, Debug, PartialEq, Eq, Structural)]
pub enum Relevance {
    LikelyRelevant,
    Informational,
}

/// One field whose values differ between two snapshots.
#[derive(Clone, Debug)]
pub struct Difference {
    pub field: String,
    pub left: Option<String>,
    pub right: Option<String>,
    pub domain: String,
    pub relevance: Relevance,
}

/// Which fields a comparison looks at.
#[derive(Clone, Debug, Default)]
pub struct DiffOptions {
    pub only: Vec<String>,
    pub ignore_host: bool,
    pub project_only: bool,
}

/// The differences between two snapshots, ordered by field name.
#[derive(Clone, Debug)]
pub struct DiffReport {
    pub differences: Vec<Difference>,
}

impl DiffReport {
    /// At least one difference is likely relevant.
    pub fn has_relevant_differences(&self) -> (r: bool)
        ensures
            r == exists|i: int|
                0 <= i < self.differences@.len() && self.differences@[i].relevance
                    == Relevance::LikelyRelevant,
    {
        let mut i: usize = 0;
        while i < self.differences.len()
            invariant
                i <= self.differences.len(),
                forall|k: int| 0 <= k < i ==> self.differences@[k].relevance != Relevance::LikelyRelevant,
            decreases self.differences.len() - i,
        {
            if self.differences[i].relevance == Relevance::LikelyRelevant {
                return true;
            }
            i += 1;
        }
        false
    }
}

/// The domain of a field: from the text before its first dot, in any case.
pub open spec fn spec_domain(field: Seq<char>) -> Seq<char> {
    let prefix = field.take(first_in(field, CharClass::Is('.')) as int);
    if eq_ignore_case(prefix, "PyTorch"@) || eq_ignore_case(prefix, "Python"@) {
        "python"@
    } else if eq_ignore_case(prefix, "Environment"@) {
        "environment"@
    } else if eq_ignore_case(prefix, "CUDA"@) {
        "cuda"@
    } else if eq_ignore_case(prefix, "Build"@) {
        "build"@
    } else if eq_ignore_case(prefix, "Git"@) {
        "git"@
    } else if eq_ignore_case(prefix, "System"@) {
        "system"@
    } else if eq_ignore_case(prefix, "Disk"@) {
        "disk"@
    } else if eq_ignore_case(prefix, "Project"@) {
        "project"@
    } else {
        "other"@
    }
}

fn prefix_is(prefix: &Vec<char>, name: &str) -> (r: bool)
    ensures
        r == eq_ignore_case(prefix@, name@),
{
    same_ignore_case(prefix, &chars_of(name))
}

pub fn domain(field: &str) -> (r: &'static str)
    ensures
        r@ == spec_domain(field@),
{
    let f = chars_of(field);
    let end = find_class(&f, 0, CharClass::Is('.'));
    assert(f@.skip(0) =~= f@);
    let prefix = slice(&f, 0, end);
    assert(prefix@ =~= f@.take(end as int));
    if prefix_is(&prefix, "PyTorch") || prefix_is(&prefix, "Python") {
        "python"
    } else if prefix_is(&prefix, "Environment") {
        "environment"
    } else if prefix_is(&prefix, "CUDA") {
        "cuda"
    } else if prefix_is(&prefix, "Build") {
        "build"
    } else if prefix_is(&prefix, "Git") {
        "git"
    } else if prefix_is(&prefix, "System") {
        "system"
    } else if prefix_is(&prefix, "Disk") {
        "disk"
    } else if prefix_is(&prefix, "Project") {
        "project"
    } else {
        "other"
    }
}

/// Host identity and capacity fields are informational; all others likely relevant.
pub open spec fn spec_relevance(field: Seq<char>) -> Relevance {
    if field == "System.hostname"@ || field == "System.kernel"@ || field == "Disk.total_bytes"@
        || field == "Project.path"@ {
        Relevance::Informational
    } else {
        Relevance::LikelyRelevant
    }
}

fn is(field: &Vec<char>, name: &str) -> (r: bool)
    ensures
        r == (field@ == name@),
{
    same(field, &chars_of(name))
}

pub fn relevance(field: &str) -> (r: Relevance)
    ensures
        r == spec_relevance(field@),
{
    let f = chars_of(field);
    if is(&f, "System.hostname") || is(&f, "System.kernel") || is(&f, "Disk.total_bytes") || is(
        &f,
        "Project.path",
    ) {
        Relevance::Informational
    } else {
        Relevance::LikelyRelevant
    }
}

/// Whether a field takes part in a comparison with these options.
pub open spec fn spec_include(field: Seq<char>, only: Seq<Seq<char>>, ignore_host: bool, project_only: bool) -> bool {
    let d = spec_domain(field);
    if ignore_host && (field == "System.hostname"@ || field == "System.kernel"@) {
        false
    } else if project_only {
        d == "project"@ || d == "git"@ || d == "python"@ || d == "cuda"@ || d == "build"@ || d
            == "environment"@
    } else {
        only.len() == 0 || exists|i: int| 0 <= i < only.len() && eq_ignore_case(only[i], d)
    }
}

pub open spec fn only_views(o: DiffOptions) -> Seq<Seq<char>> {
    o.only@.map_values(|s: String| s@)
}

pub fn include_field(field: &str, options: &DiffOptions) -> (r: bool)
    ensures
        r == spec_include(field@, only_views(*options), options.ignore_host, options.project_only),
{
    let f = chars_of(field);
    if options.ignore_host && (is(&f, "System.hostname") || is(&f, "System.kernel")) {
        return false;
    }
    let d = domain(field);
    let dc = chars_of(d);
    if options.project_only {
        return is(&dc, "project") || is(&dc, "git") || is(&dc, "python") || is(&dc, "cuda") || is(
            &dc,
            "build",
        ) || is(&dc, "environment");
    }
    if options.only.len() == 0 {
        return true;
    }
    let ghost ov = only_views(*options);
    let mut i: usize = 0;
    while i < options.only.len()
        invariant
            i <= options.only.len(),
            ov == only_views(*options),
            dc@ == spec_domain(field@),
            !options.project_only,
            !(options.ignore_host && (field@ == "System.hostname"@ || field@ == "System.kernel"@)),
            options.only.len() > 0,
            forall|k: int| 0 <= k < i ==> !eq_ignore_case(ov[k], dc@),
        decreases options.only.len() - i,
    {
        assert(ov[i as int] == options.only@[i as int]@);
        if same_ignore_case(&chars_of(options.only[i].as_str()), &dc) {
            assert(eq_ignore_case(ov[i as int], dc@));
            return true;
        }
        i += 1;
    }
    false
}

/// The value that one `put` leaves for `k`: the new value where the key matches
/// and the value is present, what was there before otherwise.
pub open spec fn put_over(k: Seq<char>, key: Seq<char>, value: Option<Seq<char>>, before: Option<Seq<char>>) -> Option<Seq<char>> {
    if k == key && value is Some {
        value
    } else {
        before
    }
}

pub open spec fn bool_text(b: bool) -> Seq<char> {
    if b {
        "true"@
    } else {
        "false"@
    }
}

/// The comparable fields of a snapshot before the shell variables: each `put`
/// overrides the ones before it, in this order.
pub open spec fn base_field(s: Snapshot, k: Seq<char>) -> Option<Seq<char>> {
    let f = put_over(k, "System.OS"@, opt_view(s.system.os), None);
    let f = put_over(k, "System.hostname"@, opt_view(s.system.hostname), f);
    let f = put_over(k, "System.architecture"@, Some(s.system.architecture@), f);
    let f = put_over(k, "System.kernel"@, opt_view(s.system.kernel), f);
    let f = put_over(k, "Python.version"@, opt_view(s.python.version), f);
    let f = put_over(k, "Python.pip_version"@, opt_view(s.python.pip_version), f);
    let f = put_over(k, "Python.executable"@, opt_view(s.python.executable), f);
    let f = put_over(k, "PyTorch.version"@, opt_view(s.python.torch_version), f);
    let f = put_over(k, "PyTorch.CUDA"@, opt_view(s.python.torch_cuda), f);
    let f = put_over(k, "CUDA.nvcc"@, opt_view(s.cuda.nvcc_version), f);
    let f = put_over(k, "CUDA.driver"@, opt_view(s.cuda.driver_version), f);
    let f = put_over(k, "CUDA.driver_capability"@, opt_view(s.cuda.driver_cuda), f);
    let f = put_over(k, "CUDA.home"@, opt_view(s.cuda.cuda_home), f);
    let f = put_over(k, "Project.path"@, Some(s.project.path@), f);
    let f = put_over(k, "Build.gcc"@, opt_view(s.build.gcc.version), f);
    let f = put_over(k, "Build.g++"@, opt_view(s.build.gxx.version), f);
    let f = put_over(k, "Build.clang"@, opt_view(s.build.clang.version), f);
    let f = put_over(k, "Build.clang++"@, opt_view(s.build.clangxx.version), f);
    let f = put_over(k, "Build.cmake"@, opt_view(s.build.cmake.version), f);
    let f = put_over(k, "Build.ninja"@, opt_view(s.build.ninja.version), f);
    let f = put_over(
        k,
        "Disk.total_bytes"@,
        match s.disk.total_bytes {
            Some(t) => Some(decimal(t as nat)),
            None => None,
        },
        f,
    );
    let f = put_over(k, "Git.commit"@, opt_view(s.git.commit), f);
    let f = put_over(k, "Git.branch"@, opt_view(s.git.branch), f);
    put_over(
        k,
        "Git.dirty"@,
        match s.git.dirty {
            Some(d) => Some(bool_text(d)),
            None => None,
        },
        f,
    )
}

/// The value of shell variables entered as `Environment.NAME`, the later of two
/// equal names winning.
pub open spec fn env_field(vars: Seq<(String, String)>, k: Seq<char>, before: Option<Seq<char>>) -> Option<Seq<char>>
    decreases vars.len(),
{
    if vars.len() == 0 {
        before
    } else {
        let (name, value) = vars.last();
        if k == "Environment."@ + name@ {
            Some(value@)
        } else {
            env_field(vars.drop_last(), k, before)
        }
    }
}

/// The value that a snapshot gives a comparable field, if any.
pub open spec fn field_value(s: Snapshot, k: Seq<char>) -> Option<Seq<char>> {
    env_field(s.environment.variables@, k, base_field(s, k))
}

fn put(map: &mut Vec<(String, String)>, key: &str, value: &Option<String>)
    requires
        sorted_keys(old(map)@),
    ensures
        sorted_keys(final(map)@),
        forall|k: Seq<char>| #[trigger] lookup(final(map)@, k) == put_over(k, key@, opt_view(*value), lookup(old(map)@, k)),
{
    match value {
        Some(v) => {
            insert(map, String::from_str(key), v.clone());
        },
        None => {},
    }
}

fn put_text(map: &mut Vec<(String, String)>, key: &str, value: &String)
    requires
        sorted_keys(old(map)@),
    ensures
        sorted_keys(final(map)@),
        forall|k: Seq<char>| #[trigger] lookup(final(map)@, k) == put_over(k, key@, Some(value@), lookup(old(map)@, k)),
{
    insert(map, String::from_str(key), value.clone());
}

/// The comparable fields of a snapshot, ordered by name.
pub fn fields(s: &Snapshot) -> (out: Vec<(String, String)>)
    requires
        s.well_formed(),
    ensures
        sorted_keys(out@),
        forall|k: Seq<char>| #[trigger] lookup(out@, k) == field_value(*s, k),
{
    let mut out: Vec<(String, String)> = Vec::new();
    let ghost m0 = out@;
    put(&mut out, "System.OS", &s.system.os);
    let ghost m1 = out@;
    put(&mut out, "System.hostname", &s.system.hostname);
    let ghost m2 = out@;
    put_text(&mut out, "System.architecture", &s.system.architecture);
    let ghost m3 = out@;
    put(&mut out, "System.kernel", &s.system.kernel);
    let ghost m4 = out@;
    put(&mut out, "Python.version", &s.python.version);
    let ghost m5 = out@;
    put(&mut out, "Python.pip_version", &s.python.pip_version);
    let ghost m6 = out@;
    put(&mut out, "Python.executable", &s.python.executable);
    let ghost m7 = out@;
    put(&mut out, "PyTorch.version", &s.python.torch_version);
    let ghost m8 = out@;
    put(&mut out, "PyTorch.CUDA", &s.python.torch_cuda);
    let ghost m9 = out@;
    put(&mut out, "CUDA.nvcc", &s.cuda.nvcc_version);
    let ghost m10 = out@;
    put(&mut out, "CUDA.driver", &s.cuda.driver_version);
    let ghost m11 = out@;
    put(&mut out, "CUDA.driver_capability", &s.cuda.driver_cuda);
    let ghost m12 = out@;
    put(&mut out, "CUDA.home", &s.cuda.cuda_home);
    let ghost m13 = out@;
    put_text(&mut out, "Project.path", &s.project.path);
    let ghost m14 = out@;
    put(&mut out, "Build.gcc", &s.build.gcc.version);
    let ghost m15 = out@;
    put(&mut out, "Build.g++", &s.build.gxx.version);
    let ghost m16 = out@;
    put(&mut out, "Build.clang", &s.build.clang.version);
    let ghost m17 = out@;
    put(&mut out, "Build.clang++", &s.build.clangxx.version);
    let ghost m18 = out@;
    put(&mut out, "Build.cmake", &s.build.cmake.version);
    let ghost m19 = out@;
    put(&mut out, "Build.ninja", &s.build.ninja.version);
    let ghost m20 = out@;
    let total = match s.disk.total_bytes {
        Some(t) => Some(decimal_string(t)),
        None => None,
    };
    put(&mut out, "Disk.total_bytes", &total);
    let ghost m21 = out@;
    put(&mut out, "Git.commit", &s.git.commit);
    let ghost m22 = out@;
    put(&mut out, "Git.branch", &s.git.branch);
    let ghost m23 = out@;
    let dirty = match s.git.dirty {
        Some(d) => Some(
            if d {
                String::from_str("true")
            } else {
                String::from_str("false")
            },
        ),
        None => None,
    };
    put(&mut out, "Git.dirty", &dirty);
    assert forall|k: Seq<char>| #[trigger] lookup(out@, k) == base_field(*s, k) by {
        assert(lookup(m0, k) is None);
    }
    let ghost base = out@;
    let vars = &s.environment.variables;
    let mut i: usize = 0;
    while i < vars.len()
        invariant
            i <= vars.len(),
            sorted_keys(out@),
            *vars == s.environment.variables,
            forall|k: Seq<char>| #[trigger] lookup(out@, k) == env_field(vars@.take(i as int), k, base_field(*s, k)),
        decreases vars.len() - i,
    {
        let key = concat("Environment.", vars[i].0.as_str());
        let ghost before = out@;
        insert(&mut out, key, vars[i].1.clone());
        assert forall|k: Seq<char>| #[trigger] lookup(out@, k) == env_field(vars@.take(i + 1), k, base_field(*s, k)) by {
            assert(vars@.take(i + 1).drop_last() =~= vars@.take(i as int));
            assert(vars@.take(i + 1).last() == vars@[i as int]);
            assert(lookup(before, k) == env_field(vars@.take(i as int), k, base_field(*s, k)));
        }
        i += 1;
    }
    assert(vars@.take(vars.len() as int) =~= vars@);
    out
}

/// A field counts as a difference where the comparison includes it and the two
/// snapshots give it different values (one of them may give none).
pub open spec fn differs(left: Snapshot, right: Snapshot, o: DiffOptions, f: Seq<char>) -> bool {
    &&& spec_include(f, only_views(o), o.ignore_host, o.project_only)
    &&& field_value(left, f) != field_value(right, f)
}

/// A difference entry that describes field `d.field` of the two snapshots.
pub open spec fn describes(left: Snapshot, right: Snapshot, o: DiffOptions, d: Difference) -> bool {
    let f = d.field@;
    &&& differs(left, right, o, f)
    &&& opt_view(d.left) == field_value(left, f)
    &&& opt_view(d.right) == field_value(right, f)
    &&& d.domain@ == spec_domain(f)
    &&& d.relevance == spec_relevance(f)
}

/// The report of a comparison: exactly the differing fields, each described,
/// in increasing field order.
pub open spec fn is_comparison(left: Snapshot, right: Snapshot, o: DiffOptions, ds: Seq<Difference>) -> bool {
    &&& forall|i: int, j: int| 0 <= i < j < ds.len() ==> seq_lt(ds[i].field@, ds[j].field@)
    &&& forall|i: int| 0 <= i < ds.len() ==> describes(left, right, o, #[trigger] ds[i])
    &&& forall|f: Seq<char>| differs(left, right, o, f) ==> exists|i: int| 0 <= i < ds.len() && #[trigger] ds[i].field@ == f
}

/// Compares two snapshots on the fields that `options` selects. The capture
/// time is not a field, so it never shows as a difference.
pub fn compare_with(left: &Snapshot, right: &Snapshot, options: DiffOptions) -> (r: DiffReport)
    requires
        left.well_formed(),
        right.well_formed(),
    ensures
        is_comparison(*left, *right, options, r.differences@),
{
    let a = fields(left);
    let b = fields(right);
    let mut keys: Vec<(String, String)> = Vec::new();
    let mut i: usize = 0;
    while i < a.len()
        invariant
            i <= a.len(),
            sorted_keys(keys@),
            sorted_keys(a@),
            forall|k: Seq<char>| #[trigger] lookup(keys@, k) is Some <==> exists|j: int| 0 <= j < i && a@[j].0@ == k,
        decreases a.len() - i,
    {
        let ghost before = keys@;
        insert(&mut keys, a[i].0.clone(), String::new());
        assert forall|k: Seq<char>| #[trigger] lookup(keys@, k) is Some <==> exists|j: int| 0 <= j < i + 1 && a@[j].0@ == k by {
            if k == a@[i as int].0@ {
                assert(a@[i as int].0@ == k);
            } else {
                assert(lookup(before, k) == lookup(keys@, k));
            }
        }
        i += 1;
    }
    let mut j: usize = 0;
    while j < b.len()
        invariant
            j <= b.len(),
            sorted_keys(keys@),
            sorted_keys(b@),
            forall|k: Seq<char>| #[trigger] lookup(keys@, k) is Some <==> (exists|x: int| 0 <= x < a@.len() && a@[x].0@ == k) || (exists|y: int| 0 <= y < j && b@[y].0@ == k),
        decreases b.len() - j,
    {
        let ghost before = keys@;
        insert(&mut keys, b[j].0.clone(), String::new());
        assert forall|k: Seq<char>| #[trigger] lookup(keys@, k) is Some <==> (exists|x: int| 0 <= x < a@.len() && a@[x].0@ == k) || (exists|y: int| 0 <= y < j + 1 && b@[y].0@ == k) by {
            if k == b@[j as int].0@ {
                assert(b@[j as int].0@ == k);
            } else {
                assert(lookup(before, k) == lookup(keys@, k));
            }
        }
        j += 1;
    }
    let mut differences: Vec<Difference> = Vec::new();
    let ghost idx: Seq<int> = Seq::empty();
    let mut n: usize = 0;
    while n < keys.len()
        invariant
            n <= keys.len(),
            sorted_keys(keys@),
            sorted_keys(a@),
            sorted_keys(b@),
            forall|k: Seq<char>| #[trigger] lookup(a@, k) == field_value(*left, k),
            forall|k: Seq<char>| #[trigger] lookup(b@, k) == field_value(*right, k),
            idx.len() == differences@.len(),
            forall|p: int| 0 <= p < idx.len() ==> 0 <= #[trigger] idx[p] < n,
            forall|p: int, q: int| 0 <= p < q < idx.len() ==> idx[p] < idx[q],
            forall|p: int| 0 <= p < idx.len() ==> (#[trigger] differences@[p]).field@ == keys@[idx[p]].0@,
            forall|p: int| 0 <= p < differences@.len() ==> describes(*left, *right, options, #[trigger] differences@[p]),
            forall|m: int| 0 <= m < n && differs(*left, *right, options, #[trigger] keys@[m].0@) ==> exists|p: int| 0 <= p < idx.len() && idx[p] == m,
        decreases keys.len() - n,
    {
        let field = keys[n].0.clone();
        let ghost old_idx = idx;
        let ghost f = field@;
        assert(f == keys@[n as int].0@);
        let included = include_field(field.as_str(), &options);
        if included {
            let l = get(&a, field.as_str());
            let r = get(&b, field.as_str());
            let same_value = match (&l, &r) {
                (Some(x), Some(y)) => same(&chars_of(x.as_str()), &chars_of(y.as_str())),
                (None, None) => true,
                _ => false,
            };
            assert(opt_view(l) == field_value(*left, f));
            assert(opt_view(r) == field_value(*right, f));
            assert(same_value == (opt_view(l) == opt_view(r)));
            if !same_value {
                let d = domain(field.as_str());
                let rel = relevance(field.as_str());
                let entry = Difference { field, left: l, right: r, domain: String::from_str(d), relevance: rel };
                differences.push(entry);
                proof {
                    idx = idx.push(n as int);
                    assert(idx[old_idx.len() as int] == n);
                }
            }
        }
        proof {
            assert forall|m: int| 0 <= m < n + 1 && differs(*left, *right, options, #[trigger] keys@[m].0@) implies exists|p: int| 0 <= p < idx.len() && idx[p] == m by {
                if m < n {
                    let p = choose|p: int| 0 <= p < old_idx.len() && old_idx[p] == m;
                    assert(idx[p] == m);
                } else {
                    assert(idx[old_idx.len() as int] == n);
                }
            }
        }
        n += 1;
    }
    proof {
        assert forall|p: int, q: int| 0 <= p < q < differences@.len() implies seq_lt(
            differences@[p].field@,
            differences@[q].field@,
        ) by {
            assert(differences@[p].field@ == keys@[idx[p]].0@);
            assert(differences@[q].field@ == keys@[idx[q]].0@);
        }
        assert forall|f: Seq<char>| differs(*left, *right, options, f) implies exists|i: int|
            0 <= i < differences@.len() && #[trigger] differences@[i].field@ == f by {
            lemma_lookup(a@, f);
            lemma_lookup(b@, f);
            assert(lookup(keys@, f) is Some);
            lemma_lookup(keys@, f);
            let m = choose|m: int| 0 <= m < keys@.len() && keys@[m].0@ == f;
            assert(differs(*left, *right, options, keys@[m].0@));
            let p = choose|p: int| 0 <= p < idx.len() && idx[p] == m;
            assert(differences@[p].field@ == f);
        }
    }
    DiffReport { differences }
}

/// A snapshot compared with itself shows no difference.
pub proof fn lemma_compare_self(s: Snapshot, o: DiffOptions, ds: Seq<Difference>)
    requires
        is_comparison(s, s, o, ds),
    ensures
        ds.len() == 0,
{
    if ds.len() > 0 {
        assert(describes(s, s, o, ds[0]));
    }
}

/// Two snapshots that differ only in their capture time show no difference.
pub proof fn lemma_capture_time_ignored(a: Snapshot, b: Snapshot, o: DiffOptions, ds: Seq<Difference>)
    requires
        b == (Snapshot { captured_at: b.captured_at, ..a }),
        is_comparison(a, b, o, ds),
    ensures
        ds.len() == 0,
{
    if ds.len() > 0 {
        let f = ds[0].field@;
        assert(describes(a, b, o, ds[0]));
        assert(field_value(a, f) == field_value(b, f));
    }
}

/// Comparing the other way round reports the same fields, in the same order,
/// with the two sides swapped.
pub proof fn lemma_compare_symmetric(
    a: Snapshot,
    b: Snapshot,
    o: DiffOptions,
    d1: Seq<Difference>,
    d2: Seq<Difference>,
)
    requires
        is_comparison(a, b, o, d1),
        is_comparison(b, a, o, d2),
    ensures
        d1.len() == d2.len(),
        forall|i: int|
            0 <= i < d1.len() ==> {
                &&& (#[trigger] d1[i]).field@ == d2[i].field@
                &&& opt_view(d1[i].left) == opt_view(d2[i].right)
                &&& opt_view(d1[i].right) == opt_view(d2[i].left)
                &&& d1[i].domain@ == d2[i].domain@
                &&& d1[i].relevance == d2[i].relevance
            },
{
    let f1 = d1.map_values(|d: Difference| d.field@);
    let f2 = d2.map_values(|d: Difference| d.field@);
    assert forall|i: int| 0 <= i < f1.len() implies f2.contains(#[trigger] f1[i]) by {
        assert(describes(a, b, o, d1[i]));
        assert(differs(b, a, o, d1[i].field@));
        let j = choose|j: int| 0 <= j < d2.len() && #[trigger] d2[j].field@ == d1[i].field@;
        assert(f2[j] == f1[i]);
    }
    assert forall|j: int| 0 <= j < f2.len() implies f1.contains(#[trigger] f2[j]) by {
        assert(describes(b, a, o, d2[j]));
        assert(differs(a, b, o, d2[j].field@));
        let i = choose|i: int| 0 <= i < d1.len() && #[trigger] d1[i].field@ == d2[j].field@;
        assert(f1[i] == f2[j]);
    }
    assert forall|i: int, j: int| 0 <= i < j < f1.len() implies seq_lt(f1[i], f1[j]) by {
        assert(seq_lt(d1[i].field@, d1[j].field@));
    }
    assert forall|i: int, j: int| 0 <= i < j < f2.len() implies seq_lt(f2[i], f2[j]) by {
        assert(seq_lt(d2[i].field@, d2[j].field@));
    }
    lemma_sorted_texts_equal(f1, f2);
    assert forall|i: int| 0 <= i < d1.len() implies (#[trigger] d1[i]).field@ == d2[i].field@ by {
        assert(f1[i] == f2[i]);
    }
    assert forall|i: int| 0 <= i < d1.len() implies {
        &&& (#[trigger] d1[i]).field@ == d2[i].field@
        &&& opt_view(d1[i].left) == opt_view(d2[i].right)
        &&& opt_view(d1[i].right) == opt_view(d2[i].left)
        &&& d1[i].domain@ == d2[i].domain@
        &&& d1[i].relevance == d2[i].relevance
    } by {
        assert(describes(a, b, o, d1[i]));
        assert(describes(b, a, o, d2[i]));
    }
}

/// A host-specific field: the host name or the kernel.
pub open spec fn host_field(f: Seq<char>) -> bool {
    f == "System.hostname"@ || f == "System.kernel"@
}

/// Two entries report the same field with the same values.
pub open spec fn same_entry(d: Difference, e: Difference) -> bool {
    &&& d.field@ == e.field@
    &&& opt_view(d.left) == opt_view(e.left)
    &&& opt_view(d.right) == opt_view(e.right)
    &&& d.domain@ == e.domain@
    &&& d.relevance == e.relevance
}

/// Some entry of `ds` reports the same field as `d`, with the same values.
pub open spec fn has_same_entry(ds: Seq<Difference>, d: Difference) -> bool {
    exists|j: int| 0 <= j < ds.len() && same_entry(d, ds[j])
}

/// What a difference entry says, as plain values: the field, the two values,
/// the domain and the relevance.
pub open spec fn diff_view(d: Difference) -> (Seq<char>, Option<Seq<char>>, Option<Seq<char>>, Seq<char>, Relevance) {
    (d.field@, opt_view(d.left), opt_view(d.right), d.domain@, d.relevance)
}

/// The entries of a report, as plain values, in order.
pub open spec fn diff_views(ds: Seq<Difference>) -> Seq<(Seq<char>, Option<Seq<char>>, Option<Seq<char>>, Seq<char>, Relevance)> {
    ds.map_values(|d: Difference| diff_view(d))
}

/// Keeps an entry unless it reports a host-specific field.
pub open spec fn not_host_entry() -> spec_fn((Seq<char>, Option<Seq<char>>, Option<Seq<char>>, Seq<char>, Relevance)) -> bool {
    |v: (Seq<char>, Option<Seq<char>>, Option<Seq<char>>, Seq<char>, Relevance)| !host_field(v.0)
}

proof fn lemma_filter_views(v: Seq<(Seq<char>, Option<Seq<char>>, Option<Seq<char>>, Seq<char>, Relevance)>)
    ensures
        forall|i: int| 0 <= i < v.filter(not_host_entry()).len() ==> !host_field(#[trigger] v.filter(not_host_entry())[i].0)
            && v.contains(v.filter(not_host_entry())[i]),
        forall|i: int| 0 <= i < v.len() && !host_field(#[trigger] v[i].0) ==> v.filter(not_host_entry()).contains(v[i]),
        (forall|i: int, j: int| 0 <= i < j < v.len() ==> seq_lt(v[i].0, v[j].0)) ==> forall|i: int, j: int|
            0 <= i < j < v.filter(not_host_entry()).len() ==> seq_lt(
                v.filter(not_host_entry())[i].0,
                v.filter(not_host_entry())[j].0,
            ),
    decreases v.len(),
{
    reveal(Seq::filter);
    let p = not_host_entry();
    let f = v.filter(p);
    if v.len() > 0 {
        let w = v.drop_last();
        lemma_filter_views(w);
        let fw = w.filter(p);
        let x = v.last();
        assert(x == v[v.len() - 1]);
        assert(f == if p(x) { fw.push(x) } else { fw });
        assert forall|i: int| 0 <= i < f.len() implies !host_field(#[trigger] f[i].0) && v.contains(f[i]) by {
            if i < fw.len() {
                assert(f[i] == fw[i]);
                assert(w.contains(fw[i]));
                let k = choose|k: int| 0 <= k < w.len() && w[k] == fw[i];
                assert(v[k] == w[k]);
            } else {
                assert(f[i] == x);
            }
        }
        assert forall|i: int| 0 <= i < v.len() && !host_field(#[trigger] v[i].0) implies f.contains(v[i]) by {
            if i < w.len() {
                assert(w[i] == v[i]);
                assert(fw.contains(w[i]));
                let k = choose|k: int| 0 <= k < fw.len() && fw[k] == w[i];
                assert(f[k] == fw[k]);
            } else {
                assert(f[f.len() - 1] == x);
            }
        }
        if forall|i: int, j: int| 0 <= i < j < v.len() ==> seq_lt(v[i].0, v[j].0) {
            assert forall|i: int, j: int| 0 <= i < j < w.len() implies seq_lt(w[i].0, w[j].0) by {
                assert(w[i] == v[i] && w[j] == v[j]);
            }
            assert forall|i: int, j: int| 0 <= i < j < f.len() implies seq_lt(f[i].0, f[j].0) by {
                if j < fw.len() {
                    assert(f[i] == fw[i] && f[j] == fw[j]);
                } else {
                    assert(f[i] == fw[i]);
                    assert(w.contains(fw[i]));
                    let k = choose|k: int| 0 <= k < w.len() && w[k] == fw[i];
                    assert(v[k] == w[k]);
                    assert(f[j] == x);
                }
            }
        }
    } else {
        assert(f =~= v);
    }
}

/// With `ignore_host`, a comparison never reports the host name or the
/// kernel, whatever the two snapshots; its report is the report of the same
/// comparison without `ignore_host` with the host name and kernel entries
/// taken out, entry for entry and in the same order.
pub proof fn lemma_ignore_host(
    left: Snapshot,
    right: Snapshot,
    o: DiffOptions,
    o0: DiffOptions,
    ds: Seq<Difference>,
    ds0: Seq<Difference>,
)
    requires
        o.ignore_host,
        !o0.ignore_host,
        only_views(o0) == only_views(o),
        o0.project_only == o.project_only,
        is_comparison(left, right, o, ds),
        is_comparison(left, right, o0, ds0),
    ensures
        forall|i: int| 0 <= i < ds.len() ==> !host_field(#[trigger] ds[i].field@),
        forall|i: int| 0 <= i < ds.len() ==> has_same_entry(ds0, #[trigger] ds[i]),
        forall|j: int| 0 <= j < ds0.len() && !host_field(ds0[j].field@) ==> has_same_entry(ds, #[trigger] ds0[j]),
        diff_views(ds) == diff_views(ds0).filter(not_host_entry()),
{
    assert forall|i: int| 0 <= i < ds.len() implies !host_field(#[trigger] ds[i].field@) by {
        assert(describes(left, right, o, ds[i]));
    }
    assert forall|i: int| 0 <= i < ds.len() implies has_same_entry(ds0, #[trigger] ds[i]) by {
        assert(describes(left, right, o, ds[i]));
        assert(differs(left, right, o0, ds[i].field@));
        let j = choose|j: int| 0 <= j < ds0.len() && #[trigger] ds0[j].field@ == ds[i].field@;
        assert(describes(left, right, o0, ds0[j]));
        assert(same_entry(ds[i], ds0[j]));
    }
    assert forall|j: int| 0 <= j < ds0.len() && !host_field(ds0[j].field@) implies has_same_entry(ds, #[trigger] ds0[j]) by {
        assert(describes(left, right, o0, ds0[j]));
        assert(differs(left, right, o, ds0[j].field@));
        let i = choose|i: int| 0 <= i < ds.len() && #[trigger] ds[i].field@ == ds0[j].field@;
        assert(describes(left, right, o, ds[i]));
        assert(same_entry(ds0[j], ds[i]));
    }
    let a = diff_views(ds);
    let v0 = diff_views(ds0);
    let b = v0.filter(not_host_entry());
    lemma_filter_views(v0);
    assert forall|i: int, j: int| 0 <= i < j < v0.len() implies seq_lt(v0[i].0, v0[j].0) by {
        assert(seq_lt(ds0[i].field@, ds0[j].field@));
    }
    let fa = a.map_values(|v: (Seq<char>, Option<Seq<char>>, Option<Seq<char>>, Seq<char>, Relevance)| v.0);
    let fb = b.map_values(|v: (Seq<char>, Option<Seq<char>>, Option<Seq<char>>, Seq<char>, Relevance)| v.0);
    assert forall|i: int, j: int| 0 <= i < j < fa.len() implies seq_lt(fa[i], fa[j]) by {
        assert(seq_lt(ds[i].field@, ds[j].field@));
    }
    assert forall|i: int, j: int| 0 <= i < j < fb.len() implies seq_lt(fb[i], fb[j]) by {
        assert(seq_lt(b[i].0, b[j].0));
    }
    assert forall|i: int| 0 <= i < fa.len() implies fb.contains(#[trigger] fa[i]) by {
        assert(has_same_entry(ds0, ds[i]));
        let j = choose|j: int| 0 <= j < ds0.len() && same_entry(ds[i], ds0[j]);
        assert(!host_field(ds[i].field@));
        assert(v0[j] == diff_view(ds0[j]));
        assert(!host_field(v0[j].0));
        assert(b.contains(v0[j]));
        let k = choose|k: int| 0 <= k < b.len() && b[k] == v0[j];
        assert(fb[k] == fa[i]);
    }
    assert forall|j: int| 0 <= j < fb.len() implies fa.contains(#[trigger] fb[j]) by {
        assert(!host_field(b[j].0) && v0.contains(b[j]));
        let k = choose|k: int| 0 <= k < v0.len() && v0[k] == b[j];
        assert(v0[k] == diff_view(ds0[k]));
        assert(has_same_entry(ds, ds0[k]));
        let i = choose|i: int| 0 <= i < ds.len() && same_entry(ds0[k], ds[i]);
        assert(fa[i] == fb[j]);
    }
    lemma_sorted_texts_equal(fa, fb);
    assert forall|i: int| 0 <= i < a.len() implies #[trigger] a[i] == b[i] by {
        assert(fa[i] == fb[i]);
        assert(!host_field(b[i].0) && v0.contains(b[i]));
        let k = choose|k: int| 0 <= k < v0.len() && v0[k] == b[i];
        assert(v0[k] == diff_view(ds0[k]));
        assert(describes(left, right, o0, ds0[k]));
        assert(describes(left, right, o, ds[i]));
        assert(a[i] == diff_view(ds[i]));
    }
    assert(a =~= b);
}

/// The parts of two snapshots that the comparison reads are the same: the
/// capture time, the schema version, the processes, the project name, the
/// git root and state flags other than `dirty`, the PATH entries, the
/// provenance, and the disk figures other than the total may still differ.
pub open spec fn same_compared_parts(s1: Snapshot, s2: Snapshot) -> bool {
    &&& opt_view(s1.system.os) == opt_view(s2.system.os)
    &&& opt_view(s1.system.hostname) == opt_view(s2.system.hostname)
    &&& s1.system.architecture@ == s2.system.architecture@
    &&& opt_view(s1.system.kernel) == opt_view(s2.system.kernel)
    &&& opt_view(s1.python.version) == opt_view(s2.python.version)
    &&& opt_view(s1.python.pip_version) == opt_view(s2.python.pip_version)
    &&& opt_view(s1.python.executable) == opt_view(s2.python.executable)
    &&& opt_view(s1.python.torch_version) == opt_view(s2.python.torch_version)
    &&& opt_view(s1.python.torch_cuda) == opt_view(s2.python.torch_cuda)
    &&& opt_view(s1.cuda.nvcc_version) == opt_view(s2.cuda.nvcc_version)
    &&& opt_view(s1.cuda.driver_version) == opt_view(s2.cuda.driver_version)
    &&& opt_view(s1.cuda.driver_cuda) == opt_view(s2.cuda.driver_cuda)
    &&& opt_view(s1.cuda.cuda_home) == opt_view(s2.cuda.cuda_home)
    &&& s1.project.path@ == s2.project.path@
    &&& opt_view(s1.build.gcc.version) == opt_view(s2.build.gcc.version)
    &&& opt_view(s1.build.gxx.version) == opt_view(s2.build.gxx.version)
    &&& opt_view(s1.build.clang.version) == opt_view(s2.build.clang.version)
    &&& opt_view(s1.build.clangxx.version) == opt_view(s2.build.clangxx.version)
    &&& opt_view(s1.build.cmake.version) == opt_view(s2.build.cmake.version)
    &&& opt_view(s1.build.ninja.version) == opt_view(s2.build.ninja.version)
    &&& s1.disk.total_bytes == s2.disk.total_bytes
    &&& opt_view(s1.git.commit) == opt_view(s2.git.commit)
    &&& opt_view(s1.git.branch) == opt_view(s2.git.branch)
    &&& s1.git.dirty == s2.git.dirty
    &&& entry_views(s1.environment.variables@) == entry_views(s2.environment.variables@)
}

proof fn lemma_env_field_views(v1: Seq<(String, String)>, v2: Seq<(String, String)>, k: Seq<char>, before: Option<Seq<char>>)
    requires
        entry_views(v1) == entry_views(v2),
    ensures
        env_field(v1, k, before) == env_field(v2, k, before),
    decreases v1.len(),
{
    assert(v1.len() == entry_views(v1).len() && v2.len() == entry_views(v2).len());
    if v1.len() > 0 {
        assert(entry_views(v1)[v1.len() - 1] == entry_views(v2)[v2.len() - 1]);
        assert(v1.last() == v1[v1.len() - 1] && v2.last() == v2[v2.len() - 1]);
        assert(entry_views(v1.drop_last()) =~= entry_views(v1).drop_last());
        assert(entry_views(v2.drop_last()) =~= entry_views(v2).drop_last());
        lemma_env_field_views(v1.drop_last(), v2.drop_last(), k, before);
    }
}

/// Snapshots that agree on the parts the comparison reads give every field
/// the same value, so that their field lists (each name once, in name order)
/// are equal entry for entry.
pub proof fn lemma_fields_agree(s1: Snapshot, s2: Snapshot, a: Seq<(String, String)>, b: Seq<(String, String)>)
    requires
        same_compared_parts(s1, s2),
        sorted_keys(a),
        forall|k: Seq<char>| #[trigger] lookup(a, k) == field_value(s1, k),
        sorted_keys(b),
        forall|k: Seq<char>| #[trigger] lookup(b, k) == field_value(s2, k),
    ensures
        forall|k: Seq<char>| field_value(s1, k) == #[trigger] field_value(s2, k),
        entry_views(a) == entry_views(b),
{
    assert forall|k: Seq<char>| field_value(s1, k) == #[trigger] field_value(s2, k) by {
        assert(base_field(s1, k) == base_field(s2, k));
        lemma_env_field_views(s1.environment.variables@, s2.environment.variables@, k, base_field(s1, k));
    }
    assert forall|k: Seq<char>| #[trigger] lookup(a, k) == lookup(b, k) by {
        assert(field_value(s1, k) == field_value(s2, k));
    }
    lemma_same_lookups(a, b);
}

proof fn lemma_env_entry(vars: Seq<(String, String)>, i: int, before: Option<Seq<char>>)
    requires
        sorted_keys(vars),
        0 <= i < vars.len(),
    ensures
        env_field(vars, "Environment."@ + vars[i].0@, before) == Some(vars[i].1@),
    decreases vars.len(),
{
    let last = vars.last();
    assert(last == vars[vars.len() - 1]);
    if i < vars.len() - 1 {
        assert(seq_lt(vars[i].0@, last.0@));
        lemma_lt_irreflexive(vars[i].0@);
        let p = "Environment."@;
        if p + last.0@ == p + vars[i].0@ {
            assert((p + last.0@).skip(p.len() as int) =~= last.0@);
            assert((p + vars[i].0@).skip(p.len() as int) =~= vars[i].0@);
        }
        let w = vars.drop_last();
        assert(sorted_keys(w)) by {
            assert forall|a: int, b: int| 0 <= a < b < w.len() implies seq_lt(w[a].0@, w[b].0@) by {
                assert(w[a] == vars[a] && w[b] == vars[b]);
            }
        }
        assert(w[i] == vars[i]);
        lemma_env_entry(w, i, before);
    }
}

/// In a well-formed snapshot, each shell variable `NAME` with value `v` is
/// the field `Environment.NAME` with value `v`.
pub proof fn lemma_environment_fields(s: Snapshot)
    requires
        s.well_formed(),
    ensures
        forall|i: int|
            0 <= i < s.environment.variables@.len() ==> field_value(
                s,
                "Environment."@ + (#[trigger] s.environment.variables@[i]).0@,
            ) == Some(s.environment.variables@[i].1@),
{
    assert forall|i: int| 0 <= i < s.environment.variables@.len() implies field_value(
        s,
        "Environment."@ + (#[trigger] s.environment.variables@[i]).0@,
    ) == Some(s.environment.variables@[i].1@) by {
        lemma_env_entry(s.environment.variables@, i, base_field(s, "Environment."@ + s.environment.variables@[i].0@));
    }
}

proof fn lemma_env_keeps(vars: Seq<(String, String)>, k: Seq<char>, before: Option<Seq<char>>)
    requires
        k.len() > 0,
        k[0] != 'E',
    ensures
        env_field(vars, k, before) == before,
    decreases vars.len(),
{
    reveal_strlit("Environment.");
    if vars.len() > 0 {
        let p = "Environment."@ + vars.last().0@;
        assert(p[0] == 'E');
        lemma_env_keeps(vars.drop_last(), k, before);
    }
}

/// Every snapshot gives the field `System.architecture` its architecture and
/// `Project.path` its project path.
pub proof fn lemma_fixed_fields(s: Snapshot)
    ensures
        field_value(s, "System.architecture"@) == Some(s.system.architecture@),
        field_value(s, "Project.path"@) == Some(s.project.path@),
{
    reveal_strlit("System.OS");
    reveal_strlit("System.hostname");
    reveal_strlit("System.architecture");
    reveal_strlit("System.kernel");
    reveal_strlit("Python.version");
    reveal_strlit("Python.pip_version");
    reveal_strlit("Python.executable");
    reveal_strlit("PyTorch.version");
    reveal_strlit("PyTorch.CUDA");
    reveal_strlit("CUDA.nvcc");
    reveal_strlit("CUDA.driver");
    reveal_strlit("CUDA.driver_capability");
    reveal_strlit("CUDA.home");
    reveal_strlit("Project.path");
    reveal_strlit("Build.gcc");
    reveal_strlit("Build.g++");
    reveal_strlit("Build.clang");
    reveal_strlit("Build.clang++");
    reveal_strlit("Build.cmake");
    reveal_strlit("Build.ninja");
    reveal_strlit("Disk.total_bytes");
    reveal_strlit("Git.commit");
    reveal_strlit("Git.branch");
    reveal_strlit("Git.dirty");
    let arch = "System.architecture"@;
    let path = "Project.path"@;
    assert(arch != "System.kernel"@) by { assert(arch[7] != "System.kernel"@[7]); }
    assert(arch != "Python.version"@) by { assert(arch[0] != "Python.version"@[0]); }
    assert(arch != "Python.pip_version"@) by { assert(arch[0] != "Python.pip_version"@[0]); }
    assert(arch != "Python.executable"@) by { assert(arch[0] != "Python.executable"@[0]); }
    assert(arch != "PyTorch.version"@) by { assert(arch[0] != "PyTorch.version"@[0]); }
    assert(arch != "PyTorch.CUDA"@) by { assert(arch[0] != "PyTorch.CUDA"@[0]); }
    assert(arch != "CUDA.nvcc"@) by { assert(arch[0] != "CUDA.nvcc"@[0]); }
    assert(arch != "CUDA.driver"@) by { assert(arch[0] != "CUDA.driver"@[0]); }
    assert(arch != "CUDA.driver_capability"@) by { assert(arch[0] != "CUDA.driver_capability"@[0]); }
    assert(arch != "CUDA.home"@) by { assert(arch[0] != "CUDA.home"@[0]); }
    assert(arch != "Project.path"@) by { assert(arch[0] != "Project.path"@[0]); }
    assert(arch != "Build.gcc"@) by { assert(arch[0] != "Build.gcc"@[0]); }
    assert(arch != "Build.g++"@) by { assert(arch[0] != "Build.g++"@[0]); }
    assert(arch != "Build.clang"@) by { assert(arch[0] != "Build.clang"@[0]); }
    assert(arch != "Build.clang++"@) by { assert(arch[0] != "Build.clang++"@[0]); }
    assert(arch != "Build.cmake"@) by { assert(arch[0] != "Build.cmake"@[0]); }
    assert(arch != "Build.ninja"@) by { assert(arch[0] != "Build.ninja"@[0]); }
    assert(arch != "Disk.total_bytes"@) by { assert(arch[0] != "Disk.total_bytes"@[0]); }
    assert(arch != "Git.commit"@) by { assert(arch[0] != "Git.commit"@[0]); }
    assert(arch != "Git.branch"@) by { assert(arch[0] != "Git.branch"@[0]); }
    assert(arch != "Git.dirty"@) by { assert(arch[0] != "Git.dirty"@[0]); }
    assert(path != "Build.gcc"@) by { assert(path[0] != "Build.gcc"@[0]); }
    assert(path != "Build.g++"@) by { assert(path[0] != "Build.g++"@[0]); }
    assert(path != "Build.clang"@) by { assert(path[0] != "Build.clang"@[0]); }
    assert(path != "Build.clang++"@) by { assert(path[0] != "Build.clang++"@[0]); }
    assert(path != "Build.cmake"@) by { assert(path[0] != "Build.cmake"@[0]); }
    assert(path != "Build.ninja"@) by { assert(path[0] != "Build.ninja"@[0]); }
    assert(path != "Disk.total_bytes"@) by { assert(path[0] != "Disk.total_bytes"@[0]); }
    assert(path != "Git.commit"@) by { assert(path[0] != "Git.commit"@[0]); }
    assert(path != "Git.branch"@) by { assert(path[0] != "Git.branch"@[0]); }
    assert(path != "Git.dirty"@) by { assert(path[0] != "Git.dirty"@[0]); }
    lemma_env_keeps(s.environment.variables@, arch, base_field(s, arch));
    lemma_env_keeps(s.environment.variables@, path, base_field(s, path));
}

proof fn lemma_prefix_taken(p: Seq<char>, rest: Seq<char>)
    requires
        forall|k: int| 0 <= k < p.len() ==> p[k] != '.',
    ensures
        (p + seq!['.'] + rest).take(first_in(p + seq!['.'] + rest, CharClass::Is('.')) as int) == p,
{
    let f = p + seq!['.'] + rest;
    assert forall|k: int| 0 <= k < p.len() implies !CharClass::Is('.').has(#[trigger] f[k]) by {
        assert(f[k] == p[k]);
    }
    assert(f[p.len() as int] == '.');
    crate::text::lemma_first_in(f, CharClass::Is('.'), p.len() as int);
    assert(f.take(p.len() as int) =~= p);
}

/// A field is classed by the name before its first dot, whatever follows:
/// `PyTorch.*` and `Python.*` are in `python`, `Environment.*` in
/// `environment`, `CUDA.*` in `cuda`, `Build.*` in `build`, `Git.*` in `git`,
/// `System.*` in `system`, `Disk.*` in `disk` and `Project.*` in `project`.
pub proof fn lemma_field_domains(rest: Seq<char>)
    ensures
        spec_domain("PyTorch"@ + seq!['.'] + rest) == "python"@,
        spec_domain("Python"@ + seq!['.'] + rest) == "python"@,
        spec_domain("Environment"@ + seq!['.'] + rest) == "environment"@,
        spec_domain("CUDA"@ + seq!['.'] + rest) == "cuda"@,
        spec_domain("Build"@ + seq!['.'] + rest) == "build"@,
        spec_domain("Git"@ + seq!['.'] + rest) == "git"@,
        spec_domain("System"@ + seq!['.'] + rest) == "system"@,
        spec_domain("Disk"@ + seq!['.'] + rest) == "disk"@,
        spec_domain("Project"@ + seq!['.'] + rest) == "project"@,
{
    reveal_strlit("PyTorch");
    reveal_strlit("Python");
    reveal_strlit("Environment");
    reveal_strlit("CUDA");
    reveal_strlit("Build");
    reveal_strlit("Git");
    reveal_strlit("System");
    reveal_strlit("Disk");
    reveal_strlit("Project");
    lemma_prefix_taken("PyTorch"@, rest);
    lemma_prefix_taken("Python"@, rest);
    lemma_prefix_taken("Environment"@, rest);
    lemma_prefix_taken("CUDA"@, rest);
    lemma_prefix_taken("Build"@, rest);
    lemma_prefix_taken("Git"@, rest);
    lemma_prefix_taken("System"@, rest);
    lemma_prefix_taken("Disk"@, rest);
    lemma_prefix_taken("Project"@, rest);
    assert(lower_all("Build"@).len() == 5 && lower_all("Git"@).len() == 3);
    assert(lower_all("PyTorch"@).len() == 7 && lower_all("Python"@).len() == 6);
    assert(lower_all("Environment"@).len() == 11 && lower_all("CUDA"@).len() == 4);
    let sy = lower_all("System"@);
    let py = lower_all("Python"@);
    assert(sy[0] != py[0]);
    let di = lower_all("Disk"@);
    let cu = lower_all("CUDA"@);
    assert(di[0] != cu[0]);
    let pr = lower_all("Project"@);
    let pt = lower_all("PyTorch"@);
    assert(pr[1] != pt[1]);
}

/// The name before the first dot is read in any case: `build.*`, like
/// `Build.*`, is in `build`, and so on for each known name.
pub proof fn lemma_field_domains_any_case(rest: Seq<char>)
    ensures
        spec_domain("pytorch"@ + seq!['.'] + rest) == "python"@,
        spec_domain("python"@ + seq!['.'] + rest) == "python"@,
        spec_domain("environment"@ + seq!['.'] + rest) == "environment"@,
        spec_domain("cuda"@ + seq!['.'] + rest) == "cuda"@,
        spec_domain("build"@ + seq!['.'] + rest) == "build"@,
        spec_domain("git"@ + seq!['.'] + rest) == "git"@,
        spec_domain("system"@ + seq!['.'] + rest) == "system"@,
        spec_domain("disk"@ + seq!['.'] + rest) == "disk"@,
        spec_domain("project"@ + seq!['.'] + rest) == "project"@,
{
    reveal_strlit("PyTorch");
    reveal_strlit("Python");
    reveal_strlit("Environment");
    reveal_strlit("CUDA");
    reveal_strlit("Build");
    reveal_strlit("Git");
    reveal_strlit("System");
    reveal_strlit("Disk");
    reveal_strlit("Project");
    reveal_strlit("pytorch");
    reveal_strlit("environment");
    reveal_strlit("cuda");
    reveal_strlit("build");
    reveal_strlit("git");
    reveal_strlit("system");
    reveal_strlit("disk");
    reveal_strlit("project");
    reveal_strlit("python");
    lemma_prefix_taken("pytorch"@, rest);
    lemma_prefix_taken("python"@, rest);
    lemma_prefix_taken("environment"@, rest);
    lemma_prefix_taken("cuda"@, rest);
    lemma_prefix_taken("build"@, rest);
    lemma_prefix_taken("git"@, rest);
    lemma_prefix_taken("system"@, rest);
    lemma_prefix_taken("disk"@, rest);
    lemma_prefix_taken("project"@, rest);
    assert(lower_all("PyTorch"@).len() == 7);
    assert(lower_all("Python"@).len() == 6);
    assert(lower_all("Environment"@).len() == 11);
    assert(lower_all("CUDA"@).len() == 4);
    assert(lower_all("Build"@).len() == 5);
    assert(lower_all("Git"@).len() == 3);
    assert(lower_all("System"@).len() == 6);
    assert(lower_all("Disk"@).len() == 4);
    assert(lower_all("Project"@).len() == 7);
    assert(lower_all("pytorch"@) =~= "pytorch"@);
    assert(lower_all("python"@) =~= "python"@);
    assert(lower_all("environment"@) =~= "environment"@);
    assert(lower_all("cuda"@) =~= "cuda"@);
    assert(lower_all("build"@) =~= "build"@);
    assert(lower_all("git"@) =~= "git"@);
    assert(lower_all("system"@) =~= "system"@);
    assert(lower_all("disk"@) =~= "disk"@);
    assert(lower_all("project"@) =~= "project"@);
    assert(lower_all("PyTorch"@) =~= "pytorch"@);
    assert(lower_all("Python"@) =~= "python"@);
    assert(lower_all("Environment"@) =~= "environment"@);
    assert(lower_all("CUDA"@) =~= "cuda"@);
    assert(lower_all("Build"@) =~= "build"@);
    assert(lower_all("Git"@) =~= "git"@);
    assert(lower_all("System"@) =~= "system"@);
    assert(lower_all("Disk"@) =~= "disk"@);
    assert(lower_all("Project"@) =~= "project"@);
    assert("project"@[1] != "pytorch"@[1]);
}

/// A field whose name before the first dot is none of the known names, in
/// any case, is in the domain `other`.
pub proof fn lemma_unknown_domain(p: Seq<char>, rest: Seq<char>)
    requires
        forall|k: int| 0 <= k < p.len() ==> p[k] != '.',
        !eq_ignore_case(p, "PyTorch"@),
        !eq_ignore_case(p, "Python"@),
        !eq_ignore_case(p, "Environment"@),
        !eq_ignore_case(p, "CUDA"@),
        !eq_ignore_case(p, "Build"@),
        !eq_ignore_case(p, "Git"@),
        !eq_ignore_case(p, "System"@),
        !eq_ignore_case(p, "Disk"@),
        !eq_ignore_case(p, "Project"@),
    ensures
        spec_domain(p + seq!['.'] + rest) == "other"@,
{
    lemma_prefix_taken(p, rest);
}

/// Asking for the `build` domain keeps every `Build.` field, and so does a
/// project-only comparison.
pub proof fn lemma_build_fields_kept(tool: Seq<char>)
    ensures
        spec_include("Build"@ + seq!['.'] + tool, seq!["build"@], false, false),
        spec_include("Build"@ + seq!['.'] + tool, Seq::<Seq<char>>::empty(), false, true),
{
    lemma_field_domains(tool);
    let f = "Build"@ + seq!['.'] + tool;
    assert(seq!["build"@][0] == "build"@);
    reveal_strlit("Build");
    reveal_strlit("System.hostname");
    reveal_strlit("System.kernel");
    assert(f[0] != "System.hostname"@[0]);
    assert(f[0] != "System.kernel"@[0]);
}

} // verus!
