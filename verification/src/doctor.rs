//! Diagnosis of a captured environment: mismatched toolchains, missing lock
//! files, unusable paths.
use vstd::prelude::*;

use crate::assoc::{get_last, lookup};
use crate::paths::{holds_path, insert_path, join, join_path, path_eq, path_key, sorted_paths};
use crate::snapshot::{EnvironmentSource, Snapshot, ToolInfo};
use crate::text::{concat, lower_all, lowered, concat3, contains_text, decimal, decimal_string, text_eq,
    chars_of, find, find_class, find_sub, first_in, has_prefix, is_digit, line_list, lines,
    occurs_at, parse_u32, parse_u32_chars, same, slice, split, split_by, starts_with, string_of,
    trim, trim_start, trimmed, trimmed_start, word_list, words, CharClass,
};

verus! {

/// The first piece that starts with a digit.
pub open spec fn first_numeric(ps: Seq<Seq<char>>) -> Option<Seq<char>>
    decreases ps.len(),
{
    if ps.len() == 0 {
        None
    } else if ps[0].len() > 0 && is_digit(ps[0][0]) {
        Some(ps[0])
    } else {
        first_numeric(ps.drop_first())
    }
}

/// The first piece that starts with a digit and holds a dot.
pub open spec fn first_dotted(ps: Seq<Seq<char>>) -> Option<Seq<char>>
    decreases ps.len(),
{
    if ps.len() == 0 {
        None
    } else if ps[0].len() > 0 && is_digit(ps[0][0]) && ps[0].contains('.') {
        Some(ps[0])
    } else {
        first_dotted(ps.drop_first())
    }
}

fn starts_numeric(p: &Vec<char>) -> (r: bool)
    ensures
        r == (p@.len() > 0 && is_digit(p@[0])),
{
    p.len() > 0 && '0' <= p[0] && p[0] <= '9'
}

fn has_dot(p: &Vec<char>) -> (r: bool)
    ensures
        r == p@.contains('.'),
{
    let mut i: usize = 0;
    while i < p.len()
        invariant
            i <= p.len(),
            forall|k: int| 0 <= k < i ==> p@[k] != '.',
        decreases p.len() - i,
    {
        if p[i] == '.' {
            assert(p@[i as int] == '.');
            return true;
        }
        i += 1;
    }
    false
}

/// Index of the first piece satisfying the chosen test: starting with a digit,
/// and where `dotted`, also holding a dot.
fn first_piece(ps: &Vec<Vec<char>>, dotted: bool) -> (r: Option<usize>)
    ensures
        dotted ==> match r {
            Some(i) => i < ps.len() && first_dotted(ps@.map_values(|p: Vec<char>| p@)) == Some(ps@[i as int]@),
            None => first_dotted(ps@.map_values(|p: Vec<char>| p@)) is None,
        },
        !dotted ==> match r {
            Some(i) => i < ps.len() && first_numeric(ps@.map_values(|p: Vec<char>| p@)) == Some(ps@[i as int]@),
            None => first_numeric(ps@.map_values(|p: Vec<char>| p@)) is None,
        },
{
    let ghost pv = ps@.map_values(|p: Vec<char>| p@);
    let mut i: usize = 0;
    assert(pv.skip(0) =~= pv);
    while i < ps.len()
        invariant
            i <= ps.len(),
            pv == ps@.map_values(|p: Vec<char>| p@),
            dotted ==> first_dotted(pv) == first_dotted(pv.skip(i as int)),
            !dotted ==> first_numeric(pv) == first_numeric(pv.skip(i as int)),
        decreases ps.len() - i,
    {
        assert(pv.skip(i as int)[0] == ps@[i as int]@);
        assert(pv.skip(i as int).drop_first() =~= pv.skip(i + 1));
        if starts_numeric(&ps[i]) && (!dotted || has_dot(&ps[i])) {
            return Some(i);
        }
        i += 1;
    }
    assert(pv.skip(i as int).len() == 0);
    None
}

/// The first whitespace-separated word that starts with a digit (`2.1` of `rustc 2.1.0`).
pub open spec fn spec_first_version(v: Seq<char>) -> Option<Seq<char>> {
    first_numeric(words(v))
}

pub fn first_version(value: &str) -> (r: Option<String>)
    ensures
        match r {
            Some(s) => spec_first_version(value@) == Some(s@),
            None => spec_first_version(value@) is None,
        },
{
    let ws = word_list(&chars_of(value));
    match first_piece(&ws, false) {
        Some(i) => Some(string_of(&ws[i])),
        None => None,
    }
}

/// The first run of digits and dots that starts with a digit (`3.10` of `>=3.10`).
pub open spec fn spec_minimum_version(v: Seq<char>) -> Option<Seq<char>> {
    first_numeric(split_by(v, CharClass::NotVersionChar))
}

pub fn minimum_version(value: &str) -> (r: Option<String>)
    ensures
        match r {
            Some(s) => spec_minimum_version(value@) == Some(s@),
            None => spec_minimum_version(value@) is None,
        },
{
    let ps = split(&chars_of(value), CharClass::NotVersionChar);
    match first_piece(&ps, false) {
        Some(i) => Some(string_of(&ps[i])),
        None => None,
    }
}

/// The first dotted version number in a path (`12.4` of `/usr/local/cuda-12.4`).
pub open spec fn spec_version_from_path(v: Seq<char>) -> Option<Seq<char>> {
    first_dotted(split_by(v, CharClass::NotVersionChar))
}

pub fn version_from_path(value: &str) -> (r: Option<String>)
    ensures
        match r {
            Some(s) => spec_version_from_path(value@) == Some(s@),
            None => spec_version_from_path(value@) is None,
        },
{
    let ps = split(&chars_of(value), CharClass::NotVersionChar);
    match first_piece(&ps, true) {
        Some(i) => Some(string_of(&ps[i])),
        None => None,
    }
}

/// The numbers among the dot-separated parts, in order.
pub open spec fn numbers(ps: Seq<Seq<char>>) -> Seq<u32>
    decreases ps.len(),
{
    if ps.len() == 0 {
        seq![]
    } else {
        match parse_u32(ps.last()) {
            Some(n) => numbers(ps.drop_last()).push(n),
            None => numbers(ps.drop_last()),
        }
    }
}

/// Major and minor number of a version: the first two parts that are numbers,
/// 0 for a missing one.
pub open spec fn spec_version_pair(v: Seq<char>) -> (u32, u32) {
    let ns = numbers(split_by(v, CharClass::Is('.')));
    (
        if ns.len() > 0 {
            ns[0]
        } else {
            0
        },
        if ns.len() > 1 {
            ns[1]
        } else {
            0
        },
    )
}

pub open spec fn pair_lt(a: (u32, u32), b: (u32, u32)) -> bool {
    a.0 < b.0 || (a.0 == b.0 && a.1 < b.1)
}

pub fn version_pair(value: &str) -> (r: (u32, u32))
    ensures
        r == spec_version_pair(value@),
{
    let ps = split(&chars_of(value), CharClass::Is('.'));
    let ghost pv = ps@.map_values(|p: Vec<char>| p@);
    let mut ns: Vec<u32> = Vec::new();
    let mut i: usize = 0;
    while i < ps.len()
        invariant
            i <= ps.len(),
            pv == ps@.map_values(|p: Vec<char>| p@),
            ns@ == numbers(pv.take(i as int)),
        decreases ps.len() - i,
    {
        assert(pv.take(i + 1).drop_last() =~= pv.take(i as int));
        assert(pv.take(i + 1).last() == ps@[i as int]@);
        match parse_u32_chars(&ps[i]) {
            Some(n) => ns.push(n),
            None => {},
        }
        i += 1;
    }
    assert(pv.take(ps.len() as int) =~= pv);
    let major = if ns.len() > 0 {
        ns[0]
    } else {
        0
    };
    let minor = if ns.len() > 1 {
        ns[1]
    } else {
        0
    };
    (major, minor)
}

/// Index of the second dot of `v`, or its length.
pub open spec fn second_dot(v: Seq<char>) -> nat {
    let d1 = first_in(v, CharClass::Is('.'));
    if d1 >= v.len() {
        v.len()
    } else {
        let d2 = d1 + 1 + first_in(v.skip(d1 + 1 as int), CharClass::Is('.'));
        if d2 >= v.len() {
            v.len()
        } else {
            d2
        }
    }
}

/// The version up to its second dot (`12.8` of `12.8.1`).
pub open spec fn spec_major_minor(v: Seq<char>) -> Seq<char> {
    v.take(second_dot(v) as int)
}

pub fn major_minor(value: &str) -> (r: String)
    ensures
        r@ == spec_major_minor(value@),
{
    let v = chars_of(value);
    let d1 = find_class(&v, 0, CharClass::Is('.'));
    assert(v@.skip(0) =~= v@);
    let end = if d1 >= v.len() {
        v.len()
    } else {
        let d2 = find_class(&v, d1 + 1, CharClass::Is('.'));
        d2
    };
    let out = slice(&v, 0, end);
    assert(out@ =~= v@.take(end as int));
    string_of(&out)
}

/// The quoted value of `key = "..."` on the first line of `text` that has one.
pub open spec fn toml_line(line: Seq<char>, key: Seq<char>) -> Option<Seq<char>> {
    let l = trim(line);
    if !starts_with(l, key) {
        None
    } else {
        let rest = trim_start(l.skip(key.len() as int));
        if rest.len() == 0 || rest[0] != '=' {
            None
        } else {
            let value = trim(rest.skip(1));
            if value.len() == 0 || (value[0] != '"' && value[0] != '\'') {
                None
            } else {
                let inner = value.skip(1);
                Some(inner.take(first_in(inner, CharClass::Either('"', '\'')) as int))
            }
        }
    }
}

pub open spec fn toml_scan(ls: Seq<Seq<char>>, key: Seq<char>) -> Option<Seq<char>>
    decreases ls.len(),
{
    if ls.len() == 0 {
        None
    } else {
        match toml_line(ls[0], key) {
            Some(v) => Some(v),
            None => toml_scan(ls.drop_first(), key),
        }
    }
}

fn toml_line_of(line: &Vec<char>, key: &Vec<char>) -> (r: Option<Vec<char>>)
    ensures
        match r {
            Some(v) => toml_line(line@, key@) == Some(v@),
            None => toml_line(line@, key@) is None,
        },
{
    let l = trimmed(line);
    if !has_prefix(&l, key) {
        return None;
    }
    let after = slice(&l, key.len(), l.len());
    assert(after@ =~= l@.skip(key@.len() as int));
    let rest = trimmed_start(&after);
    if rest.len() == 0 || rest[0] != '=' {
        return None;
    }
    let tail = slice(&rest, 1, rest.len());
    assert(tail@ =~= rest@.skip(1));
    let value = trimmed(&tail);
    if value.len() == 0 || (value[0] != '"' && value[0] != '\'') {
        return None;
    }
    let inner = slice(&value, 1, value.len());
    assert(inner@ =~= value@.skip(1));
    let end = find_class(&inner, 0, CharClass::Either('"', '\''));
    assert(inner@.skip(0) =~= inner@);
    let out = slice(&inner, 0, end);
    assert(out@ =~= inner@.take(end as int));
    Some(out)
}

pub fn toml_string(text: &str, key: &str) -> (r: Option<String>)
    ensures
        match r {
            Some(s) => toml_scan(lines(text@), key@) == Some(s@),
            None => toml_scan(lines(text@), key@) is None,
        },
{
    let ls = line_list(&chars_of(text));
    let k = chars_of(key);
    let ghost lv = ls@.map_values(|p: Vec<char>| p@);
    let mut i: usize = 0;
    assert(lv.skip(0) =~= lv);
    while i < ls.len()
        invariant
            i <= ls.len(),
            lv == ls@.map_values(|p: Vec<char>| p@),
            lv == lines(text@),
            k@ == key@,
            toml_scan(lv, key@) == toml_scan(lv.skip(i as int), key@),
        decreases ls.len() - i,
    {
        assert(lv.skip(i as int)[0] == ls@[i as int]@);
        assert(lv.skip(i as int).drop_first() =~= lv.skip(i + 1));
        match toml_line_of(&ls[i], &k) {
            Some(v) => {
                return Some(string_of(&v));
            },
            None => {},
        }
        i += 1;
    }
    assert(lv.skip(i as int).len() == 0);
    None
}

/// The first characters of `v` that are not `"`.
pub open spec fn skip_quotes(v: Seq<char>) -> nat
    decreases v.len(),
{
    if v.len() > 0 && v[0] == '"' {
        1 + skip_quotes(v.drop_first())
    } else {
        0
    }
}

/// `engines.node` of a `package.json` text, found textually: the quoted value
/// after the first `"node"` that follows `"engines"`.
pub open spec fn spec_engine_node(text: Seq<char>) -> Option<Seq<char>> {
    match find_sub(text, "\"engines\""@) {
        Some(e) => match find_sub(text.skip(e), "\"node\""@) {
            Some(n) => {
                let tail = text.skip(e + n + 6);
                let c = first_in(tail, CharClass::Is(':'));
                if c >= tail.len() {
                    None
                } else {
                    let value = trim_start(tail.skip(c + 1 as int));
                    let unquoted = value.skip(skip_quotes(value) as int);
                    Some(unquoted.take(first_in(unquoted, CharClass::Is('"')) as int))
                }
            },
            None => None,
        },
        None => None,
    }
}

proof fn lemma_skip_quotes(v: Seq<char>, i: int)
    requires
        0 <= i <= v.len(),
        forall|k: int| 0 <= k < i ==> v[k] == '"',
        i < v.len() ==> v[i] != '"',
    ensures
        skip_quotes(v) == i,
    decreases v.len(),
{
    if i > 0 {
        lemma_skip_quotes(v.drop_first(), i - 1);
    }
}

pub fn json_engine_node(text: &str) -> (r: Option<String>)
    ensures
        match r {
            Some(s) => spec_engine_node(text@) == Some(s@),
            None => spec_engine_node(text@) is None,
        },
{
    proof {
        reveal_strlit("\"node\"");
    }
    let t = chars_of(text);
    let engines = chars_of("\"engines\"");
    let node = chars_of("\"node\"");
    let e = match find(&t, &engines) {
        Some(e) => e,
        None => {
            return None;
        },
    };
    let after = slice(&t, e, t.len());
    assert(after@ =~= t@.skip(e as int));
    let n = match find(&after, &node) {
        Some(n) => n,
        None => {
            return None;
        },
    };
    assert(occurs_at(after@, node@, n as int));
    let len = t.len();
    assert(e + n + 6 <= len);
    let tail = slice(&t, e + n + 6, len);
    assert(tail@ =~= t@.skip(e + n + 6));
    let c = find_class(&tail, 0, CharClass::Is(':'));
    assert(tail@.skip(0) =~= tail@);
    if c >= tail.len() {
        return None;
    }
    let after_colon = slice(&tail, c + 1, tail.len());
    assert(after_colon@ =~= tail@.skip(c + 1));
    let value = trimmed_start(&after_colon);
    let mut q: usize = 0;
    while q < value.len() && value[q] == '"'
        invariant
            q <= value.len(),
            forall|k: int| 0 <= k < q ==> value@[k] == '"',
        decreases value.len() - q,
    {
        q += 1;
    }
    proof {
        lemma_skip_quotes(value@, q as int);
    }
    let unquoted = slice(&value, q, value.len());
    assert(unquoted@ =~= value@.skip(q as int));
    let end = find_class(&unquoted, 0, CharClass::Is('"'));
    assert(unquoted@.skip(0) =~= unquoted@);
    let out = slice(&unquoted, 0, end);
    assert(out@ =~= unquoted@.take(end as int));
    Some(string_of(&out))
}


/// How serious a finding is.
#[derive(Clone, Copy, Debug, PartialEq, Eq, Structural)]
pub enum Severity {
    Info,
    Warning,
    Error,
}

/// One finding, with the evidence for it, where the setting comes from, what it
/// can break and what to do.
#[derive(Clone, Debug)]
pub struct Diagnostic {
    pub code: String,
    pub severity: Severity,
    pub title: String,
    pub evidence: Vec<String>,
    pub origins: Vec<String>,
    pub impact: String,
    pub action: String,
}

/// A finding as text.
pub struct DiagnosticView {
    pub code: Seq<char>,
    pub severity: Severity,
    pub title: Seq<char>,
    pub evidence: Seq<Seq<char>>,
    pub origins: Seq<Seq<char>>,
    pub impact: Seq<char>,
    pub action: Seq<char>,
}

impl View for Diagnostic {
    type V = DiagnosticView;

    open spec fn view(&self) -> DiagnosticView {
        DiagnosticView {
            code: self.code@,
            severity: self.severity,
            title: self.title@,
            evidence: self.evidence@.map_values(|e: String| e@),
            origins: self.origins@.map_values(|e: String| e@),
            impact: self.impact@,
            action: self.action@,
        }
    }
}

pub open spec fn views_of(ds: Seq<Diagnostic>) -> Seq<DiagnosticView> {
    ds.map_values(|d: Diagnostic| d@)
}

/// All findings about one environment.
#[derive(Clone, Debug)]
pub struct DoctorReport {
    pub diagnostics: Vec<Diagnostic>,
}

pub open spec fn count_problems(ds: Seq<Diagnostic>) -> nat
    decreases ds.len(),
{
    if ds.len() == 0 {
        0
    } else {
        count_problems(ds.drop_last()) + if ds.last().severity != Severity::Info {
            1nat
        } else {
            0nat
        }
    }
}

impl DoctorReport {
    /// Some finding is a warning or an error.
    pub fn has_problems(&self) -> (r: bool)
        ensures
            r == exists|i: int|
                0 <= i < self.diagnostics@.len() && self.diagnostics@[i].severity != Severity::Info,
    {
        let mut i: usize = 0;
        while i < self.diagnostics.len()
            invariant
                i <= self.diagnostics.len(),
                forall|k: int| 0 <= k < i ==> self.diagnostics@[k].severity == Severity::Info,
            decreases self.diagnostics.len() - i,
        {
            if self.diagnostics[i].severity != Severity::Info {
                return true;
            }
            i += 1;
        }
        false
    }

    /// The number of warnings and errors.
    pub fn problem_count(&self) -> (r: usize)
        ensures
            r == count_problems(self.diagnostics@),
    {
        let mut n: usize = 0;
        let mut i: usize = 0;
        while i < self.diagnostics.len()
            invariant
                i <= self.diagnostics.len(),
                n == count_problems(self.diagnostics@.take(i as int)),
                n <= i,
            decreases self.diagnostics.len() - i,
        {
            assert(self.diagnostics@.take(i + 1).drop_last() =~= self.diagnostics@.take(i as int));
            if self.diagnostics[i].severity != Severity::Info {
                n += 1;
            }
            i += 1;
        }
        assert(self.diagnostics@.take(self.diagnostics.len() as int) =~= self.diagnostics@);
        n
    }
}

/// What was found on disk for a diagnosis: which project entries exist and
/// are files, the texts of project files that could be read, and paths on the
/// machine.
#[derive(Clone, Debug, Default)]
pub struct DoctorProbe {
    /// Names in the project directory that are regular files.
    pub project_files: Vec<String>,
    /// Names in the project directory that exist.
    pub project_entries: Vec<String>,
    /// Project files read as text (name, text).
    pub project_texts: Vec<(String, String)>,
    /// `CUDA_HOME` names a directory.
    pub cuda_home_is_dir: bool,
    /// Paths that exist.
    pub existing_paths: Vec<String>,
    /// Canonical forms of paths, where they could be resolved (path, canonical).
    pub canonical: Vec<(String, String)>,
}

/// The names of project files a diagnosis looks at.
pub fn project_file_names() -> (r: Vec<&'static str>)
    ensures
        r@.map_values(|s: &'static str| s@) == seq![
            "Cargo.toml"@,
            "Cargo.lock"@,
            "package.json"@,
            "package-lock.json"@,
            "pnpm-lock.yaml"@,
            "yarn.lock"@,
            "bun.lock"@,
            "bun.lockb"@,
            "pyproject.toml"@,
            "uv.lock"@,
            "poetry.lock"@,
            "pdm.lock"@,
            "requirements.txt"@,
            "rust-toolchain.toml"@,
            "rust-toolchain"@,
            "setup.py"@,
            "CMakeLists.txt"@,
            "go.mod"@,
        ],
{
    let mut r: Vec<&'static str> = Vec::new();
    r.push("Cargo.toml");
    r.push("Cargo.lock");
    r.push("package.json");
    r.push("package-lock.json");
    r.push("pnpm-lock.yaml");
    r.push("yarn.lock");
    r.push("bun.lock");
    r.push("bun.lockb");
    r.push("pyproject.toml");
    r.push("uv.lock");
    r.push("poetry.lock");
    r.push("pdm.lock");
    r.push("requirements.txt");
    r.push("rust-toolchain.toml");
    r.push("rust-toolchain");
    r.push("setup.py");
    r.push("CMakeLists.txt");
    r.push("go.mod");
    assert(r@.map_values(|s: &'static str| s@) =~= seq![
        "Cargo.toml"@,
        "Cargo.lock"@,
        "package.json"@,
        "package-lock.json"@,
        "pnpm-lock.yaml"@,
        "yarn.lock"@,
        "bun.lock"@,
        "bun.lockb"@,
        "pyproject.toml"@,
        "uv.lock"@,
        "poetry.lock"@,
        "pdm.lock"@,
        "requirements.txt"@,
        "rust-toolchain.toml"@,
        "rust-toolchain"@,
        "setup.py"@,
        "CMakeLists.txt"@,
        "go.mod"@,
    ]);
    r
}

pub open spec fn has_name(v: Seq<String>, name: Seq<char>) -> bool {
    exists|i: int| 0 <= i < v.len() && #[trigger] v[i]@ == name
}

fn holds(v: &Vec<String>, name: &str) -> (r: bool)
    ensures
        r == has_name(v@, name@),
{
    let mut i: usize = 0;
    while i < v.len()
        invariant
            i <= v.len(),
            forall|k: int| 0 <= k < i ==> v@[k]@ != name@,
        decreases v.len() - i,
    {
        if text_eq(v[i].as_str(), name) {
            assert(v@[i as int]@ == name@);
            return true;
        }
        i += 1;
    }
    false
}

/// The canonical form of `p`, or `p` itself where it could not be resolved.
pub open spec fn canon(probe: DoctorProbe, p: Seq<char>) -> Seq<char> {
    match lookup(probe.canonical@, p) {
        Some(c) => c,
        None => p,
    }
}

fn canonical_of(probe: &DoctorProbe, p: &str) -> (r: String)
    ensures
        r@ == canon(*probe, p@),
{
    match get_last(&probe.canonical, p) {
        Some(c) => c,
        None => String::from_str(p),
    }
}

/// The last recorded source of a variable.
pub open spec fn source_of(prov: Seq<(String, EnvironmentSource)>, name: Seq<char>) -> Option<EnvironmentSource>
    decreases prov.len(),
{
    if prov.len() == 0 {
        None
    } else if prov.last().0@ == name {
        Some(prov.last().1)
    } else {
        source_of(prov.drop_last(), name)
    }
}

/// Where a variable is set, as `file:line (confidence)`, if known.
pub open spec fn spec_origin(s: Snapshot, name: Seq<char>) -> Seq<Seq<char>> {
    match source_of(s.environment.provenance@, name) {
        Some(src) => seq![
            src.file@ + ":"@ + decimal(src.line as nat) + " ("@ + src.confidence@ + ")"@,
        ],
        None => seq![],
    }
}

fn origin(s: &Snapshot, name: &str) -> (r: Vec<String>)
    ensures
        r@.map_values(|e: String| e@) == spec_origin(*s, name@),
{
    let prov = &s.environment.provenance;
    let mut i: usize = prov.len();
    assert(prov@.take(prov.len() as int) =~= prov@);
    while i > 0
        invariant
            i <= prov.len(),
            prov@ == s.environment.provenance@,
            source_of(prov@, name@) == source_of(prov@.take(i as int), name@),
        decreases i,
    {
        let ghost t = prov@.take(i as int);
        assert(t.last() == prov@[i - 1]);
        assert(t.drop_last() =~= prov@.take(i - 1));
        if text_eq(prov[i - 1].0.as_str(), name) {
            assert(source_of(prov@, name@) == Some(prov@[i - 1].1));
            let src = &prov[i - 1].1;
            let a = concat3(src.file.as_str(), ":", decimal_string(src.line as u64).as_str());
            let b = concat3(a.as_str(), " (", src.confidence.as_str());
            let c = concat(b.as_str(), ")");
            let mut r: Vec<String> = Vec::new();
            r.push(c);
            assert(r@.map_values(|e: String| e@) =~= spec_origin(*s, name@));
            return r;
        }
        i -= 1;
    }
    let r: Vec<String> = Vec::new();
    assert(r@.map_values(|e: String| e@) =~= spec_origin(*s, name@));
    r
}

fn push_diag(out: &mut Vec<Diagnostic>, d: Diagnostic)
    ensures
        views_of(final(out)@) == views_of(old(out)@).push(d@),
{
    let ghost before = views_of(out@);
    out.push(d);
    assert(views_of(out@) =~= before.push(d@));
}

fn texts2(a: String, b: String) -> (r: Vec<String>)
    ensures
        r@.map_values(|e: String| e@) == seq![a@, b@],
{
    let mut r: Vec<String> = Vec::new();
    r.push(a);
    r.push(b);
    assert(r@.map_values(|e: String| e@) =~= seq![a@, b@]);
    r
}

fn texts1(a: String) -> (r: Vec<String>)
    ensures
        r@.map_values(|e: String| e@) == seq![a@],
{
    let mut r: Vec<String> = Vec::new();
    r.push(a);
    assert(r@.map_values(|e: String| e@) =~= seq![a@]);
    r
}

fn no_texts() -> (r: Vec<String>)
    ensures
        r@.map_values(|e: String| e@) == Seq::<Seq<char>>::empty(),
{
    let r: Vec<String> = Vec::new();
    assert(r@.map_values(|e: String| e@) =~= Seq::<Seq<char>>::empty());
    r
}

fn s(t: &str) -> (r: String)
    ensures
        r@ == t@,
{
    String::from_str(t)
}

/// The finding that PyTorch's CUDA and nvcc disagree on major.minor.
pub open spec fn check_cuda_mismatch(s: Snapshot) -> Seq<DiagnosticView> {
    match (s.python.torch_cuda, s.cuda.nvcc_version) {
        (Some(t), Some(n)) => if spec_major_minor(t@) != spec_major_minor(n@) {
            seq![
                DiagnosticView {
                    code: "cuda.toolkit-mismatch"@,
                    severity: Severity::Error,
                    title: "CUDA toolkit mismatch"@,
                    evidence: seq!["PyTorch CUDA: "@ + t@, "nvcc: "@ + n@],
                    origins: spec_origin(s, "CUDA_HOME"@),
                    impact: "Compiling CUDA extensions may fail or produce binaries for the wrong toolkit."@,
                    action: "Activate a CUDA toolkit matching PyTorch, or install a PyTorch build matching nvcc."@,
                },
            ]
        } else {
            seq![]
        },
        _ => seq![],
    }
}

fn cuda_mismatch(sn: &Snapshot, out: &mut Vec<Diagnostic>)
    ensures
        views_of(final(out)@) == views_of(old(out)@) + check_cuda_mismatch(*sn),
{
    match (&sn.python.torch_cuda, &sn.cuda.nvcc_version) {
        (Some(torch), Some(nvcc)) => {
            if !text_eq(major_minor(torch.as_str()).as_str(), major_minor(nvcc.as_str()).as_str()) {
                let d = Diagnostic {
                    code: s("cuda.toolkit-mismatch"),
                    severity: Severity::Error,
                    title: s("CUDA toolkit mismatch"),
                    evidence: texts2(concat("PyTorch CUDA: ", torch.as_str()), concat("nvcc: ", nvcc.as_str())),
                    origins: origin(sn, "CUDA_HOME"),
                    impact: s("Compiling CUDA extensions may fail or produce binaries for the wrong toolkit."),
                    action: s("Activate a CUDA toolkit matching PyTorch, or install a PyTorch build matching nvcc."),
                };
                push_diag(out, d);
                return ;
            }
        },
        _ => {},
    }
    assert(views_of(out@) =~= views_of(out@) + check_cuda_mismatch(*sn));
}

/// The finding that `CUDA_HOME` is set to something that is not a directory.
pub open spec fn check_missing_cuda_home(s: Snapshot, probe: DoctorProbe) -> Seq<DiagnosticView> {
    match s.cuda.cuda_home {
        Some(home) => if !probe.cuda_home_is_dir {
            seq![
                DiagnosticView {
                    code: "cuda.home-missing"@,
                    severity: Severity::Error,
                    title: "CUDA_HOME does not exist"@,
                    evidence: seq!["CUDA_HOME: "@ + home@],
                    origins: spec_origin(s, "CUDA_HOME"@),
                    impact: "Build tools that rely on CUDA_HOME cannot locate the toolkit."@,
                    action: "Unset CUDA_HOME or point it at an installed CUDA toolkit."@,
                },
            ]
        } else {
            seq![]
        },
        None => seq![],
    }
}

fn missing_cuda_home(sn: &Snapshot, probe: &DoctorProbe, out: &mut Vec<Diagnostic>)
    ensures
        views_of(final(out)@) == views_of(old(out)@) + check_missing_cuda_home(*sn, *probe),
{
    match &sn.cuda.cuda_home {
        Some(home) => {
            if !probe.cuda_home_is_dir {
                let d = Diagnostic {
                    code: s("cuda.home-missing"),
                    severity: Severity::Error,
                    title: s("CUDA_HOME does not exist"),
                    evidence: texts1(concat("CUDA_HOME: ", home.as_str())),
                    origins: origin(sn, "CUDA_HOME"),
                    impact: s("Build tools that rely on CUDA_HOME cannot locate the toolkit."),
                    action: s("Unset CUDA_HOME or point it at an installed CUDA toolkit."),
                };
                push_diag(out, d);
                return ;
            }
        },
        None => {},
    }
    assert(views_of(out@) =~= views_of(out@) + check_missing_cuda_home(*sn, *probe));
}

/// The finding that `VIRTUAL_ENV` and the running Python's prefix are different paths.
pub open spec fn check_inactive_virtual_env(s: Snapshot, probe: DoctorProbe) -> Seq<DiagnosticView> {
    match (s.python.virtual_env, s.python.prefix) {
        (Some(active), Some(prefix)) => if path_key(canon(probe, active@)) != path_key(canon(probe, prefix@)) {
            seq![
                DiagnosticView {
                    code: "python.venv-mismatch"@,
                    severity: Severity::Error,
                    title: "VIRTUAL_ENV and active Python disagree"@,
                    evidence: seq!["VIRTUAL_ENV: "@ + active@, "Python prefix: "@ + prefix@],
                    origins: spec_origin(s, "VIRTUAL_ENV"@),
                    impact: "Python and pip commands may install into or run from different environments."@,
                    action: "Reactivate the intended virtual environment and verify `command -v python` and `command -v pip`."@,
                },
            ]
        } else {
            seq![]
        },
        _ => seq![],
    }
}

fn inactive_virtual_env(sn: &Snapshot, probe: &DoctorProbe, out: &mut Vec<Diagnostic>)
    ensures
        views_of(final(out)@) == views_of(old(out)@) + check_inactive_virtual_env(*sn, *probe),
{
    match (&sn.python.virtual_env, &sn.python.prefix) {
        (Some(active), Some(prefix)) => {
            let a = canonical_of(probe, active.as_str());
            let p = canonical_of(probe, prefix.as_str());
            if !path_eq(a.as_str(), p.as_str()) {
                let d = Diagnostic {
                    code: s("python.venv-mismatch"),
                    severity: Severity::Error,
                    title: s("VIRTUAL_ENV and active Python disagree"),
                    evidence: texts2(concat("VIRTUAL_ENV: ", active.as_str()), concat("Python prefix: ", prefix.as_str())),
                    origins: origin(sn, "VIRTUAL_ENV"),
                    impact: s("Python and pip commands may install into or run from different environments."),
                    action: s("Reactivate the intended virtual environment and verify `command -v python` and `command -v pip`."),
                };
                push_diag(out, d);
                return ;
            }
        },
        _ => {},
    }
    assert(views_of(out@) =~= views_of(out@) + check_inactive_virtual_env(*sn, *probe));
}

/// A path as shown in evidence, or `not detected`.
pub open spec fn spec_display_path(p: Option<String>) -> Seq<char> {
    match p {
        Some(x) => x@,
        None => "not detected"@,
    }
}

pub fn display_path(path: &Option<String>) -> (r: String)
    ensures
        r@ == spec_display_path(*path),
{
    match path {
        Some(p) => p.clone(),
        None => s("not detected"),
    }
}

/// The finding that `python` and `pip` run on different major.minor versions.
pub open spec fn check_pip_mismatch(s: Snapshot) -> Seq<DiagnosticView> {
    match (s.python.version, s.python.pip_python_version) {
        (Some(py), Some(pip)) => if spec_major_minor(py@) != spec_major_minor(pip@) {
            seq![
                DiagnosticView {
                    code: "python.pip-interpreter-mismatch"@,
                    severity: Severity::Error,
                    title: "python and pip use different interpreters"@,
                    evidence: seq![
                        "python: "@ + py@ + " ("@ + spec_display_path(s.python.executable) + ")"@,
                        "pip Python: "@ + pip@ + " ("@ + spec_display_path(s.python.pip_executable) + ")"@,
                    ],
                    origins: seq![],
                    impact: "Packages may be installed into an environment different from the one running your code."@,
                    action: "Use `python -m pip` or activate the intended environment before installing packages."@,
                },
            ]
        } else {
            seq![]
        },
        _ => seq![],
    }
}

fn pip_interpreter_mismatch(sn: &Snapshot, out: &mut Vec<Diagnostic>)
    ensures
        views_of(final(out)@) == views_of(old(out)@) + check_pip_mismatch(*sn),
{
    match (&sn.python.version, &sn.python.pip_python_version) {
        (Some(py), Some(pip)) => {
            if !text_eq(major_minor(py.as_str()).as_str(), major_minor(pip.as_str()).as_str()) {
                let a = concat3("python: ", py.as_str(), " (");
                let a = concat3(a.as_str(), display_path(&sn.python.executable).as_str(), ")");
                let b = concat3("pip Python: ", pip.as_str(), " (");
                let b = concat3(b.as_str(), display_path(&sn.python.pip_executable).as_str(), ")");
                let d = Diagnostic {
                    code: s("python.pip-interpreter-mismatch"),
                    severity: Severity::Error,
                    title: s("python and pip use different interpreters"),
                    evidence: texts2(a, b),
                    origins: no_texts(),
                    impact: s("Packages may be installed into an environment different from the one running your code."),
                    action: s("Use `python -m pip` or activate the intended environment before installing packages."),
                };
                push_diag(out, d);
                return ;
            }
        },
        _ => {},
    }
    assert(views_of(out@) =~= views_of(out@) + check_pip_mismatch(*sn));
}


/// Some candidate resolves to a different path than the first one, so more
/// than one distinct executable is visible.
pub open spec fn several_distinct(cands: Seq<String>, probe: DoctorProbe) -> bool {
    exists|i: int|
        0 <= i < cands.len() && path_key(canon(probe, #[trigger] cands[i]@)) != path_key(canon(probe, cands[0]@))
}

pub open spec fn shadow_check(name: Seq<char>, cands: Seq<String>, probe: DoctorProbe) -> Seq<DiagnosticView> {
    if several_distinct(cands, probe) {
        seq![
            DiagnosticView {
                code: "environment."@ + name + "-shadowed"@,
                severity: Severity::Info,
                title: "multiple "@ + name + " executables are visible"@,
                evidence: cands.map_values(|c: String| c@),
                origins: seq![],
                impact: "Different shells or PATH ordering may select a different "@ + name + "."@,
                action: "Verify `command -v "@ + name + "` before builds that depend on it."@,
            },
        ]
    } else {
        seq![]
    }
}

pub open spec fn check_shadowing(s: Snapshot, probe: DoctorProbe) -> Seq<DiagnosticView> {
    shadow_check("python"@, s.python.executable_candidates@, probe) + shadow_check(
        "pip"@,
        s.python.pip_candidates@,
        probe,
    ) + shadow_check("gcc"@, s.build.gcc.candidates@, probe) + shadow_check(
        "g++"@,
        s.build.gxx.candidates@,
        probe,
    ) + shadow_check("clang"@, s.build.clang.candidates@, probe)
}

fn copy_texts(v: &Vec<String>) -> (r: Vec<String>)
    ensures
        r@.map_values(|e: String| e@) == v@.map_values(|e: String| e@),
{
    let mut r: Vec<String> = Vec::new();
    let mut i: usize = 0;
    while i < v.len()
        invariant
            i <= v.len(),
            r@.map_values(|e: String| e@) == v@.map_values(|e: String| e@).take(i as int),
        decreases v.len() - i,
    {
        let ghost before = r@.map_values(|e: String| e@);
        r.push(v[i].clone());
        assert(r@.map_values(|e: String| e@) =~= before.push(v@[i as int]@));
        assert(v@.map_values(|e: String| e@).take(i + 1) =~= v@.map_values(|e: String| e@).take(i as int).push(v@[i as int]@));
        i += 1;
    }
    assert(v@.map_values(|e: String| e@).take(v.len() as int) =~= v@.map_values(|e: String| e@));
    r
}

fn shadowed(name: &str, cands: &Vec<String>, probe: &DoctorProbe, out: &mut Vec<Diagnostic>)
    ensures
        views_of(final(out)@) == views_of(old(out)@) + shadow_check(name@, cands@, *probe),
{
    let mut several = false;
    if cands.len() > 0 {
        let first = canonical_of(probe, cands[0].as_str());
        let mut i: usize = 0;
        while i < cands.len()
            invariant
                i <= cands.len(),
                cands.len() > 0,
                first@ == canon(*probe, cands@[0]@),
                several == exists|k: int| 0 <= k < i && path_key(canon(*probe, #[trigger] cands@[k]@)) != path_key(first@),
            decreases cands.len() - i,
        {
            let c = canonical_of(probe, cands[i].as_str());
            if !path_eq(c.as_str(), first.as_str()) {
                several = true;
            }
            i += 1;
        }
    }
    if several {
        let d = Diagnostic {
            code: concat3("environment.", name, "-shadowed"),
            severity: Severity::Info,
            title: concat3("multiple ", name, " executables are visible"),
            evidence: copy_texts(cands),
            origins: no_texts(),
            impact: concat3("Different shells or PATH ordering may select a different ", name, "."),
            action: concat3("Verify `command -v ", name, "` before builds that depend on it."),
        };
        push_diag(out, d);
    } else {
        assert(views_of(out@) =~= views_of(out@) + shadow_check(name@, cands@, *probe));
    }
}

fn executable_shadowing(sn: &Snapshot, probe: &DoctorProbe, out: &mut Vec<Diagnostic>)
    ensures
        views_of(final(out)@) == views_of(old(out)@) + check_shadowing(*sn, *probe),
{
    let ghost start = views_of(out@);
    shadowed("python", &sn.python.executable_candidates, probe, out);
    shadowed("pip", &sn.python.pip_candidates, probe, out);
    shadowed("gcc", &sn.build.gcc.candidates, probe, out);
    shadowed("g++", &sn.build.gxx.candidates, probe, out);
    shadowed("clang", &sn.build.clang.candidates, probe, out);
    assert(views_of(out@) =~= start + check_shadowing(*sn, *probe));
}

/// The finding that the toolkit version in `CUDA_HOME` and PyTorch's CUDA differ.
pub open spec fn check_cuda_home_mismatch(s: Snapshot) -> Seq<DiagnosticView> {
    match (s.cuda.cuda_home, s.python.torch_cuda) {
        (Some(home), Some(torch)) => match spec_version_from_path(home@) {
            Some(hv) => if spec_major_minor(hv) != spec_major_minor(torch@) {
                seq![
                    DiagnosticView {
                        code: "cuda.home-mismatch"@,
                        severity: Severity::Error,
                        title: "CUDA_HOME and PyTorch CUDA disagree"@,
                        evidence: seq!["torch CUDA: "@ + torch@, "CUDA_HOME: "@ + home@],
                        origins: spec_origin(s, "CUDA_HOME"@),
                        impact: "CUDA extensions may compile against a toolkit different from the PyTorch runtime."@,
                        action: "Point CUDA_HOME at the toolkit matching PyTorch, or install a matching PyTorch build."@,
                    },
                ]
            } else {
                seq![]
            },
            None => seq![],
        },
        _ => seq![],
    }
}

fn cuda_home_mismatch(sn: &Snapshot, out: &mut Vec<Diagnostic>)
    ensures
        views_of(final(out)@) == views_of(old(out)@) + check_cuda_home_mismatch(*sn),
{
    match (&sn.cuda.cuda_home, &sn.python.torch_cuda) {
        (Some(home), Some(torch)) => match version_from_path(home.as_str()) {
            Some(hv) => {
                if !text_eq(major_minor(hv.as_str()).as_str(), major_minor(torch.as_str()).as_str()) {
                    let d = Diagnostic {
                        code: s("cuda.home-mismatch"),
                        severity: Severity::Error,
                        title: s("CUDA_HOME and PyTorch CUDA disagree"),
                        evidence: texts2(concat("torch CUDA: ", torch.as_str()), concat("CUDA_HOME: ", home.as_str())),
                        origins: origin(sn, "CUDA_HOME"),
                        impact: s("CUDA extensions may compile against a toolkit different from the PyTorch runtime."),
                        action: s("Point CUDA_HOME at the toolkit matching PyTorch, or install a matching PyTorch build."),
                    };
                    push_diag(out, d);
                    return ;
                }
            },
            None => {},
        },
        _ => {},
    }
    assert(views_of(out@) =~= views_of(out@) + check_cuda_home_mismatch(*sn));
}

/// The finding that the driver supports an older CUDA than PyTorch needs.
pub open spec fn check_driver_too_old(s: Snapshot) -> Seq<DiagnosticView> {
    match (s.cuda.driver_cuda, s.python.torch_cuda) {
        (Some(cap), Some(torch)) => if pair_lt(spec_version_pair(cap@), spec_version_pair(torch@)) {
            seq![
                DiagnosticView {
                    code: "cuda.driver-capability"@,
                    severity: Severity::Error,
                    title: "NVIDIA driver CUDA capability is too old"@,
                    evidence: seq!["driver capability: CUDA "@ + cap@, "PyTorch CUDA: "@ + torch@],
                    origins: seq![],
                    impact: "CUDA initialization can fail even when the toolkit is installed correctly."@,
                    action: "Upgrade the NVIDIA driver or install a PyTorch build supported by this driver."@,
                },
            ]
        } else {
            seq![]
        },
        _ => seq![],
    }
}

fn pair_less(a: (u32, u32), b: (u32, u32)) -> (r: bool)
    ensures
        r == pair_lt(a, b),
{
    a.0 < b.0 || (a.0 == b.0 && a.1 < b.1)
}

fn cuda_driver_too_old(sn: &Snapshot, out: &mut Vec<Diagnostic>)
    ensures
        views_of(final(out)@) == views_of(old(out)@) + check_driver_too_old(*sn),
{
    match (&sn.cuda.driver_cuda, &sn.python.torch_cuda) {
        (Some(cap), Some(torch)) => {
            if pair_less(version_pair(cap.as_str()), version_pair(torch.as_str())) {
                let d = Diagnostic {
                    code: s("cuda.driver-capability"),
                    severity: Severity::Error,
                    title: s("NVIDIA driver CUDA capability is too old"),
                    evidence: texts2(concat("driver capability: CUDA ", cap.as_str()), concat("PyTorch CUDA: ", torch.as_str())),
                    origins: no_texts(),
                    impact: s("CUDA initialization can fail even when the toolkit is installed correctly."),
                    action: s("Upgrade the NVIDIA driver or install a PyTorch build supported by this driver."),
                };
                push_diag(out, d);
                return ;
            }
        },
        _ => {},
    }
    assert(views_of(out@) =~= views_of(out@) + check_driver_too_old(*sn));
}

/// The major version of a compiler's version line: its first numeric word up to the first dot.
pub open spec fn compiler_major(v: Seq<char>) -> Option<Seq<char>> {
    match spec_first_version(v) {
        Some(f) => Some(f.take(first_in(f, CharClass::Is('.')) as int)),
        None => None,
    }
}

pub open spec fn compiler_pair(ln: Seq<char>, l: ToolInfo, rn: Seq<char>, r: ToolInfo) -> Seq<DiagnosticView> {
    match (l.version, r.version) {
        (Some(a), Some(b)) => if compiler_major(a@) != compiler_major(b@) {
            seq![
                DiagnosticView {
                    code: "build."@ + ln + "-"@ + rn + "-mismatch"@,
                    severity: Severity::Warning,
                    title: ln + " and "@ + rn + " major versions differ"@,
                    evidence: seq![ln + ": "@ + a@, rn + ": "@ + b@],
                    origins: seq![],
                    impact: "C and C++ objects may be compiled with incompatible toolchain versions."@,
                    action: "Select matching compiler binaries through CC/CXX and PATH."@,
                },
            ]
        } else {
            seq![]
        },
        _ => seq![],
    }
}

pub open spec fn check_compilers(s: Snapshot) -> Seq<DiagnosticView> {
    compiler_pair("gcc"@, s.build.gcc, "g++"@, s.build.gxx) + compiler_pair(
        "clang"@,
        s.build.clang,
        "clang++"@,
        s.build.clangxx,
    )
}

/// The first numeric piece is the earliest piece that starts with a digit;
/// where no piece does, there is none.
pub proof fn lemma_first_numeric(ps: Seq<Seq<char>>)
    ensures
        forall|i: int|
            0 <= i < ps.len() && #[trigger] ps[i].len() > 0 && is_digit(ps[i][0]) && (forall|j: int|
                0 <= j < i ==> !(ps[j].len() > 0 && is_digit(ps[j][0]))) ==> first_numeric(ps) == Some(ps[i]),
        (forall|i: int| 0 <= i < ps.len() ==> !(ps[i].len() > 0 && is_digit(ps[i][0]))) ==> first_numeric(ps) is None,
    decreases ps.len(),
{
    if ps.len() > 0 && !(ps[0].len() > 0 && is_digit(ps[0][0])) {
        let t = ps.drop_first();
        lemma_first_numeric(t);
        assert forall|i: int|
            0 <= i < ps.len() && #[trigger] ps[i].len() > 0 && is_digit(ps[i][0]) && (forall|j: int|
                0 <= j < i ==> !(ps[j].len() > 0 && is_digit(ps[j][0]))) implies first_numeric(ps) == Some(ps[i]) by {
            assert(i > 0);
            assert(t[i - 1] == ps[i]);
            assert forall|j: int| 0 <= j < i - 1 implies !(t[j].len() > 0 && is_digit(t[j][0])) by {
                assert(t[j] == ps[j + 1]);
            }
        }
        if forall|i: int| 0 <= i < ps.len() ==> !(ps[i].len() > 0 && is_digit(ps[i][0])) {
            assert forall|i: int| 0 <= i < t.len() implies !(t[i].len() > 0 && is_digit(t[i][0])) by {
                assert(t[i] == ps[i + 1]);
            }
        }
    }
}

/// The major version of a compiler is the part of its first numeric word
/// before the first dot (`11` of `gcc (GCC) 11.4.0`), or the whole word where
/// it has no dot.
pub proof fn lemma_compiler_major(v: Seq<char>, major: Seq<char>, rest: Seq<char>)
    requires
        forall|k: int| 0 <= k < major.len() ==> major[k] != '.',
    ensures
        spec_first_version(v) == Some(major + seq!['.'] + rest) ==> compiler_major(v) == Some(major),
        spec_first_version(v) == Some(major) ==> compiler_major(v) == Some(major),
{
    let f = major + seq!['.'] + rest;
    assert forall|k: int| 0 <= k < major.len() implies !CharClass::Is('.').has(#[trigger] f[k]) by {
        assert(f[k] == major[k]);
    }
    assert(f[major.len() as int] == '.');
    crate::text::lemma_first_in(f, CharClass::Is('.'), major.len() as int);
    assert(f.take(major.len() as int) =~= major);
    assert forall|k: int| 0 <= k < major.len() implies !CharClass::Is('.').has(#[trigger] major[k]) by {}
    crate::text::lemma_first_in(major, CharClass::Is('.'), major.len() as int);
    assert(major.take(major.len() as int) =~= major);
}

/// Where the first numeric words of the `gcc` and `g++` versions have
/// different numbers before their first dots, the diagnosis warns that the
/// major versions differ; where they have the same, it does not.
pub proof fn lemma_gcc_mismatch(s: Snapshot, m1: Seq<char>, r1: Seq<char>, m2: Seq<char>, r2: Seq<char>)
    requires
        s.build.gcc.version matches Some(a) && spec_first_version(a@) == Some(m1 + seq!['.'] + r1),
        s.build.gxx.version matches Some(b) && spec_first_version(b@) == Some(m2 + seq!['.'] + r2),
        forall|k: int| 0 <= k < m1.len() ==> m1[k] != '.',
        forall|k: int| 0 <= k < m2.len() ==> m2[k] != '.',
    ensures
        m1 != m2 ==> check_compilers(s).len() >= 1 && check_compilers(s)[0].code == "build.gcc-g++-mismatch"@
            && check_compilers(s)[0].severity == Severity::Warning && check_compilers(s)[0].title
            == "gcc and g++ major versions differ"@,
        m1 == m2 ==> compiler_pair("gcc"@, s.build.gcc, "g++"@, s.build.gxx).len() == 0,
{
    lemma_compiler_major(s.build.gcc.version->Some_0@, m1, r1);
    lemma_compiler_major(s.build.gxx.version->Some_0@, m2, r2);
    let p = compiler_pair("gcc"@, s.build.gcc, "g++"@, s.build.gxx);
    let q = compiler_pair("clang"@, s.build.clang, "clang++"@, s.build.clangxx);
    if m1 != m2 {
        assert(p.len() == 1);
        assert(check_compilers(s)[0] == p[0]);
        reveal_strlit("build.");
        reveal_strlit("gcc");
        reveal_strlit("-");
        reveal_strlit("g++");
        reveal_strlit("-mismatch");
        reveal_strlit("build.gcc-g++-mismatch");
        reveal_strlit(" and ");
        reveal_strlit(" major versions differ");
        reveal_strlit("gcc and g++ major versions differ");
        assert("build."@ + "gcc"@ + "-"@ + "g++"@ + "-mismatch"@ =~= "build.gcc-g++-mismatch"@);
        assert("gcc"@ + " and "@ + "g++"@ + " major versions differ"@ =~= "gcc and g++ major versions differ"@);
    }
}

fn major_of(v: &str) -> (r: Option<Vec<char>>)
    ensures
        match r {
            Some(m) => compiler_major(v@) == Some(m@),
            None => compiler_major(v@) is None,
        },
{
    match first_version(v) {
        Some(f) => {
            let fc = chars_of(f.as_str());
            let end = find_class(&fc, 0, CharClass::Is('.'));
            assert(fc@.skip(0) =~= fc@);
            let m = slice(&fc, 0, end);
            assert(m@ =~= fc@.take(end as int));
            Some(m)
        },
        None => None,
    }
}

fn compiler_check(ln: &str, l: &ToolInfo, rn: &str, r: &ToolInfo, out: &mut Vec<Diagnostic>)
    ensures
        views_of(final(out)@) == views_of(old(out)@) + compiler_pair(ln@, *l, rn@, *r),
{
    match (&l.version, &r.version) {
        (Some(a), Some(b)) => {
            let ma = major_of(a.as_str());
            let mb = major_of(b.as_str());
            let equal = match (&ma, &mb) {
                (Some(x), Some(y)) => same(x, y),
                (None, None) => true,
                _ => false,
            };
            if !equal {
                let code = concat3("build.", ln, "-");
                let code = concat3(code.as_str(), rn, "-mismatch");
                let title = concat3(ln, " and ", rn);
                let title = concat(title.as_str(), " major versions differ");
                let d = Diagnostic {
                    code,
                    severity: Severity::Warning,
                    title,
                    evidence: texts2(concat3(ln, ": ", a.as_str()), concat3(rn, ": ", b.as_str())),
                    origins: no_texts(),
                    impact: s("C and C++ objects may be compiled with incompatible toolchain versions."),
                    action: s("Select matching compiler binaries through CC/CXX and PATH."),
                };
                push_diag(out, d);
                return ;
            }
        },
        _ => {},
    }
    assert(views_of(out@) =~= views_of(out@) + compiler_pair(ln@, *l, rn@, *r));
}

fn compiler_mismatch(sn: &Snapshot, out: &mut Vec<Diagnostic>)
    ensures
        views_of(final(out)@) == views_of(old(out)@) + check_compilers(*sn),
{
    let ghost start = views_of(out@);
    compiler_check("gcc", &sn.build.gcc, "g++", &sn.build.gxx, out);
    compiler_check("clang", &sn.build.clang, "clang++", &sn.build.clangxx, out);
    assert(views_of(out@) =~= start + check_compilers(*sn));
}

/// The finding that a CMake project has no cmake.
pub open spec fn check_build_tools(s: Snapshot, probe: DoctorProbe) -> Seq<DiagnosticView> {
    if has_name(probe.project_entries@, "CMakeLists.txt"@) && s.build.cmake.path is None {
        seq![
            DiagnosticView {
                code: "build.cmake-missing"@,
                severity: Severity::Error,
                title: "CMake project detected but cmake is missing"@,
                evidence: seq!["project: "@ + s.project.path@],
                origins: seq![],
                impact: "The project cannot be configured with its declared build system."@,
                action: "Install CMake and ensure it is visible in PATH."@,
            },
        ]
    } else {
        seq![]
    }
}

fn missing_build_tools(sn: &Snapshot, probe: &DoctorProbe, out: &mut Vec<Diagnostic>)
    ensures
        views_of(final(out)@) == views_of(old(out)@) + check_build_tools(*sn, *probe),
{
    if holds(&probe.project_entries, "CMakeLists.txt") && sn.build.cmake.path.is_none() {
        let d = Diagnostic {
            code: s("build.cmake-missing"),
            severity: Severity::Error,
            title: s("CMake project detected but cmake is missing"),
            evidence: texts1(concat("project: ", sn.project.path.as_str())),
            origins: no_texts(),
            impact: s("The project cannot be configured with its declared build system."),
            action: s("Install CMake and ensure it is visible in PATH."),
        };
        push_diag(out, d);
    } else {
        assert(views_of(out@) =~= views_of(out@) + check_build_tools(*sn, *probe));
    }
}

/// Detached HEAD, unsynchronized submodules and uncommitted changes, in that order.
pub open spec fn check_git(s: Snapshot) -> Seq<DiagnosticView> {
    let detached = if s.git.detached == Some(true) {
        seq![
            DiagnosticView {
                code: "git.detached-head"@,
                severity: Severity::Warning,
                title: "Git is in detached HEAD state"@,
                evidence: seq![
                    "commit: "@ + match s.git.commit {
                        Some(c) => c@,
                        None => "unknown"@,
                    },
                ],
                origins: seq![],
                impact: "New commits can become difficult to find unless a branch is created."@,
                action: "Create or switch to a branch before committing work."@,
            },
        ]
    } else {
        seq![]
    };
    let submodules = if s.git.submodules_dirty == Some(true) {
        seq![
            DiagnosticView {
                code: "git.submodule-mismatch"@,
                severity: Severity::Warning,
                title: "Git submodules do not match the recorded checkout"@,
                evidence: seq![],
                origins: seq![],
                impact: "Builds may use missing, modified, or unexpected dependency revisions."@,
                action: "Inspect `git submodule status --recursive` and synchronize intentionally."@,
            },
        ]
    } else {
        seq![]
    };
    let dirty = if s.git.dirty == Some(true) {
        seq![
            DiagnosticView {
                code: "git.dirty"@,
                severity: Severity::Info,
                title: "Git working tree has uncommitted changes"@,
                evidence: seq![],
                origins: seq![],
                impact: "The current environment may not be reproducible from the recorded commit alone."@,
                action: "Commit, stash, or record the local changes when sharing a snapshot."@,
            },
        ]
    } else {
        seq![]
    };
    detached + submodules + dirty
}

fn git_state(sn: &Snapshot, out: &mut Vec<Diagnostic>)
    ensures
        views_of(final(out)@) == views_of(old(out)@) + check_git(*sn),
{
    let ghost start = views_of(out@);
    if sn.git.detached == Some(true) {
        let commit = match &sn.git.commit {
            Some(c) => c.clone(),
            None => s("unknown"),
        };
        let d = Diagnostic {
            code: s("git.detached-head"),
            severity: Severity::Warning,
            title: s("Git is in detached HEAD state"),
            evidence: texts1(concat("commit: ", commit.as_str())),
            origins: no_texts(),
            impact: s("New commits can become difficult to find unless a branch is created."),
            action: s("Create or switch to a branch before committing work."),
        };
        push_diag(out, d);
    }
    let ghost mid1 = views_of(out@);
    if sn.git.submodules_dirty == Some(true) {
        let d = Diagnostic {
            code: s("git.submodule-mismatch"),
            severity: Severity::Warning,
            title: s("Git submodules do not match the recorded checkout"),
            evidence: no_texts(),
            origins: no_texts(),
            impact: s("Builds may use missing, modified, or unexpected dependency revisions."),
            action: s("Inspect `git submodule status --recursive` and synchronize intentionally."),
        };
        push_diag(out, d);
    }
    let ghost mid2 = views_of(out@);
    if sn.git.dirty == Some(true) {
        let d = Diagnostic {
            code: s("git.dirty"),
            severity: Severity::Info,
            title: s("Git working tree has uncommitted changes"),
            evidence: no_texts(),
            origins: no_texts(),
            impact: s("The current environment may not be reproducible from the recorded commit alone."),
            action: s("Commit, stash, or record the local changes when sharing a snapshot."),
        };
        push_diag(out, d);
    }
    assert(views_of(out@) =~= start + check_git(*sn));
}


/// The finding that a project has no lock file.
pub open spec fn lockfile_diag(ecosystem: Seq<char>, expected: Seq<char>, action: Seq<char>) -> DiagnosticView {
    DiagnosticView {
        code: "project."@ + lower_all(ecosystem) + "-lockfile-missing"@,
        severity: Severity::Warning,
        title: ecosystem + " project is missing "@ + expected,
        evidence: seq![],
        origins: seq![],
        impact: "Dependency resolution can change between machines or over time."@,
        action: "To make installs reproducible, "@ + action + "."@,
    }
}

pub fn missing_lockfile(out: &mut Vec<Diagnostic>, ecosystem: &str, expected: &str, action: &str)
    ensures
        views_of(final(out)@) == views_of(old(out)@).push(lockfile_diag(ecosystem@, expected@, action@)),
{
    let lower = string_of(&lowered(&chars_of(ecosystem)));
    let d = Diagnostic {
        code: concat3("project.", lower.as_str(), "-lockfile-missing"),
        severity: Severity::Warning,
        title: concat3(ecosystem, " project is missing ", expected),
        evidence: no_texts(),
        origins: no_texts(),
        impact: s("Dependency resolution can change between machines or over time."),
        action: concat3("To make installs reproducible, ", action, "."),
    };
    push_diag(out, d);
}

/// The finding that the active tool does not meet the project's requirement.
pub open spec fn mismatch_diag(tool: Seq<char>, required: Seq<char>, actual: Seq<char>, action: Seq<char>) -> DiagnosticView {
    DiagnosticView {
        code: "project."@ + tool + "-version"@,
        severity: Severity::Error,
        title: "Active "@ + tool + " does not satisfy the project requirement"@,
        evidence: seq!["required: "@ + required, "active: "@ + actual],
        origins: seq![],
        impact: "Builds or dependency installation may fail or behave differently than expected."@,
        action: action,
    }
}

pub fn version_mismatch(out: &mut Vec<Diagnostic>, tool: &str, required: &str, actual: &str, action: &str)
    ensures
        views_of(final(out)@) == views_of(old(out)@).push(mismatch_diag(tool@, required@, actual@, action@)),
{
    let d = Diagnostic {
        code: concat3("project.", tool, "-version"),
        severity: Severity::Error,
        title: concat3("Active ", tool, " does not satisfy the project requirement"),
        evidence: texts2(concat("required: ", required), concat("active: ", actual)),
        origins: no_texts(),
        impact: s("Builds or dependency installation may fail or behave differently than expected."),
        action: s(action),
    };
    push_diag(out, d);
}

/// The text of a project file, where it was read.
pub open spec fn project_text(probe: DoctorProbe, name: Seq<char>) -> Option<Seq<char>> {
    lookup(probe.project_texts@, name)
}

pub fn read_project_text(probe: &DoctorProbe, name: &str) -> (r: Option<String>)
    ensures
        match r {
            Some(t) => project_text(*probe, name@) == Some(t@),
            None => project_text(*probe, name@) is None,
        },
{
    get_last(&probe.project_texts, name)
}

pub open spec fn is_file(probe: DoctorProbe, name: Seq<char>) -> bool {
    has_name(probe.project_files@, name)
}

pub open spec fn node_locked(probe: DoctorProbe) -> bool {
    is_file(probe, "package-lock.json"@) || is_file(probe, "pnpm-lock.yaml"@) || is_file(probe, "yarn.lock"@)
        || is_file(probe, "bun.lock"@) || is_file(probe, "bun.lockb"@)
}

pub open spec fn python_locked(probe: DoctorProbe) -> bool {
    is_file(probe, "uv.lock"@) || is_file(probe, "poetry.lock"@) || is_file(probe, "pdm.lock"@)
        || is_file(probe, "requirements.txt"@)
}

pub open spec fn check_lockfiles(s: Snapshot, probe: DoctorProbe) -> Seq<DiagnosticView> {
    let rust = if is_file(probe, "Cargo.toml"@) && !is_file(probe, "Cargo.lock"@) {
        seq![lockfile_diag("Rust"@, "Cargo.lock"@, "cargo generate-lockfile"@)]
    } else {
        seq![]
    };
    let node = if is_file(probe, "package.json"@) && !node_locked(probe) {
        seq![lockfile_diag("Node"@, "a package-manager lockfile"@, "run the chosen package manager's install command"@)]
    } else {
        seq![]
    };
    let python = if is_file(probe, "pyproject.toml"@) && !python_locked(probe) {
        seq![
            DiagnosticView {
                code: "project.python-lockfile-missing"@,
                severity: Severity::Info,
                title: "Python project has no detected dependency lock or requirements file"@,
                evidence: seq![join(s.project.path@, "pyproject.toml"@)],
                origins: seq![],
                impact: "Dependency resolution can produce different environments over time."@,
                action: "Generate the lockfile used by this project's package manager, if reproducible application installs are intended."@,
            },
        ]
    } else {
        seq![]
    };
    rust + node + python
}

fn lockfiles(sn: &Snapshot, probe: &DoctorProbe, out: &mut Vec<Diagnostic>)
    ensures
        views_of(final(out)@) == views_of(old(out)@) + check_lockfiles(*sn, *probe),
{
    let ghost start = views_of(out@);
    let files = &probe.project_files;
    if holds(files, "Cargo.toml") && !holds(files, "Cargo.lock") {
        missing_lockfile(out, "Rust", "Cargo.lock", "cargo generate-lockfile");
    }
    let ghost mid1 = views_of(out@);
    let locked = holds(files, "package-lock.json") || holds(files, "pnpm-lock.yaml") || holds(files, "yarn.lock")
        || holds(files, "bun.lock") || holds(files, "bun.lockb");
    if holds(files, "package.json") && !locked {
        missing_lockfile(out, "Node", "a package-manager lockfile", "run the chosen package manager's install command");
    }
    let ghost mid2 = views_of(out@);
    let py_locked = holds(files, "uv.lock") || holds(files, "poetry.lock") || holds(files, "pdm.lock") || holds(
        files,
        "requirements.txt",
    );
    if holds(files, "pyproject.toml") && !py_locked {
        let d = Diagnostic {
            code: s("project.python-lockfile-missing"),
            severity: Severity::Info,
            title: s("Python project has no detected dependency lock or requirements file"),
            evidence: texts1(join_path(sn.project.path.as_str(), "pyproject.toml")),
            origins: no_texts(),
            impact: s("Dependency resolution can produce different environments over time."),
            action: s("Generate the lockfile used by this project's package manager, if reproducible application installs are intended."),
        };
        push_diag(out, d);
    }
    assert(views_of(out@) =~= start + check_lockfiles(*sn, *probe));
}

/// The Rust toolchain check: the declared channel's major version against rustc's.
pub open spec fn check_rust_toolchain(s: Snapshot, probe: DoctorProbe) -> Seq<DiagnosticView> {
    let text = match project_text(probe, "rust-toolchain.toml"@) {
        Some(t) => Some(t),
        None => project_text(probe, "rust-toolchain"@),
    };
    match text {
        Some(t) => match spec_first_version(t) {
            Some(required) => match s.build.rustc.version {
                Some(rv) => match spec_first_version(rv@) {
                    Some(actual) => if spec_version_pair(actual).0 != spec_version_pair(required).0 {
                        seq![mismatch_diag("rust"@, required, actual, "Activate the declared Rust toolchain with rustup."@)]
                    } else {
                        seq![]
                    },
                    None => seq![],
                },
                None => seq![],
            },
            None => seq![],
        },
        None => seq![],
    }
}

/// The Node check: the active version against the minimum of `engines.node`.
pub open spec fn check_node_engine(s: Snapshot, probe: DoctorProbe) -> Seq<DiagnosticView> {
    match project_text(probe, "package.json"@) {
        Some(t) => match spec_engine_node(t) {
            Some(required) => match s.build.node.version {
                Some(nv) => match spec_first_version(nv@) {
                    Some(actual) => match spec_minimum_version(required) {
                        Some(minimum) => if pair_lt(spec_version_pair(actual), spec_version_pair(minimum)) {
                            seq![mismatch_diag("node"@, required, actual, "Install or activate a Node version satisfying package.json engines.node."@)]
                        } else {
                            seq![]
                        },
                        None => seq![],
                    },
                    None => seq![],
                },
                None => seq![],
            },
            None => seq![],
        },
        None => seq![],
    }
}

/// The Python check: the active version against the minimum of `requires-python`.
pub open spec fn check_requires_python(s: Snapshot, probe: DoctorProbe) -> Seq<DiagnosticView> {
    match project_text(probe, "pyproject.toml"@) {
        Some(t) => match toml_scan(lines(t), "requires-python"@) {
            Some(required) => match s.python.version {
                Some(actual) => match spec_minimum_version(required) {
                    Some(minimum) => if pair_lt(spec_version_pair(actual@), spec_version_pair(minimum)) {
                        seq![mismatch_diag("python"@, required, actual@, "Create or activate an environment satisfying requires-python."@)]
                    } else {
                        seq![]
                    },
                    None => seq![],
                },
                None => seq![],
            },
            None => seq![],
        },
        None => seq![],
    }
}

fn rust_toolchain(sn: &Snapshot, probe: &DoctorProbe, out: &mut Vec<Diagnostic>)
    ensures
        views_of(final(out)@) == views_of(old(out)@) + check_rust_toolchain(*sn, *probe),
{
    let text = match read_project_text(probe, "rust-toolchain.toml") {
        Some(t) => Some(t),
        None => read_project_text(probe, "rust-toolchain"),
    };
    if let Some(t) = text {
        if let Some(required) = first_version(t.as_str()) {
            if let Some(rv) = &sn.build.rustc.version {
                if let Some(actual) = first_version(rv.as_str()) {
                    if version_pair(actual.as_str()).0 != version_pair(required.as_str()).0 {
                        version_mismatch(out, "rust", required.as_str(), actual.as_str(), "Activate the declared Rust toolchain with rustup.");
                        return ;
                    }
                }
            }
        }
    }
    assert(views_of(out@) =~= views_of(out@) + check_rust_toolchain(*sn, *probe));
}

fn node_engine(sn: &Snapshot, probe: &DoctorProbe, out: &mut Vec<Diagnostic>)
    ensures
        views_of(final(out)@) == views_of(old(out)@) + check_node_engine(*sn, *probe),
{
    if let Some(t) = read_project_text(probe, "package.json") {
        if let Some(required) = json_engine_node(t.as_str()) {
            if let Some(nv) = &sn.build.node.version {
                if let Some(actual) = first_version(nv.as_str()) {
                    if let Some(minimum) = minimum_version(required.as_str()) {
                        if pair_less(version_pair(actual.as_str()), version_pair(minimum.as_str())) {
                            version_mismatch(out, "node", required.as_str(), actual.as_str(), "Install or activate a Node version satisfying package.json engines.node.");
                            return ;
                        }
                    }
                }
            }
        }
    }
    assert(views_of(out@) =~= views_of(out@) + check_node_engine(*sn, *probe));
}

fn requires_python(sn: &Snapshot, probe: &DoctorProbe, out: &mut Vec<Diagnostic>)
    ensures
        views_of(final(out)@) == views_of(old(out)@) + check_requires_python(*sn, *probe),
{
    if let Some(t) = read_project_text(probe, "pyproject.toml") {
        if let Some(required) = toml_string(t.as_str(), "requires-python") {
            if let Some(actual) = &sn.python.version {
                if let Some(minimum) = minimum_version(required.as_str()) {
                    if pair_less(version_pair(actual.as_str()), version_pair(minimum.as_str())) {
                        version_mismatch(out, "python", required.as_str(), actual.as_str(), "Create or activate an environment satisfying requires-python.");
                        return ;
                    }
                }
            }
        }
    }
    assert(views_of(out@) =~= views_of(out@) + check_requires_python(*sn, *probe));
}

/// A build file that declares CUDA compilation.
pub open spec fn declares_cuda(text: Option<Seq<char>>) -> bool {
    match text {
        Some(t) => find_sub(t, "CUDAExtension"@) is Some || find_sub(t, "CUDAToolkit"@) is Some || find_sub(
            t,
            "LANGUAGES CUDA"@,
        ) is Some,
        None => false,
    }
}

pub open spec fn check_cuda_build(s: Snapshot, probe: DoctorProbe) -> Seq<DiagnosticView> {
    let declared = declares_cuda(project_text(probe, "setup.py"@)) || declares_cuda(project_text(probe, "pyproject.toml"@))
        || declares_cuda(project_text(probe, "CMakeLists.txt"@));
    if declared && s.cuda.nvcc_path is None {
        seq![
            DiagnosticView {
                code: "project.cuda-build-toolkit-missing"@,
                severity: Severity::Error,
                title: "Project declares CUDA compilation but nvcc is unavailable"@,
                evidence: seq!["project: "@ + s.project.path@],
                origins: spec_origin(s, "CUDA_HOME"@),
                impact: "Native CUDA extensions cannot be compiled in this environment."@,
                action: "Install a compatible CUDA toolkit and expose nvcc through PATH or CUDA_HOME."@,
            },
        ]
    } else {
        seq![]
    }
}

fn declares_cuda_in(probe: &DoctorProbe, name: &str) -> (r: bool)
    ensures
        r == declares_cuda(project_text(*probe, name@)),
{
    match read_project_text(probe, name) {
        Some(t) => contains_text(t.as_str(), "CUDAExtension") || contains_text(t.as_str(), "CUDAToolkit")
            || contains_text(t.as_str(), "LANGUAGES CUDA"),
        None => false,
    }
}

fn cuda_build(sn: &Snapshot, probe: &DoctorProbe, out: &mut Vec<Diagnostic>)
    ensures
        views_of(final(out)@) == views_of(old(out)@) + check_cuda_build(*sn, *probe),
{
    let declared = declares_cuda_in(probe, "setup.py") || declares_cuda_in(probe, "pyproject.toml")
        || declares_cuda_in(probe, "CMakeLists.txt");
    if declared && sn.cuda.nvcc_path.is_none() {
        let d = Diagnostic {
            code: s("project.cuda-build-toolkit-missing"),
            severity: Severity::Error,
            title: s("Project declares CUDA compilation but nvcc is unavailable"),
            evidence: texts1(concat("project: ", sn.project.path.as_str())),
            origins: origin(sn, "CUDA_HOME"),
            impact: s("Native CUDA extensions cannot be compiled in this environment."),
            action: s("Install a compatible CUDA toolkit and expose nvcc through PATH or CUDA_HOME."),
        };
        push_diag(out, d);
    } else {
        assert(views_of(out@) =~= views_of(out@) + check_cuda_build(*sn, *probe));
    }
}

pub open spec fn check_manifests(s: Snapshot, probe: DoctorProbe) -> Seq<DiagnosticView> {
    check_lockfiles(s, probe) + check_rust_toolchain(s, probe) + check_node_engine(s, probe)
        + check_requires_python(s, probe) + check_cuda_build(s, probe)
}

fn project_manifests(sn: &Snapshot, probe: &DoctorProbe, out: &mut Vec<Diagnostic>)
    ensures
        views_of(final(out)@) == views_of(old(out)@) + check_manifests(*sn, *probe),
{
    let ghost start = views_of(out@);
    lockfiles(sn, probe, out);
    rust_toolchain(sn, probe, out);
    node_engine(sn, probe, out);
    requires_python(sn, probe, out);
    cuda_build(sn, probe, out);
    assert(views_of(out@) =~= start + check_manifests(*sn, *probe));
}

pub open spec fn env_path_check(s: Snapshot, probe: DoctorProbe, name: Seq<char>) -> Seq<DiagnosticView> {
    match lookup(s.environment.variables@, name) {
        Some(value) => if !has_name(probe.existing_paths@, value) {
            seq![
                DiagnosticView {
                    code: "environment."@ + lower_all(name) + "-missing"@,
                    severity: Severity::Warning,
                    title: name + " points to a missing path"@,
                    evidence: seq![name + ": "@ + value],
                    origins: spec_origin(s, name),
                    impact: "Tools using this variable may fail or silently use a fallback location."@,
                    action: "Create the path, correct "@ + name + ", or unset it if it is no longer needed."@,
                },
            ]
        } else {
            seq![]
        },
        None => seq![],
    }
}

pub open spec fn check_env_paths(s: Snapshot, probe: DoctorProbe) -> Seq<DiagnosticView> {
    env_path_check(s, probe, "HF_HOME"@) + env_path_check(s, probe, "TORCH_HOME"@) + env_path_check(
        s,
        probe,
        "WAN_CKPT"@,
    )
}

fn env_path(sn: &Snapshot, probe: &DoctorProbe, name: &str, out: &mut Vec<Diagnostic>)
    ensures
        views_of(final(out)@) == views_of(old(out)@) + env_path_check(*sn, *probe, name@),
{
    if let Some(value) = get_last(&sn.environment.variables, name) {
        if !holds(&probe.existing_paths, value.as_str()) {
            let lower = string_of(&lowered(&chars_of(name)));
            let a = concat3("Create the path, correct ", name, ", or unset it if it is no longer needed.");
            let d = Diagnostic {
                code: concat3("environment.", lower.as_str(), "-missing"),
                severity: Severity::Warning,
                title: concat(name, " points to a missing path"),
                evidence: texts1(concat3(name, ": ", value.as_str())),
                origins: origin(sn, name),
                impact: s("Tools using this variable may fail or silently use a fallback location."),
                action: a,
            };
            push_diag(out, d);
            return ;
        }
    }
    assert(views_of(out@) =~= views_of(out@) + env_path_check(*sn, *probe, name@));
}

fn missing_environment_paths(sn: &Snapshot, probe: &DoctorProbe, out: &mut Vec<Diagnostic>)
    ensures
        views_of(final(out)@) == views_of(old(out)@) + check_env_paths(*sn, *probe),
{
    let ghost start = views_of(out@);
    env_path(sn, probe, "HF_HOME", out);
    env_path(sn, probe, "TORCH_HOME", out);
    env_path(sn, probe, "WAN_CKPT", out);
    assert(views_of(out@) =~= start + check_env_paths(*sn, *probe));
}


/// `p` names a path that appears at least twice among `entries`.
pub open spec fn repeated(entries: Seq<String>, p: Seq<char>) -> bool {
    exists|i: int, j: int|
        0 <= i < j < entries.len() && path_key(#[trigger] entries[i]@) == path_key(p) && path_key(
            #[trigger] entries[j]@,
        ) == path_key(p)
}

/// Some PATH entry repeats.
pub open spec fn any_repeated(entries: Seq<String>) -> bool {
    exists|m: int| 0 <= m < entries.len() && repeated(entries, #[trigger] entries[m]@)
}

/// Entry `j` is where its path occurs for the second time: exactly one
/// earlier entry names the same path.
#[verifier::opaque]
pub open spec fn second_entry(entries: Seq<String>, j: int) -> bool {
    &&& 0 <= j < entries.len()
    &&& exists|i: int| 0 <= i < j && path_key(#[trigger] entries[i]@) == path_key(entries[j]@)
    &&& forall|a: int, b: int|
        0 <= a < b < j ==> !(path_key(#[trigger] entries[a]@) == path_key(entries[j]@) && path_key(
            #[trigger] entries[b]@,
        ) == path_key(entries[j]@))
}

/// `t` is the text, exactly as written, of an entry before index `i` at which
/// its path occurs for the second time.
#[verifier::opaque]
pub open spec fn repeat_text(entries: Seq<String>, i: int, t: Seq<char>) -> bool {
    exists|j: int| 0 <= j < i && #[trigger] second_entry(entries, j) && entries[j]@ == t
}

/// The evidence lists each repeated path once, in path order, and nothing
/// else; each is written as the entry at which its path first repeats.
pub open spec fn lists_repeated(entries: Seq<String>, ev: Seq<Seq<char>>) -> bool {
    &&& forall|a: int, b: int| 0 <= a < b < ev.len() ==> crate::paths::path_lt(ev[a], ev[b])
    &&& forall|k: int| 0 <= k < ev.len() ==> repeated(entries, #[trigger] ev[k])
    &&& forall|k: int| 0 <= k < ev.len() ==> repeat_text(entries, entries.len() as int, #[trigger] ev[k])
    &&& forall|m: int| 0 <= m < entries.len() && repeated(entries, #[trigger] entries[m]@) ==> exists|k: int|
        0 <= k < ev.len() && path_key(#[trigger] ev[k]) == path_key(entries[m]@)
}

/// The informational PATH finding with the given evidence.
pub open spec fn is_duplicates_finding(entries: Seq<String>, d: DiagnosticView) -> bool {
    &&& d.code == "environment.path-duplicates"@
    &&& d.severity == Severity::Info
    &&& d.title == "PATH contains duplicate entries"@
    &&& d.origins == Seq::<Seq<char>>::empty()
    &&& d.impact == "Usually harmless, but duplicate entries make executable resolution harder to reason about."@
    &&& d.action == "Remove repeated PATH additions from shell startup files."@
    &&& lists_repeated(entries, d.evidence)
}

/// The PATH finding: where an entry repeats, one informational finding whose
/// evidence lists each repeated path once, in path order.
pub open spec fn is_duplicates_report(entries: Seq<String>, d: Seq<DiagnosticView>) -> bool {
    if any_repeated(entries) {
        d.len() == 1 && is_duplicates_finding(entries, d[0])
    } else {
        d.len() == 0
    }
}

proof fn lemma_holds_after_insert(old_v: Seq<String>, idx: int, p: String, q: Seq<char>)
    requires
        0 <= idx <= old_v.len(),
    ensures
        holds_path(old_v.insert(idx, p), q) <==> (holds_path(old_v, q) || path_key(p@) == path_key(q)),
{
    let n = old_v.insert(idx, p);
    if holds_path(n, q) {
        let j = choose|j: int| 0 <= j < n.len() && path_key(#[trigger] n[j]@) == path_key(q);
        if j < idx {
            assert(n[j] == old_v[j]);
        } else if j > idx {
            assert(n[j] == old_v[j - 1]);
        }
    }
    if holds_path(old_v, q) {
        let j = choose|j: int| 0 <= j < old_v.len() && path_key(#[trigger] old_v[j]@) == path_key(q);
        if j < idx {
            assert(n[j] == old_v[j]);
        } else {
            assert(n[j + 1] == old_v[j]);
        }
    }
    if path_key(p@) == path_key(q) {
        assert(n[idx] == p);
    }
}

proof fn lemma_holds_after_add(old_v: Seq<String>, new_v: Seq<String>, added: bool, p: String)
    requires
        added == !holds_path(old_v, p@),
        !added ==> new_v == old_v,
        added ==> exists|i: int| 0 <= i <= old_v.len() && new_v == old_v.insert(i, p),
    ensures
        forall|q: Seq<char>| holds_path(new_v, q) <==> (holds_path(old_v, q) || path_key(p@) == path_key(q)),
{
    assert forall|q: Seq<char>| holds_path(new_v, q) <==> (holds_path(old_v, q) || path_key(p@) == path_key(q)) by {
        if added {
            let i = choose|i: int| 0 <= i <= old_v.len() && new_v == old_v.insert(i, p);
            lemma_holds_after_insert(old_v, i, p, q);
        } else {
            if path_key(p@) == path_key(q) {
                let j = choose|j: int| 0 <= j < old_v.len() && path_key(#[trigger] old_v[j]@) == path_key(p@);
                assert(path_key(old_v[j]@) == path_key(q));
            }
        }
    }
}

/// `seen` holds exactly the paths of the first `i` entries.
#[verifier::opaque]
pub open spec fn seen_state(seen: Seq<String>, entries: Seq<String>, i: int) -> bool {
    forall|q: Seq<char>| holds_path(seen, q) <==> exists|m: int| 0 <= m < i && path_key(#[trigger] entries[m]@) == path_key(q)
}

/// `dups` holds exactly the paths that repeat among the first `i` entries.
#[verifier::opaque]
pub open spec fn dups_state(dups: Seq<String>, entries: Seq<String>, i: int) -> bool {
    &&& forall|k: int| 0 <= k < dups.len() ==> repeated(entries.take(i), #[trigger] dups[k]@)
    &&& forall|m: int| 0 <= m < i && repeated(entries.take(i), #[trigger] entries[m]@) ==> holds_path(dups, entries[m]@)
}

proof fn lemma_seen_step(entries: Seq<String>, i: int, old_seen: Seq<String>, seen: Seq<String>, added: bool)
    requires
        0 <= i < entries.len(),
        seen_state(old_seen, entries, i),
        added == !holds_path(old_seen, entries[i]@),
        !added ==> seen == old_seen,
        added ==> exists|x: int| 0 <= x <= old_seen.len() && seen == old_seen.insert(x, entries[i]),
    ensures
        seen_state(seen, entries, i + 1),
{
    reveal(seen_state);
    lemma_holds_after_add(old_seen, seen, added, entries[i]);
    assert forall|q: Seq<char>| holds_path(seen, q) <==> exists|m: int| 0 <= m < i + 1 && path_key(#[trigger] entries[m]@) == path_key(q) by {
        if holds_path(old_seen, q) {
            let m = choose|m: int| 0 <= m < i && path_key(#[trigger] entries[m]@) == path_key(q);
        }
        if exists|m: int| 0 <= m < i + 1 && path_key(#[trigger] entries[m]@) == path_key(q) {
            let m = choose|m: int| 0 <= m < i + 1 && path_key(#[trigger] entries[m]@) == path_key(q);
            if m < i {
                assert(holds_path(old_seen, q));
            }
        }
    }
}

proof fn lemma_dups_step(
    entries: Seq<String>,
    i: int,
    old_seen: Seq<String>,
    old_dups: Seq<String>,
    dups: Seq<String>,
    added: bool,
)
    requires
        0 <= i < entries.len(),
        seen_state(old_seen, entries, i),
        dups_state(old_dups, entries, i),
        added == !holds_path(old_seen, entries[i]@),
        added ==> dups == old_dups,
        !added ==> forall|q: Seq<char>| holds_path(dups, q) <==> (holds_path(old_dups, q) || path_key(entries[i]@) == path_key(q)),
        !added ==> forall|k: int| 0 <= k < dups.len() ==> (exists|k0: int| 0 <= k0 < old_dups.len() && old_dups[k0] == #[trigger] dups[k]) || dups[k] == entries[i],
    ensures
        dups_state(dups, entries, i + 1),
{
    reveal(seen_state);
    reveal(dups_state);
    let t = entries.take(i);
    let t1 = entries.take(i + 1);
    let p = entries[i];
    assert forall|k: int| 0 <= k < dups.len() implies repeated(t1, #[trigger] dups[k]@) by {
        if added || exists|k0: int| 0 <= k0 < old_dups.len() && old_dups[k0] == dups[k] {
            let k0 = if added {
                k
            } else {
                choose|k0: int| 0 <= k0 < old_dups.len() && old_dups[k0] == dups[k]
            };
            assert(old_dups[k0] == dups[k]);
            assert(repeated(t, old_dups[k0]@));
            let (a, b) = choose|a: int, b: int|
                0 <= a < b < t.len() && path_key(#[trigger] t[a]@) == path_key(old_dups[k0]@) && path_key(
                    #[trigger] t[b]@,
                ) == path_key(old_dups[k0]@);
            assert(t1[a] == t[a] && t1[b] == t[b]);
        } else {
            assert(dups[k] == p);
            let m0 = choose|m: int| 0 <= m < i && path_key(#[trigger] entries[m]@) == path_key(p@);
            assert(t1[m0] == entries[m0] && t1[i] == p);
        }
    }
    assert forall|m: int| 0 <= m < i + 1 && repeated(t1, #[trigger] entries[m]@) implies holds_path(dups, entries[m]@) by {
        let (a, b) = choose|a: int, b: int|
            0 <= a < b < t1.len() && path_key(#[trigger] t1[a]@) == path_key(entries[m]@) && path_key(
                #[trigger] t1[b]@,
            ) == path_key(entries[m]@);
        if b < i {
            assert(t[a] == t1[a] && t[b] == t1[b]);
            assert(t[a] == entries[a]);
            assert(repeated(t, entries[a]@));
            assert(holds_path(old_dups, entries[a]@));
            let k = choose|k: int| 0 <= k < old_dups.len() && path_key(#[trigger] old_dups[k]@) == path_key(entries[a]@);
            if added {
                assert(dups[k] == old_dups[k]);
            }
            assert(holds_path(old_dups, entries[m]@));
        } else {
            assert(t1[a] == entries[a]);
            assert(t1[b] == p);
            assert(holds_path(old_seen, p@));
        }
    }
}

/// Each path in `dups` is written as the entry, among the first `i`, at
/// which it first repeats.
#[verifier::opaque]
pub open spec fn dups_texts(dups: Seq<String>, entries: Seq<String>, i: int) -> bool {
    forall|k: int| 0 <= k < dups.len() ==> repeat_text(entries, i, #[trigger] dups[k]@)
}

/// An entry whose path was seen before but is not yet among the repeated
/// paths is where its path occurs for the second time.
proof fn lemma_second_entry(entries: Seq<String>, i: int, old_seen: Seq<String>, old_dups: Seq<String>)
    requires
        0 <= i < entries.len(),
        seen_state(old_seen, entries, i),
        dups_state(old_dups, entries, i),
        holds_path(old_seen, entries[i]@),
        !holds_path(old_dups, entries[i]@),
    ensures
        second_entry(entries, i),
{
    reveal(seen_state);
    reveal(dups_state);
    reveal(second_entry);
    let p = entries[i];
    let t = entries.take(i);
    assert(holds_path(old_seen, p@));
    let m = choose|m: int| 0 <= m < i && path_key(#[trigger] entries[m]@) == path_key(p@);
    assert forall|a: int, b: int| 0 <= a < b < i implies !(path_key(#[trigger] entries[a]@) == path_key(
        entries[i]@,
    ) && path_key(#[trigger] entries[b]@) == path_key(entries[i]@)) by {
        if path_key(entries[a]@) == path_key(entries[i]@) && path_key(entries[b]@) == path_key(entries[i]@) {
            assert(t[a] == entries[a] && t[b] == entries[b]);
            assert(repeated(t, entries[a]@));
            assert(holds_path(old_dups, entries[a]@));
            let k1 = choose|k1: int| 0 <= k1 < old_dups.len() && path_key(#[trigger] old_dups[k1]@) == path_key(entries[a]@);
            assert(path_key(old_dups[k1]@) == path_key(p@));
        }
    }
}

/// `x` is one of the elements of `v`.
pub open spec fn among(v: Seq<String>, x: String) -> bool {
    exists|k0: int| 0 <= k0 < v.len() && v[k0] == x
}

proof fn lemma_texts_step(
    entries: Seq<String>,
    i: int,
    old_dups: Seq<String>,
    dups: Seq<String>,
    fresh: bool,
)
    requires
        0 <= i < entries.len(),
        dups_texts(old_dups, entries, i),
        fresh ==> second_entry(entries, i),
        forall|k: int| 0 <= k < dups.len() ==> among(old_dups, #[trigger] dups[k]) || (fresh && dups[k] == entries[i]),
    ensures
        dups_texts(dups, entries, i + 1),
{
    reveal(dups_texts);
    reveal(repeat_text);
    assert forall|k: int| 0 <= k < dups.len() implies repeat_text(entries, i + 1, #[trigger] dups[k]@) by {
        if among(old_dups, dups[k]) {
            let k0 = choose|k0: int| 0 <= k0 < old_dups.len() && old_dups[k0] == dups[k];
            assert(repeat_text(entries, i, old_dups[k0]@));
            let j = choose|j: int| 0 <= j < i && #[trigger] second_entry(entries, j) && entries[j]@ == old_dups[k0]@;
            assert(second_entry(entries, j));
        } else {
            assert(fresh && dups[k] == entries[i]);
            assert(second_entry(entries, i));
        }
    }
}

/// Before any entry, nothing has been seen and nothing repeats.
proof fn lemma_search_start(entries: Seq<String>)
    ensures
        seen_state(Seq::<String>::empty(), entries, 0),
        dups_state(Seq::<String>::empty(), entries, 0),
        dups_texts(Seq::<String>::empty(), entries, 0),
{
    reveal(seen_state);
    reveal(dups_state);
    reveal(dups_texts);
}

/// At the end of the entries, the search has found every repeated path.
proof fn lemma_found(entries: Seq<String>, dups: Seq<String>)
    requires
        sorted_paths(dups),
        dups_state(dups, entries, entries.len() as int),
        dups_texts(dups, entries, entries.len() as int),
    ensures
        repeated_found(entries, dups),
{
    reveal(dups_texts);
    lemma_dups_final(entries, dups);
    reveal(repeated_found);
}

proof fn lemma_dups_added(old_dups: Seq<String>, dups: Seq<String>, added2: bool, p: String)
    requires
        added2 == !holds_path(old_dups, p@),
        !added2 ==> dups == old_dups,
        added2 ==> exists|x: int| 0 <= x <= old_dups.len() && dups == old_dups.insert(x, p),
    ensures
        forall|q: Seq<char>| holds_path(dups, q) <==> (holds_path(old_dups, q) || path_key(p@) == path_key(q)),
        forall|k: int| 0 <= k < dups.len() ==> (exists|k0: int| 0 <= k0 < old_dups.len() && old_dups[k0] == #[trigger] dups[k]) || dups[k] == p,
{
    lemma_holds_after_add(old_dups, dups, added2, p);
    assert forall|k: int| 0 <= k < dups.len() implies (exists|k0: int| 0 <= k0 < old_dups.len() && old_dups[k0] == #[trigger] dups[k]) || dups[k] == p by {
        if added2 {
            let x = choose|x: int| 0 <= x <= old_dups.len() && dups == old_dups.insert(x, p);
            if k < x {
                assert(old_dups[k] == dups[k]);
            } else if k > x {
                assert(old_dups[k - 1] == dups[k]);
            }
        } else {
            assert(old_dups[k] == dups[k]);
        }
    }
}

proof fn lemma_dups_final(entries: Seq<String>, dups: Seq<String>)
    requires
        dups_state(dups, entries, entries.len() as int),
    ensures
        forall|k: int| 0 <= k < dups.len() ==> repeated(entries, #[trigger] dups[k]@),
        forall|m: int| 0 <= m < entries.len() && repeated(entries, #[trigger] entries[m]@) ==> holds_path(dups, entries[m]@),
{
    reveal(dups_state);
    assert(entries.take(entries.len() as int) =~= entries);
}

/// One entry's step of the search for repeated paths keeps its invariants.
proof fn lemma_walk_entry(
    entries: Seq<String>,
    i: int,
    old_seen: Seq<String>,
    seen: Seq<String>,
    old_dups: Seq<String>,
    dups: Seq<String>,
    added: bool,
    added2: bool,
)
    requires
        0 <= i < entries.len(),
        seen_state(old_seen, entries, i),
        dups_state(old_dups, entries, i),
        dups_texts(old_dups, entries, i),
        added == !holds_path(old_seen, entries[i]@),
        !added ==> seen == old_seen,
        added ==> exists|x: int| 0 <= x <= old_seen.len() && seen == old_seen.insert(x, entries[i]),
        added ==> dups == old_dups,
        !added ==> added2 == !holds_path(old_dups, entries[i]@),
        !added && !added2 ==> dups == old_dups,
        !added && added2 ==> exists|x: int| 0 <= x <= old_dups.len() && dups == old_dups.insert(x, entries[i]),
    ensures
        seen_state(seen, entries, i + 1),
        dups_state(dups, entries, i + 1),
        dups_texts(dups, entries, i + 1),
{
    let p = entries[i];
    lemma_seen_step(entries, i, old_seen, seen, added);
    if !added {
        lemma_dups_added(old_dups, dups, added2, p);
        lemma_dups_step(entries, i, old_seen, old_dups, dups, added);
        if added2 {
            lemma_second_entry(entries, i, old_seen, old_dups);
            assert forall|k: int| 0 <= k < dups.len() implies among(old_dups, #[trigger] dups[k]) || dups[k] == p by {
                if !(dups[k] == p) {
                    let k0 = choose|k0: int| 0 <= k0 < old_dups.len() && old_dups[k0] == dups[k];
                }
            }
        } else {
            assert forall|k: int| 0 <= k < dups.len() implies among(old_dups, #[trigger] dups[k]) by {
                assert(old_dups[k] == dups[k]);
            }
        }
        lemma_texts_step(entries, i, old_dups, dups, added2);
    } else {
        lemma_dups_step(entries, i, old_seen, old_dups, dups, added);
        assert forall|k: int| 0 <= k < dups.len() implies among(old_dups, #[trigger] dups[k]) by {
            assert(old_dups[k] == dups[k]);
        }
        lemma_texts_step(entries, i, old_dups, dups, false);
    }
}

/// `dups` holds each path that repeats among `entries` once, in path order,
/// and nothing else.
#[verifier::opaque]
pub open spec fn repeated_found(entries: Seq<String>, dups: Seq<String>) -> bool {
    &&& sorted_paths(dups)
    &&& forall|k: int| 0 <= k < dups.len() ==> repeat_text(entries, entries.len() as int, #[trigger] dups[k]@)
    &&& forall|k: int| 0 <= k < dups.len() ==> repeated(entries, #[trigger] dups[k]@)
    &&& forall|m: int| 0 <= m < entries.len() && repeated(entries, #[trigger] entries[m]@) ==> holds_path(dups, entries[m]@)
}

/// The PATH entries that repeat (by path), each once, in path order.
fn repeated_paths(entries: &Vec<String>) -> (dups: Vec<String>)
    ensures
        repeated_found(entries@, dups@),
{
    let mut seen: Vec<String> = Vec::new();
    let mut dups: Vec<String> = Vec::new();
    proof {
        lemma_search_start(entries@);
    }
    let mut i: usize = 0;
    while i < entries.len()
        invariant
            i <= entries.len(),
            sorted_paths(seen@),
            sorted_paths(dups@),
            seen_state(seen@, entries@, i as int),
            dups_state(dups@, entries@, i as int),
            dups_texts(dups@, entries@, i as int),
        decreases entries.len() - i,
    {
        let p = entries[i].clone();
        let ghost old_seen = seen@;
        let ghost old_dups = dups@;
        let added = insert_path(&mut seen, p.clone());
        let mut added2 = false;
        if !added {
            added2 = insert_path(&mut dups, p.clone());
        }
        proof {
            lemma_walk_entry(entries@, i as int, old_seen, seen@, old_dups, dups@, added, added2);
        }
        i += 1;
    }
    proof {
        lemma_found(entries@, dups@);
    }
    dups
}

/// Evidence that copies the repeated paths names each repeated entry.
proof fn lemma_evidence_covers(entries: Seq<String>, dups: Seq<String>, ev: Seq<Seq<char>>)
    requires
        forall|m: int| 0 <= m < entries.len() && repeated(entries, #[trigger] entries[m]@) ==> holds_path(dups, entries[m]@),
        ev == dups.map_values(|e: String| e@),
    ensures
        forall|m: int| 0 <= m < entries.len() && repeated(entries, #[trigger] entries[m]@) ==> exists|k: int|
            0 <= k < ev.len() && path_key(#[trigger] ev[k]) == path_key(entries[m]@),
{
    assert forall|m: int| 0 <= m < entries.len() && repeated(entries, #[trigger] entries[m]@) implies exists|k: int|
        0 <= k < ev.len() && path_key(#[trigger] ev[k]) == path_key(entries[m]@) by {
        assert(holds_path(dups, entries[m]@));
        let k = choose|k: int| 0 <= k < dups.len() && path_key(#[trigger] dups[k]@) == path_key(entries[m]@);
        assert(ev[k] == dups[k]@);
    }
}

/// Evidence that copies the repeated paths holds repeated paths only, in path order.
proof fn lemma_evidence_sound(entries: Seq<String>, dups: Seq<String>, ev: Seq<Seq<char>>)
    requires
        sorted_paths(dups),
        forall|k: int| 0 <= k < dups.len() ==> repeated(entries, #[trigger] dups[k]@),
        ev == dups.map_values(|e: String| e@),
    ensures
        forall|k: int| 0 <= k < ev.len() ==> repeated(entries, #[trigger] ev[k]),
        forall|a: int, b: int| 0 <= a < b < ev.len() ==> crate::paths::path_lt(ev[a], ev[b]),
{
    assert forall|k: int| 0 <= k < ev.len() implies repeated(entries, #[trigger] ev[k]) by {
        assert(ev[k] == dups[k]@);
    }
    assert forall|x: int, y: int| 0 <= x < y < ev.len() implies crate::paths::path_lt(ev[x], ev[y]) by {
        assert(ev[x] == dups[x]@ && ev[y] == dups[y]@);
    }
}

/// Some entry repeats once the list of repeated paths is not empty.
proof fn lemma_some_entry_repeats(entries: Seq<String>, dups: Seq<String>)
    requires
        dups.len() > 0,
        repeated_found(entries, dups),
    ensures
        any_repeated(entries),
{
    reveal(repeated_found);
    assert(repeated(entries, dups[0]@));
    let (a, b) = choose|a: int, b: int|
        0 <= a < b < entries.len() && path_key(#[trigger] entries[a]@) == path_key(dups[0]@) && path_key(
            #[trigger] entries[b]@,
        ) == path_key(dups[0]@);
    assert(repeated(entries, entries[a]@));
}

/// Evidence copied from the repeated paths lists them as the report asks.
proof fn lemma_lists_repeated(entries: Seq<String>, dups: Seq<String>, ev: Seq<Seq<char>>)
    requires
        repeated_found(entries, dups),
        ev == dups.map_values(|e: String| e@),
    ensures
        lists_repeated(entries, ev),
{
    reveal(repeated_found);
    lemma_evidence_covers(entries, dups, ev);
    lemma_evidence_sound(entries, dups, ev);
    assert forall|k: int| 0 <= k < ev.len() implies repeat_text(entries, entries.len() as int, #[trigger] ev[k]) by {
        assert(ev[k] == dups[k]@);
        assert(repeat_text(entries, entries.len() as int, dups[k]@));
    }
}

/// One finding of the PATH kind, where some entry repeats, is the PATH report.
proof fn lemma_report_found(entries: Seq<String>, d: DiagnosticView)
    requires
        any_repeated(entries),
        is_duplicates_finding(entries, d),
    ensures
        is_duplicates_report(entries, seq![d]),
{
    assert(seq![d][0] == d);
}

/// With no repeated path found, the PATH report is empty.
proof fn lemma_report_clean(entries: Seq<String>, dups: Seq<String>)
    requires
        dups.len() == 0,
        repeated_found(entries, dups),
    ensures
        is_duplicates_report(entries, Seq::<DiagnosticView>::empty()),
{
    reveal(repeated_found);
    if exists|m: int| 0 <= m < entries.len() && repeated(entries, #[trigger] entries[m]@) {
        let m = choose|m: int| 0 <= m < entries.len() && repeated(entries, #[trigger] entries[m]@);
        assert(holds_path(dups, entries[m]@));
    }
}

#[verifier::spinoff_prover]
fn duplicate_path_entries(sn: &Snapshot, out: &mut Vec<Diagnostic>)
    ensures
        views_of(final(out)@).len() >= views_of(old(out)@).len(),
        views_of(final(out)@).take(views_of(old(out)@).len() as int) == views_of(old(out)@),
        is_duplicates_report(
            sn.environment.path_entries@,
            views_of(final(out)@).skip(views_of(old(out)@).len() as int),
        ),
{
    let entries = &sn.environment.path_entries;
    let dups = repeated_paths(entries);
    let ghost start = views_of(out@);
    if dups.len() > 0 {
        let d = Diagnostic {
            code: s("environment.path-duplicates"),
            severity: Severity::Info,
            title: s("PATH contains duplicate entries"),
            evidence: copy_texts(&dups),
            origins: no_texts(),
            impact: s("Usually harmless, but duplicate entries make executable resolution harder to reason about."),
            action: s("Remove repeated PATH additions from shell startup files."),
        };
        let ghost dv = d@;
        push_diag(out, d);
        proof {
            assert(views_of(out@).take(start.len() as int) =~= start);
            assert(views_of(out@).skip(start.len() as int) =~= seq![dv]);
            lemma_some_entry_repeats(entries@, dups@);
            lemma_lists_repeated(entries@, dups@, dv.evidence);
            lemma_report_found(entries@, dv);
        }
    } else {
        proof {
            assert(views_of(out@).take(start.len() as int) =~= start);
            assert(views_of(out@).skip(start.len() as int) =~= Seq::<DiagnosticView>::empty());
            lemma_report_clean(entries@, dups@);
        }
    }
}

/// The findings of a diagnosis before the PATH check, in the order the checks run.
pub open spec fn ordered_findings(s: Snapshot, probe: DoctorProbe) -> Seq<DiagnosticView> {
    check_cuda_mismatch(s) + check_missing_cuda_home(s, probe) + check_inactive_virtual_env(s, probe)
        + check_pip_mismatch(s) + check_shadowing(s, probe) + check_cuda_home_mismatch(s)
        + check_driver_too_old(s) + check_compilers(s) + check_build_tools(s, probe)
        + check_manifests(s, probe) + check_git(s) + check_env_paths(s, probe)
}

/// Runs every check on a snapshot, with what was found on disk, and collects
/// the findings in order.
pub fn diagnose(snapshot: &Snapshot, probe: &DoctorProbe) -> (r: DoctorReport)
    requires
        snapshot.well_formed(),
    ensures
        views_of(r.diagnostics@).len() >= ordered_findings(*snapshot, *probe).len(),
        views_of(r.diagnostics@).take(ordered_findings(*snapshot, *probe).len() as int)
            == ordered_findings(*snapshot, *probe),
        is_duplicates_report(
            snapshot.environment.path_entries@,
            views_of(r.diagnostics@).skip(ordered_findings(*snapshot, *probe).len() as int),
        ),
{
    let mut diagnostics: Vec<Diagnostic> = Vec::new();
    cuda_mismatch(snapshot, &mut diagnostics);
    missing_cuda_home(snapshot, probe, &mut diagnostics);
    inactive_virtual_env(snapshot, probe, &mut diagnostics);
    pip_interpreter_mismatch(snapshot, &mut diagnostics);
    executable_shadowing(snapshot, probe, &mut diagnostics);
    cuda_home_mismatch(snapshot, &mut diagnostics);
    cuda_driver_too_old(snapshot, &mut diagnostics);
    compiler_mismatch(snapshot, &mut diagnostics);
    missing_build_tools(snapshot, probe, &mut diagnostics);
    project_manifests(snapshot, probe, &mut diagnostics);
    git_state(snapshot, &mut diagnostics);
    missing_environment_paths(snapshot, probe, &mut diagnostics);
    let ghost before = views_of(diagnostics@);
    proof {
        assert(views_of(Seq::<Diagnostic>::empty()) =~= Seq::<DiagnosticView>::empty());
        assert(before =~= ordered_findings(*snapshot, *probe));
    }
    duplicate_path_entries(snapshot, &mut diagnostics);
    DoctorReport { diagnostics }
}

/// A report has problems exactly when it counts at least one problem.
pub proof fn lemma_problems_counted(ds: Seq<Diagnostic>)
    ensures
        (count_problems(ds) > 0) <==> exists|i: int| 0 <= i < ds.len() && ds[i].severity != Severity::Info,
    decreases ds.len(),
{
    if ds.len() > 0 {
        lemma_problems_counted(ds.drop_last());
        if exists|i: int| 0 <= i < ds.len() && ds[i].severity != Severity::Info {
            let i = choose|i: int| 0 <= i < ds.len() && ds[i].severity != Severity::Info;
            if i < ds.len() - 1 {
                assert(ds.drop_last()[i] == ds[i]);
            }
        }
        if exists|i: int| 0 <= i < ds.len() - 1 && ds.drop_last()[i].severity != Severity::Info {
            let i = choose|i: int| 0 <= i < ds.len() - 1 && ds.drop_last()[i].severity != Severity::Info;
            assert(ds[i] == ds.drop_last()[i]);
        }
    }
}

} // verus!
