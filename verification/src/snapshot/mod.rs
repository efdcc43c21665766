//! A portable description of a development environment, and what can be done
//! to one without looking at the machine again.
pub mod tools;
pub mod command;
pub mod cuda;
pub mod environment;
pub mod git;
pub mod python;
pub mod system;

use vstd::prelude::*;

use crate::assoc::{less, seq_lt, sorted_keys};
use crate::paths::{join, strip_prefix, strip_prefix_of};
use crate::processes::{ProcessInfo, ProjectProcesses};
use crate::text::{concat, decimal, decimal_string, replace, replace_all};

verus! {

/// A captured environment. `captured_at` is the RFC 3339 text of the capture time.
#[derive(Clone, Debug, Default)]
pub struct Snapshot {
    pub schema_version: u32,
    pub captured_at: String,
    pub system: SystemInfo,
    pub project: ProjectInfo,
    pub git: GitInfo,
    pub python: PythonInfo,
    pub cuda: CudaInfo,
    pub build: BuildInfo,
    pub disk: DiskInfo,
    pub processes: Vec<ProjectProcesses>,
    pub environment: EnvironmentInfo,
}

#[derive(Clone, Debug, Default)]
pub struct SystemInfo {
    pub os: Option<String>,
    pub architecture: String,
    pub hostname: Option<String>,
    pub kernel: Option<String>,
}

#[derive(Clone, Debug, Default)]
pub struct ProjectInfo {
    pub path: String,
    pub name: Option<String>,
}

#[derive(Clone, Debug, Default)]
pub struct GitInfo {
    pub root: Option<String>,
    pub commit: Option<String>,
    pub branch: Option<String>,
    pub dirty: Option<bool>,
    pub detached: Option<bool>,
    pub submodules_dirty: Option<bool>,
}

#[derive(Clone, Debug, Default)]
pub struct PythonInfo {
    pub executable: Option<String>,
    pub version: Option<String>,
    pub prefix: Option<String>,
    pub base_prefix: Option<String>,
    pub virtual_env: Option<String>,
    pub conda_prefix: Option<String>,
    pub torch_version: Option<String>,
    pub torch_cuda: Option<String>,
    pub pip_executable: Option<String>,
    pub pip_version: Option<String>,
    pub pip_python_version: Option<String>,
    pub module_pip_version: Option<String>,
    pub executable_candidates: Vec<String>,
    pub pip_candidates: Vec<String>,
}

#[derive(Clone, Debug, Default)]
pub struct CudaInfo {
    pub cuda_home: Option<String>,
    pub nvcc_path: Option<String>,
    pub nvcc_version: Option<String>,
    pub driver_version: Option<String>,
    pub driver_cuda: Option<String>,
}

#[derive(Clone, Debug, Default)]
pub struct ToolInfo {
    pub path: Option<String>,
    pub version: Option<String>,
    pub candidates: Vec<String>,
}

#[derive(Clone, Debug, Default)]
pub struct BuildInfo {
    pub gcc: ToolInfo,
    pub gxx: ToolInfo,
    pub clang: ToolInfo,
    pub clangxx: ToolInfo,
    pub cmake: ToolInfo,
    pub ninja: ToolInfo,
    pub rustc: ToolInfo,
    pub node: ToolInfo,
}

/// Capacity of the filesystem that holds the project. The usage percentage is
/// `used / (used + available)`; see `crate::disk::usage_fraction`.
#[derive(Clone, Debug, Default)]
pub struct DiskInfo {
    pub path: String,
    pub total_bytes: Option<u64>,
    pub used_bytes: Option<u64>,
    pub available_bytes: Option<u64>,
}

/// Shell environment: `variables` and `provenance` are ordered by name, each name once.
#[derive(Clone, Debug, Default)]
pub struct EnvironmentInfo {
    pub path_entries: Vec<String>,
    pub variables: Vec<(String, String)>,
    pub provenance: Vec<(String, EnvironmentSource)>,
}

/// The names of a provenance list are in strictly increasing order.
pub open spec fn sources_sorted(p: Seq<(String, EnvironmentSource)>) -> bool {
    forall|i: int, j: int| 0 <= i < j < p.len() ==> seq_lt(p[i].0@, p[j].0@)
}

impl EnvironmentInfo {
    /// `variables` and `provenance` are ordered by name, each name once.
    pub open spec fn well_formed(self) -> bool {
        &&& sorted_keys(self.variables@)
        &&& sources_sorted(self.provenance@)
    }

    /// Whether `variables` and `provenance` are ordered by name, each name once.
    pub fn is_well_formed(&self) -> (r: bool)
        ensures
            r == self.well_formed(),
    {
        let mut i: usize = 1;
        while i < self.variables.len()
            invariant
                1 <= i,
                i <= self.variables.len() || self.variables.len() == 0,
                forall|a: int, b: int| 0 <= a < b < i && b < self.variables@.len() ==> seq_lt(
                    self.variables@[a].0@,
                    self.variables@[b].0@,
                ),
            decreases self.variables.len() - i,
        {
            if !less(self.variables[i - 1].0.as_str(), self.variables[i].0.as_str()) {
                return false;
            }
            proof {
                assert forall|a: int, b: int| 0 <= a < b < i + 1 && b < self.variables@.len() implies seq_lt(
                    self.variables@[a].0@,
                    self.variables@[b].0@,
                ) by {
                    if b == i && a < i - 1 {
                        crate::assoc::lemma_lt_transitive(
                            self.variables@[a].0@,
                            self.variables@[i - 1].0@,
                            self.variables@[b].0@,
                        );
                    }
                }
            }
            i += 1;
        }
        let mut j: usize = 1;
        while j < self.provenance.len()
            invariant
                1 <= j,
                j <= self.provenance.len() || self.provenance.len() == 0,
                sorted_keys(self.variables@),
                forall|a: int, b: int| 0 <= a < b < j && b < self.provenance@.len() ==> seq_lt(
                    self.provenance@[a].0@,
                    self.provenance@[b].0@,
                ),
            decreases self.provenance.len() - j,
        {
            if !less(self.provenance[j - 1].0.as_str(), self.provenance[j].0.as_str()) {
                return false;
            }
            proof {
                assert forall|a: int, b: int| 0 <= a < b < j + 1 && b < self.provenance@.len() implies seq_lt(
                    self.provenance@[a].0@,
                    self.provenance@[b].0@,
                ) by {
                    if b == j && a < j - 1 {
                        crate::assoc::lemma_lt_transitive(
                            self.provenance@[a].0@,
                            self.provenance@[j - 1].0@,
                            self.provenance@[b].0@,
                        );
                    }
                }
            }
            j += 1;
        }
        true
    }
}

impl Snapshot {
    /// The invariant of a snapshot: its shell environment is well formed.
    pub open spec fn well_formed(self) -> bool {
        self.environment.well_formed()
    }
}

/// Where a variable seems to be set: a shell startup file and a line in it.
#[derive(Clone, Debug, Default)]
pub struct EnvironmentSource {
    pub file: String,
    pub line: usize,
    pub confidence: String,
}

/// The snapshot schema that this version reads and writes.
pub open spec fn schema_error(version: u32) -> Option<Seq<char>> {
    if version == 1 {
        None
    } else {
        Some("unsupported snapshot schema version "@ + decimal(version as nat))
    }
}

/// The error for a snapshot whose schema this version does not read.
pub fn check_schema_version(version: u32) -> (r: Result<(), String>)
    ensures
        match r {
            Ok(()) => schema_error(version) is None,
            Err(e) => schema_error(version) == Some(e@),
        },
{
    if version == 1 {
        Ok(())
    } else {
        Err(concat("unsupported snapshot schema version ", decimal_string(version as u64).as_str()))
    }
}

/// A `--minimal` snapshot: disk and shell-environment details left out.
pub fn make_minimal(snapshot: &mut Snapshot)
    ensures
        final(snapshot).disk.path@ == Seq::<char>::empty(),
        final(snapshot).disk.total_bytes is None,
        final(snapshot).disk.used_bytes is None,
        final(snapshot).disk.available_bytes is None,
        final(snapshot).environment.path_entries@.len() == 0,
        final(snapshot).environment.variables@.len() == 0,
        final(snapshot).environment.provenance@.len() == 0,
        final(snapshot).schema_version == old(snapshot).schema_version,
        final(snapshot).captured_at == old(snapshot).captured_at,
        final(snapshot).system == old(snapshot).system,
        final(snapshot).project == old(snapshot).project,
        final(snapshot).git == old(snapshot).git,
        final(snapshot).python == old(snapshot).python,
        final(snapshot).cuda == old(snapshot).cuda,
        final(snapshot).build == old(snapshot).build,
        final(snapshot).processes == old(snapshot).processes,
        final(snapshot).well_formed(),
{
    snapshot.disk = DiskInfo {
        path: String::new(),
        total_bytes: None,
        used_bytes: None,
        available_bytes: None,
    };
    snapshot.environment = EnvironmentInfo {
        path_entries: Vec::new(),
        variables: Vec::new(),
        provenance: Vec::new(),
    };
}

/// Text with the project path replaced by `<project>`, then the home directory by `<home>`.
pub open spec fn redact_text(value: Seq<char>, project: Seq<char>, home: Option<Seq<char>>) -> Seq<char> {
    let v = replace_all(value, project, "<project>"@);
    match home {
        Some(h) => replace_all(v, h, "<home>"@),
        None => v,
    }
}

/// A path under the project or under the home directory, rewritten below
/// `<project>` or `<home>`; any other path unchanged.
pub open spec fn redact_path(path: Seq<char>, project: Seq<char>, home: Option<Seq<char>>) -> Seq<char> {
    match strip_prefix(path, project) {
        Some(rel) => join("<project>"@, rel),
        None => match home {
            Some(h) => match strip_prefix(path, h) {
                Some(rel) => join("<home>"@, rel),
                None => path,
            },
            None => path,
        },
    }
}

pub open spec fn opt_view(o: Option<String>) -> Option<Seq<char>> {
    match o {
        Some(s) => Some(s@),
        None => None,
    }
}

pub open spec fn redact_opt(p: Option<String>, project: Seq<char>, home: Option<Seq<char>>) -> Option<Seq<char>> {
    match p {
        Some(s) => Some(redact_path(s@, project, home)),
        None => None,
    }
}

pub open spec fn redact_all(ps: Seq<String>, project: Seq<char>, home: Option<Seq<char>>) -> Seq<Seq<char>> {
    ps.map_values(|p: String| redact_path(p@, project, home))
}

pub open spec fn views(ps: Seq<String>) -> Seq<Seq<char>> {
    ps.map_values(|p: String| p@)
}

pub struct Redactor {
    pub project: String,
    pub home: Option<String>,
}

impl Redactor {
    pub open spec fn home_view(&self) -> Option<Seq<char>> {
        opt_view(self.home)
    }

    pub fn path(&self, p: &str) -> (r: String)
        ensures
            r@ == redact_path(p@, self.project@, self.home_view()),
    {
        match strip_prefix_of(p, self.project.as_str()) {
            Some(rel) => crate::paths::join_path("<project>", rel.as_str()),
            None => match &self.home {
                Some(h) => match strip_prefix_of(p, h.as_str()) {
                    Some(rel) => crate::paths::join_path("<home>", rel.as_str()),
                    None => String::from_str(p),
                },
                None => String::from_str(p),
            },
        }
    }

    pub fn text(&self, v: &str) -> (r: String)
        ensures
            r@ == redact_text(v@, self.project@, self.home_view()),
    {
        let first = replace(v, self.project.as_str(), "<project>");
        match &self.home {
            Some(h) => replace(first.as_str(), h.as_str(), "<home>"),
            None => first,
        }
    }

    pub fn opt(&self, p: &Option<String>) -> (r: Option<String>)
        ensures
            opt_view(r) == redact_opt(*p, self.project@, self.home_view()),
    {
        match p {
            Some(s) => Some(self.path(s.as_str())),
            None => None,
        }
    }

    pub fn all(&self, ps: &Vec<String>) -> (r: Vec<String>)
        ensures
            views(r@) == redact_all(ps@, self.project@, self.home_view()),
    {
        let mut out: Vec<String> = Vec::new();
        let mut i: usize = 0;
        while i < ps.len()
            invariant
                i <= ps.len(),
                views(out@) == redact_all(ps@, self.project@, self.home_view()).take(i as int),
            decreases ps.len() - i,
        {
            let ghost before = views(out@);
            let x = self.path(ps[i].as_str());
            out.push(x);
            assert(views(out@) =~= before.push(x@));
            assert(redact_all(ps@, self.project@, self.home_view()).take(i + 1) =~= redact_all(
                ps@,
                self.project@,
                self.home_view(),
            ).take(i as int).push(x@));
            i += 1;
        }
        assert(redact_all(ps@, self.project@, self.home_view()).take(ps.len() as int) =~= redact_all(
            ps@,
            self.project@,
            self.home_view(),
        ));
        out
    }

    pub fn texts(&self, ps: &Vec<String>) -> (r: Vec<String>)
        ensures
            views(r@) == ps@.map_values(|p: String| redact_text(p@, self.project@, self.home_view())),
    {
        let ghost target = ps@.map_values(|p: String| redact_text(p@, self.project@, self.home_view()));
        let mut out: Vec<String> = Vec::new();
        let mut i: usize = 0;
        while i < ps.len()
            invariant
                i <= ps.len(),
                target == ps@.map_values(|p: String| redact_text(p@, self.project@, self.home_view())),
                views(out@) == target.take(i as int),
            decreases ps.len() - i,
        {
            let ghost before = views(out@);
            let x = self.text(ps[i].as_str());
            out.push(x);
            assert(views(out@) =~= before.push(x@));
            assert(target.take(i + 1) =~= target.take(i as int).push(x@));
            i += 1;
        }
        assert(target.take(ps.len() as int) =~= target);
        out
    }

    pub fn tool(&self, t: &mut ToolInfo)
        ensures
            opt_view(final(t).path) == redact_opt(old(t).path, self.project@, self.home_view()),
            views(final(t).candidates@) == redact_all(old(t).candidates@, self.project@, self.home_view()),
            final(t).version == old(t).version,
    {
        t.path = self.opt(&t.path);
        t.candidates = self.all(&t.candidates);
    }
}


/// A process entry with its directory and evidence redacted.
pub open spec fn process_redacted(
    before: ProcessInfo,
    after: ProcessInfo,
    project: Seq<char>,
    home: Option<Seq<char>>,
) -> bool {
    &&& after.cwd@ == redact_path(before.cwd@, project, home)
    &&& after.attribution_evidence@ == redact_text(before.attribution_evidence@, project, home)
    &&& after.pid == before.pid
    &&& after.parent_pid == before.parent_pid
    &&& after.name == before.name
    &&& after.cpu_percent_bits == before.cpu_percent_bits
    &&& after.memory_bytes == before.memory_bytes
    &&& after.runtime_seconds == before.runtime_seconds
    &&& after.ports == before.ports
    &&& after.gpu_memory_bytes == before.gpu_memory_bytes
    &&& after.attribution_confidence == before.attribution_confidence
}

/// A project group with its root, evidence and processes redacted.
pub open spec fn group_redacted(
    before: ProjectProcesses,
    after: ProjectProcesses,
    project: Seq<char>,
    home: Option<Seq<char>>,
) -> bool {
    &&& after.root@ == redact_path(before.root@, project, home)
    &&& views(after.attribution_evidence@) == before.attribution_evidence@.map_values(
        |e: String| redact_text(e@, project, home),
    )
    &&& after.processes@.len() == before.processes@.len()
    &&& forall|i: int|
        0 <= i < before.processes@.len() ==> process_redacted(
            #[trigger] before.processes@[i],
            after.processes@[i],
            project,
            home,
        )
    &&& after.project == before.project
    &&& after.cpu_percent_bits == before.cpu_percent_bits
    &&& after.memory_bytes == before.memory_bytes
    &&& after.gpu_memory_bytes == before.gpu_memory_bytes
    &&& after.ports == before.ports
    &&& after.attribution_confidence == before.attribution_confidence
}

pub open spec fn tool_redacted(before: ToolInfo, after: ToolInfo, project: Seq<char>, home: Option<Seq<char>>) -> bool {
    &&& opt_view(after.path) == redact_opt(before.path, project, home)
    &&& views(after.candidates@) == redact_all(before.candidates@, project, home)
    &&& after.version == before.version
}

impl Redactor {
    fn process(&self, p: &mut ProcessInfo)
        ensures
            process_redacted(*old(p), *final(p), self.project@, self.home_view()),
    {
        p.cwd = self.path(p.cwd.as_str());
        p.attribution_evidence = self.text(p.attribution_evidence.as_str());
    }

    fn group(&self, g: &mut ProjectProcesses)
        ensures
            group_redacted(*old(g), *final(g), self.project@, self.home_view()),
    {
        g.root = self.path(g.root.as_str());
        g.attribution_evidence = self.texts(&g.attribution_evidence);
        let mut ps: Vec<ProcessInfo> = Vec::new();
        std::mem::swap(&mut ps, &mut g.processes);
        let ghost before = ps@;
        let mut i: usize = 0;
        while i < ps.len()
            invariant
                i <= ps.len(),
                ps@.len() == before.len(),
                forall|k: int| 0 <= k < i ==> process_redacted(
                    #[trigger] before[k],
                    ps@[k],
                    self.project@,
                    self.home_view(),
                ),
                forall|k: int| i <= k < before.len() ==> #[trigger] ps@[k] == before[k],
            decreases ps.len() - i,
        {
            self.process(&mut ps[i]);
            i += 1;
        }
        std::mem::swap(&mut ps, &mut g.processes);
    }
}

/// Replaces home and project prefixes in every captured path, and the project
/// and home texts in environment values and attribution evidence, so that a
/// snapshot can be shared. `home` is the home directory, where it is known.
pub fn redact_paths(snapshot: &mut Snapshot, home: Option<&str>)
    ensures
        ({
            let project = old(snapshot).project.path@;
            let h = match home {
                Some(x) => Some(x@),
                None => None,
            };
            let o = *old(snapshot);
            let n = *final(snapshot);
            &&& n.project.path@ == redact_path(project, project, h)
            &&& n.project.name == o.project.name
            &&& opt_view(n.git.root) == redact_opt(o.git.root, project, h)
            &&& opt_view(n.python.executable) == redact_opt(o.python.executable, project, h)
            &&& opt_view(n.python.prefix) == redact_opt(o.python.prefix, project, h)
            &&& opt_view(n.python.base_prefix) == redact_opt(o.python.base_prefix, project, h)
            &&& opt_view(n.python.virtual_env) == redact_opt(o.python.virtual_env, project, h)
            &&& opt_view(n.python.conda_prefix) == redact_opt(o.python.conda_prefix, project, h)
            &&& opt_view(n.python.pip_executable) == redact_opt(o.python.pip_executable, project, h)
            &&& views(n.python.executable_candidates@) == redact_all(o.python.executable_candidates@, project, h)
            &&& views(n.python.pip_candidates@) == redact_all(o.python.pip_candidates@, project, h)
            &&& tool_redacted(o.build.gcc, n.build.gcc, project, h)
            &&& tool_redacted(o.build.gxx, n.build.gxx, project, h)
            &&& tool_redacted(o.build.clang, n.build.clang, project, h)
            &&& tool_redacted(o.build.clangxx, n.build.clangxx, project, h)
            &&& tool_redacted(o.build.cmake, n.build.cmake, project, h)
            &&& tool_redacted(o.build.ninja, n.build.ninja, project, h)
            &&& tool_redacted(o.build.rustc, n.build.rustc, project, h)
            &&& tool_redacted(o.build.node, n.build.node, project, h)
            &&& opt_view(n.cuda.cuda_home) == redact_opt(o.cuda.cuda_home, project, h)
            &&& opt_view(n.cuda.nvcc_path) == redact_opt(o.cuda.nvcc_path, project, h)
            &&& n.disk.path@ == redact_path(o.disk.path@, project, h)
            &&& views(n.environment.path_entries@) == redact_all(o.environment.path_entries@, project, h)
            &&& n.environment.provenance@.len() == o.environment.provenance@.len()
            &&& forall|i: int| 0 <= i < o.environment.provenance@.len() ==> {
                let (k0, s0) = #[trigger] o.environment.provenance@[i];
                let (k1, s1) = n.environment.provenance@[i];
                &&& k1 == k0
                &&& s1.file@ == redact_path(s0.file@, project, h)
                &&& s1.line == s0.line
                &&& s1.confidence == s0.confidence
            }
            &&& n.environment.variables@.len() == o.environment.variables@.len()
            &&& forall|i: int| 0 <= i < o.environment.variables@.len() ==> {
                let (k0, v0) = #[trigger] o.environment.variables@[i];
                let (k1, v1) = n.environment.variables@[i];
                &&& k1 == k0
                &&& v1@ == redact_text(v0@, project, h)
            }
            &&& n.processes@.len() == o.processes@.len()
            &&& forall|i: int| 0 <= i < o.processes@.len() ==> group_redacted(
                #[trigger] o.processes@[i],
                n.processes@[i],
                project,
                h,
            )
            &&& n.schema_version == o.schema_version
            &&& n.captured_at == o.captured_at
            &&& n.system == o.system
            &&& n.git.commit == o.git.commit
            &&& n.git.branch == o.git.branch
            &&& n.git.dirty == o.git.dirty
            &&& n.git.detached == o.git.detached
            &&& n.git.submodules_dirty == o.git.submodules_dirty
            &&& n.python.version == o.python.version
            &&& n.python.torch_version == o.python.torch_version
            &&& n.python.torch_cuda == o.python.torch_cuda
            &&& n.python.pip_version == o.python.pip_version
            &&& n.python.pip_python_version == o.python.pip_python_version
            &&& n.python.module_pip_version == o.python.module_pip_version
            &&& n.cuda.nvcc_version == o.cuda.nvcc_version
            &&& n.cuda.driver_version == o.cuda.driver_version
            &&& n.cuda.driver_cuda == o.cuda.driver_cuda
            &&& n.disk.total_bytes == o.disk.total_bytes
            &&& n.disk.used_bytes == o.disk.used_bytes
            &&& n.disk.available_bytes == o.disk.available_bytes
        }),
        old(snapshot).well_formed() ==> final(snapshot).well_formed(),
{
    let r = Redactor {
        project: snapshot.project.path.clone(),
        home: match home {
            Some(h) => Some(String::from_str(h)),
            None => None,
        },
    };
    snapshot.project.path = r.path(snapshot.project.path.as_str());
    snapshot.git.root = r.opt(&snapshot.git.root);
    snapshot.python.executable = r.opt(&snapshot.python.executable);
    snapshot.python.prefix = r.opt(&snapshot.python.prefix);
    snapshot.python.base_prefix = r.opt(&snapshot.python.base_prefix);
    snapshot.python.virtual_env = r.opt(&snapshot.python.virtual_env);
    snapshot.python.conda_prefix = r.opt(&snapshot.python.conda_prefix);
    snapshot.python.pip_executable = r.opt(&snapshot.python.pip_executable);
    snapshot.python.executable_candidates = r.all(&snapshot.python.executable_candidates);
    snapshot.python.pip_candidates = r.all(&snapshot.python.pip_candidates);
    r.tool(&mut snapshot.build.gcc);
    r.tool(&mut snapshot.build.gxx);
    r.tool(&mut snapshot.build.clang);
    r.tool(&mut snapshot.build.clangxx);
    r.tool(&mut snapshot.build.cmake);
    r.tool(&mut snapshot.build.ninja);
    r.tool(&mut snapshot.build.rustc);
    r.tool(&mut snapshot.build.node);
    snapshot.cuda.cuda_home = r.opt(&snapshot.cuda.cuda_home);
    snapshot.cuda.nvcc_path = r.opt(&snapshot.cuda.nvcc_path);
    snapshot.disk.path = r.path(snapshot.disk.path.as_str());
    snapshot.environment.path_entries = r.all(&snapshot.environment.path_entries);
    let mut provenance: Vec<(String, EnvironmentSource)> = Vec::new();
    std::mem::swap(&mut provenance, &mut snapshot.environment.provenance);
    let ghost prov = provenance@;
    let mut i: usize = 0;
    while i < provenance.len()
        invariant
            i <= provenance.len(),
            provenance@.len() == prov.len(),
            forall|k: int| i <= k < prov.len() ==> #[trigger] provenance@[k] == prov[k],
            forall|k: int| 0 <= k < i ==> {
                let (k0, s0) = #[trigger] prov[k];
                let (k1, s1) = provenance@[k];
                &&& k1 == k0
                &&& s1.file@ == redact_path(s0.file@, r.project@, r.home_view())
                &&& s1.line == s0.line
                &&& s1.confidence == s0.confidence
            },
        decreases provenance.len() - i,
    {
        let entry = &mut provenance[i];
        entry.1.file = r.path(entry.1.file.as_str());
        i += 1;
    }
    std::mem::swap(&mut provenance, &mut snapshot.environment.provenance);
    let mut variables: Vec<(String, String)> = Vec::new();
    std::mem::swap(&mut variables, &mut snapshot.environment.variables);
    let ghost vars = variables@;
    let mut j: usize = 0;
    while j < variables.len()
        invariant
            j <= variables.len(),
            variables@.len() == vars.len(),
            forall|k: int| j <= k < vars.len() ==> #[trigger] variables@[k] == vars[k],
            forall|k: int| 0 <= k < j ==> {
                let (k0, v0) = #[trigger] vars[k];
                let (k1, v1) = variables@[k];
                &&& k1 == k0
                &&& v1@ == redact_text(v0@, r.project@, r.home_view())
            },
        decreases variables.len() - j,
    {
        let entry = &mut variables[j];
        entry.1 = r.text(entry.1.as_str());
        j += 1;
    }
    std::mem::swap(&mut variables, &mut snapshot.environment.variables);
    proof {
        let nv = snapshot.environment.variables@;
        let np = snapshot.environment.provenance@;
        assert(sorted_keys(vars) ==> sorted_keys(nv)) by {
            if sorted_keys(vars) {
                assert forall|a: int, b: int| 0 <= a < b < nv.len() implies seq_lt(nv[a].0@, nv[b].0@) by {
                    assert(nv[a].0 == vars[a].0 && nv[b].0 == vars[b].0);
                }
            }
        }
        assert(sources_sorted(prov) ==> sources_sorted(np)) by {
            if sources_sorted(prov) {
                assert forall|a: int, b: int| 0 <= a < b < np.len() implies seq_lt(np[a].0@, np[b].0@) by {
                    assert(np[a].0 == prov[a].0 && np[b].0 == prov[b].0);
                }
            }
        }
    }
    let mut processes: Vec<ProjectProcesses> = Vec::new();
    std::mem::swap(&mut processes, &mut snapshot.processes);
    let ghost groups = processes@;
    let mut g: usize = 0;
    while g < processes.len()
        invariant
            g <= processes.len(),
            processes@.len() == groups.len(),
            forall|k: int| g <= k < groups.len() ==> #[trigger] processes@[k] == groups[k],
            forall|k: int| 0 <= k < g ==> group_redacted(
                #[trigger] groups[k],
                processes@[k],
                r.project@,
                r.home_view(),
            ),
        decreases processes.len() - g,
    {
        r.group(&mut processes[g]);
        g += 1;
    }
    std::mem::swap(&mut processes, &mut snapshot.processes);
}

/// A new snapshot of the project at `path` (already resolved) from what was
/// found about it, in the current schema; the project is named by the last
/// component of its path.
pub fn assemble_snapshot(
    path: String,
    captured_at: String,
    system: SystemInfo,
    git: GitInfo,
    python: PythonInfo,
    cuda: CudaInfo,
    build: BuildInfo,
    disk: DiskInfo,
    processes: Vec<ProjectProcesses>,
    environment: EnvironmentInfo,
) -> (r: Snapshot)
    ensures
        r.schema_version == 1,
        r.captured_at == captured_at,
        r.project.path == path,
        opt_view(r.project.name) == crate::paths::file_name(path@),
        r.system == system,
        r.git == git,
        r.python == python,
        r.cuda == cuda,
        r.build == build,
        r.disk == disk,
        r.processes == processes,
        r.environment == environment,
        r.well_formed() <==> environment.well_formed(),
{
    let name = match crate::paths::file_name_of(&crate::text::chars_of(path.as_str())) {
        Some(n) => Some(crate::text::string_of(&n)),
        None => None,
    };
    Snapshot {
        schema_version: 1,
        captured_at,
        system,
        project: ProjectInfo { path, name },
        git,
        python,
        cuda,
        build,
        disk,
        processes,
        environment,
    }
}

} // verus!
