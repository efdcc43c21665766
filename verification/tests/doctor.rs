use devx::doctor::{diagnose, DoctorProbe, Severity};
use devx::snapshot::Snapshot;

fn codes(s: &Snapshot, probe: &DoctorProbe) -> Vec<String> {
    diagnose(s, probe).diagnostics.into_iter().map(|d| d.code).collect()
}

#[test]
fn detects_cuda_mismatch() {
    let mut s = Snapshot::default();
    s.python.torch_cuda = Some("12.8".into());
    s.cuda.nvcc_version = Some("12.4".into());
    let report = diagnose(&s, &DoctorProbe::default());
    assert!(report.diagnostics.iter().any(|d| d.code == "cuda.toolkit-mismatch"));
}

#[test]
fn accepts_matching_cuda_patch_versions() {
    let mut s = Snapshot::default();
    s.python.torch_cuda = Some("12.8".into());
    s.cuda.nvcc_version = Some("12.8.1".into());
    assert!(!diagnose(&s, &DoctorProbe::default())
        .diagnostics
        .iter()
        .any(|d| d.code == "cuda.toolkit-mismatch"));
}

#[test]
fn duplicate_path_is_informational() {
    let mut s = Snapshot::default();
    s.environment.path_entries = vec!["/bin".into(), "/bin".into()];
    let report = diagnose(&s, &DoctorProbe::default());
    assert_eq!(report.diagnostics.len(), 1);
    assert_eq!(report.diagnostics[0].severity, Severity::Info);
    assert!(!report.has_problems());
    assert_eq!(report.problem_count(), 0);
}

#[test]
fn detects_pip_interpreter_mismatch() {
    let mut s = Snapshot::default();
    s.python.version = Some("3.12.4".into());
    s.python.pip_python_version = Some("3.11".into());
    assert!(diagnose(&s, &DoctorProbe::default())
        .diagnostics
        .iter()
        .any(|d| d.code == "python.pip-interpreter-mismatch"));
}

#[test]
fn detects_driver_capability_mismatch() {
    let mut s = Snapshot::default();
    s.python.torch_cuda = Some("12.8".into());
    s.cuda.driver_cuda = Some("12.4".into());
    assert!(diagnose(&s, &DoctorProbe::default())
        .diagnostics
        .iter()
        .any(|d| d.code == "cuda.driver-capability"));
}

#[test]
fn a_clean_snapshot_has_no_findings() {
    let report = diagnose(&Snapshot::default(), &DoctorProbe::default());
    assert!(report.diagnostics.is_empty());
    assert!(!report.has_problems());
    assert_eq!(report.problem_count(), 0);
}

#[test]
fn problems_are_counted_and_flagged_together() {
    let mut s = Snapshot::default();
    s.python.torch_cuda = Some("12.8".into());
    s.cuda.nvcc_version = Some("12.4".into());
    s.cuda.driver_cuda = Some("12.4".into());
    s.environment.path_entries = vec!["/bin".into(), "/usr/bin".into(), "/bin/".into()];
    let report = diagnose(&s, &DoctorProbe::default());
    assert!(report.has_problems());
    let problems = report
        .diagnostics
        .iter()
        .filter(|d| d.severity != Severity::Info)
        .count();
    assert_eq!(report.problem_count(), problems);
    assert!(problems >= 2);
    let last = report.diagnostics.last().unwrap();
    assert_eq!(last.code, "environment.path-duplicates");
    assert_eq!(last.evidence, vec!["/bin/".to_string()]);
}

#[test]
fn missing_lockfile_is_reported_from_the_project_files() {
    let s = Snapshot::default();
    let probe = DoctorProbe {
        project_files: vec!["Cargo.toml".into()],
        project_entries: vec!["Cargo.toml".into()],
        ..Default::default()
    };
    assert!(codes(&s, &probe).iter().any(|c| c.contains("lockfile")));
    let locked = DoctorProbe {
        project_files: vec!["Cargo.toml".into(), "Cargo.lock".into()],
        project_entries: vec!["Cargo.toml".into(), "Cargo.lock".into()],
        ..Default::default()
    };
    assert!(!codes(&s, &locked).iter().any(|c| c.contains("lockfile")));
}
