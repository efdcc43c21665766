use devx::diff::{compare_with, fields, DiffOptions, Relevance};
use devx::snapshot::Snapshot;

#[test]
fn ignores_capture_time_and_reports_version() {
    let a = Snapshot::default();
    let mut b = a.clone();
    b.python.version = Some("3.12.1".into());
    let report = compare_with(&a, &b, DiffOptions::default());
    assert_eq!(report.differences.len(), 1);
    assert_eq!(report.differences[0].field, "Python.version");
}

#[test]
fn filters_domains_and_host_noise() {
    let mut a = Snapshot::default();
    let mut b = Snapshot::default();
    a.python.version = Some("3.12".into());
    b.python.version = Some("3.11".into());
    a.system.hostname = Some("laptop".into());
    b.system.hostname = Some("server".into());
    let report = compare_with(
        &a,
        &b,
        DiffOptions {
            only: vec!["python".into()],
            ..Default::default()
        },
    );
    assert_eq!(report.differences.len(), 1);
    assert_eq!(report.differences[0].domain, "python");
    assert_eq!(report.differences[0].relevance, Relevance::LikelyRelevant);
}

#[test]
fn a_snapshot_equals_itself_whatever_its_capture_time() {
    let mut a = Snapshot::default();
    a.python.version = Some("3.12".into());
    a.environment.variables = vec![("CUDA_HOME".into(), "/opt/cuda".into())];
    let mut b = a.clone();
    b.captured_at = "2030-01-01T00:00:00Z".into();
    assert!(compare_with(&a, &a, DiffOptions::default()).differences.is_empty());
    assert!(compare_with(&a, &b, DiffOptions::default()).differences.is_empty());
}

#[test]
fn comparing_backwards_swaps_the_sides() {
    let mut a = Snapshot::default();
    let mut b = Snapshot::default();
    a.cuda.nvcc_version = Some("12.4".into());
    b.git.branch = Some("main".into());
    let ab = compare_with(&a, &b, DiffOptions::default());
    let ba = compare_with(&b, &a, DiffOptions::default());
    assert_eq!(ab.differences.len(), 2);
    assert_eq!(ba.differences.len(), 2);
    for (x, y) in ab.differences.iter().zip(ba.differences.iter()) {
        assert_eq!(x.field, y.field);
        assert_eq!(x.left, y.right);
        assert_eq!(x.right, y.left);
    }
    assert_eq!(ab.differences[0].field, "CUDA.nvcc");
    assert_eq!(ab.differences[1].field, "Git.branch");
    assert_eq!(ab.differences[1].relevance, Relevance::LikelyRelevant);
    assert!(ab.has_relevant_differences());
}

#[test]
fn host_noise_can_be_ignored() {
    let mut a = Snapshot::default();
    let mut b = Snapshot::default();
    a.system.hostname = Some("laptop".into());
    b.system.hostname = Some("server".into());
    let all = compare_with(&a, &b, DiffOptions::default());
    assert_eq!(all.differences.len(), 1);
    assert!(!all.has_relevant_differences());
    let quiet = compare_with(
        &a,
        &b,
        DiffOptions {
            ignore_host: true,
            ..Default::default()
        },
    );
    assert!(quiet.differences.is_empty());
}

#[test]
fn environment_variables_are_compared_by_name() {
    let mut a = Snapshot::default();
    let mut b = Snapshot::default();
    a.environment.variables = vec![("CUDA_HOME".into(), "/opt/cuda-12".into())];
    b.environment.variables = vec![("CUDA_HOME".into(), "/opt/cuda-11".into())];
    let report = compare_with(&a, &b, DiffOptions::default());
    assert_eq!(report.differences.len(), 1);
    assert_eq!(report.differences[0].field, "Environment.CUDA_HOME");
    assert_eq!(report.differences[0].domain, "environment");
}

#[test]
fn ignoring_the_host_drops_only_host_fields() {
    let mut a = Snapshot::default();
    let mut b = Snapshot::default();
    a.system.hostname = Some("laptop".into());
    b.system.hostname = Some("server".into());
    a.system.kernel = Some("6.1".into());
    b.system.kernel = Some("6.8".into());
    a.git.commit = Some("abc".into());
    b.git.commit = Some("def".into());
    let all = compare_with(&a, &b, DiffOptions::default());
    let quiet = compare_with(&a, &b, DiffOptions { ignore_host: true, ..Default::default() });
    let all_fields: Vec<&str> = all.differences.iter().map(|d| d.field.as_str()).collect();
    assert_eq!(all_fields, vec!["Git.commit", "System.hostname", "System.kernel"]);
    assert_eq!(quiet.differences.len(), 1);
    assert_eq!(quiet.differences[0].field, "Git.commit");
    assert_eq!(quiet.differences[0].left, all.differences[0].left);
    assert_eq!(quiet.differences[0].right, all.differences[0].right);
}

#[test]
fn field_lists_ignore_parts_that_are_not_compared() {
    let mut a = Snapshot::default();
    a.system.architecture = "x86_64".into();
    a.project.path = "/w/p".into();
    a.environment.variables = vec![("CUDA_HOME".into(), "/opt/cuda".into()), ("HF_HOME".into(), "/hf".into())];
    let mut b = a.clone();
    b.captured_at = "2030-01-01T00:00:00Z".into();
    b.schema_version = 7;
    b.project.name = Some("other".into());
    b.environment.path_entries = vec!["/bin".into()];
    b.disk.used_bytes = Some(5);
    let fa = fields(&a);
    assert_eq!(fa, fields(&b));
    let names: Vec<&str> = fa.iter().map(|(k, _)| k.as_str()).collect();
    let mut sorted = names.clone();
    sorted.sort();
    sorted.dedup();
    assert_eq!(names, sorted);
    assert!(fa.contains(&("System.architecture".to_string(), "x86_64".to_string())));
    assert!(fa.contains(&("Project.path".to_string(), "/w/p".to_string())));
    assert!(fa.contains(&("Environment.CUDA_HOME".to_string(), "/opt/cuda".to_string())));
    assert!(fa.contains(&("Environment.HF_HOME".to_string(), "/hf".to_string())));
}
