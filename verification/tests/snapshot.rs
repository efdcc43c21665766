use devx::snapshot::command::{command_text, executable_candidates, find_executable, find_executables};
use devx::snapshot::environment::{captured_names, collect_variables, provenance, startup_files};
use devx::snapshot::git::{git_info, submodules_dirty};
use devx::snapshot::system::os_name;
use devx::snapshot::tools::{first_line_of, tool_info};
use devx::snapshot::{check_schema_version, make_minimal, Snapshot};

#[test]
fn command_text_is_trimmed_and_not_empty() {
    assert_eq!(command_text("  v1.2\n"), Some("v1.2".to_string()));
    assert_eq!(command_text(" \n\t"), None);
}

#[test]
fn executables_are_found_in_path_order_once() {
    let dirs = vec!["/usr/bin".to_string(), "/bin".to_string(), "/usr/bin/".to_string(), "/opt".to_string()];
    assert_eq!(
        executable_candidates(&dirs, "git"),
        vec!["/usr/bin/git", "/bin/git", "/usr/bin/git", "/opt/git"]
    );
    let found = find_executables(&dirs, "git", &vec![true, false, true, true]);
    assert_eq!(found, vec!["/usr/bin/git".to_string(), "/opt/git".to_string()]);
    assert_eq!(find_executable(&dirs, "git", &vec![false, true, false, false]), Some("/bin/git".into()));
    assert_eq!(find_executable(&dirs, "git", &vec![false; 4]), None);
}

#[test]
fn tools_report_their_first_line() {
    assert_eq!(first_line_of("gcc (GCC) 14.2\nCopyright"), Some("gcc (GCC) 14.2".to_string()));
    let t = tool_info(vec!["/usr/bin/gcc".into(), "/bin/gcc".into()], Some("gcc 14\nmore".into()));
    assert_eq!(t.path.as_deref(), Some("/usr/bin/gcc"));
    assert_eq!(t.version.as_deref(), Some("gcc 14"));
    assert_eq!(t.candidates.len(), 2);
    let none = tool_info(vec![], Some("ignored".into()));
    assert_eq!(none.path, None);
    assert_eq!(none.version, None);
}

#[test]
fn git_state_from_answers() {
    assert!(submodules_dirty(" 1234 a (v1)\n+5678 b (v2)\n"));
    assert!(!submodules_dirty(" 1234 a (v1)\n"));
    let g = git_info(Some("/w".into()), Some("abc".into()), None, Some(true), Some("-123 x\n".into()));
    assert_eq!(g.detached, Some(true));
    assert_eq!(g.submodules_dirty, Some(true));
    assert_eq!(g.dirty, Some(true));
    let outside = git_info(None, Some("abc".into()), Some("main".into()), Some(true), None);
    assert_eq!(outside.commit, None);
    assert_eq!(outside.detached, None);
}

#[test]
fn os_name_prefers_pretty_name() {
    let release = "NAME=Ubuntu\nPRETTY_NAME=\"Ubuntu 24.04 LTS\"\n";
    assert_eq!(os_name(Some(release.into()), "linux"), Some("Ubuntu 24.04 LTS".into()));
    assert_eq!(os_name(Some("NAME=x\n".into()), "linux"), Some("linux".into()));
    assert_eq!(os_name(None, "macos"), Some("macos".into()));
}

#[test]
fn environment_provenance_finds_the_last_assignment() {
    assert_eq!(captured_names().len(), 13);
    let vars = collect_variables(vec![
        ("HF_HOME".into(), "/hf".into()),
        ("CC".into(), "gcc".into()),
        ("HF_HOME".into(), "/hf2".into()),
    ]);
    assert_eq!(vars, vec![("CC".to_string(), "gcc".to_string()), ("HF_HOME".to_string(), "/hf2".to_string())]);
    let files = startup_files("/home/al");
    assert_eq!(files[2], "/home/al/.bashrc");
    let texts = vec![
        ("/home/al/.profile".to_string(), "export CC=clang\n".to_string()),
        ("/home/al/.bashrc".to_string(), "# x\n  HF_HOME = /data\nCCX=1\n".to_string()),
    ];
    let sources = provenance(&vars, &texts);
    assert_eq!(sources.len(), 2);
    assert_eq!(sources[0].0, "CC");
    assert_eq!(sources[0].1.file, "/home/al/.profile");
    assert_eq!(sources[0].1.line, 1);
    assert_eq!(sources[1].0, "HF_HOME");
    assert_eq!(sources[1].1.line, 2);
    assert_eq!(sources[1].1.confidence, "heuristic");
}

#[test]
fn only_schema_one_is_read() {
    assert!(check_schema_version(1).is_ok());
    assert_eq!(check_schema_version(2).unwrap_err(), "unsupported snapshot schema version 2");
}

#[test]
fn minimal_snapshots_leave_out_disk_and_shell_details() {
    let mut s = Snapshot::default();
    s.disk.path = "/p".into();
    s.disk.total_bytes = Some(5);
    s.environment.path_entries = vec!["/bin".into()];
    s.python.version = Some("3.12".into());
    make_minimal(&mut s);
    assert_eq!(s.disk.path, "");
    assert_eq!(s.disk.total_bytes, None);
    assert!(s.environment.path_entries.is_empty());
    assert_eq!(s.python.version.as_deref(), Some("3.12"));
}

#[test]
fn redaction_rewrites_home_and_project_prefixes() {
    let mut s = Snapshot::default();
    s.project.path = "/home/al/proj".into();
    s.git.root = Some("/home/al/proj/sub".into());
    s.python.executable = Some("/home/al/.venv/bin/python".into());
    s.cuda.cuda_home = Some("/usr/local/cuda".into());
    s.environment.variables = vec![("HF_HOME".into(), "/home/al/proj/hf:/home/al/x".into())];
    s.python.version = Some("3.12".into());
    devx::snapshot::redact_paths(&mut s, Some("/home/al"));
    assert_eq!(s.project.path, "<project>/");
    assert_eq!(s.git.root.as_deref(), Some("<project>/sub"));
    assert_eq!(s.python.executable.as_deref(), Some("<home>/.venv/bin/python"));
    assert_eq!(s.cuda.cuda_home.as_deref(), Some("/usr/local/cuda"));
    assert_eq!(s.environment.variables[0].1, "<project>/hf:<home>/x");
    assert_eq!(s.python.version.as_deref(), Some("3.12"));
}

#[test]
fn environment_order_is_checked() {
    let mut e = devx::snapshot::EnvironmentInfo::default();
    assert!(e.is_well_formed());
    e.variables = vec![("A".into(), "1".into()), ("B".into(), "2".into())];
    assert!(e.is_well_formed());
    e.variables = vec![("B".into(), "1".into()), ("A".into(), "2".into())];
    assert!(!e.is_well_formed());
    e.variables = vec![("A".into(), "1".into()), ("A".into(), "2".into())];
    assert!(!e.is_well_formed());
    e.variables = Vec::new();
    e.provenance = vec![
        ("B".into(), devx::snapshot::EnvironmentSource::default()),
        ("A".into(), devx::snapshot::EnvironmentSource::default()),
    ];
    assert!(!e.is_well_formed());
}
