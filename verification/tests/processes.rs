use std::collections::BTreeMap;

use devx::processes::scan::{
    attribute, is_candidate, matches_lowered, order_processes, pid_ports, process_report, project_selected,
    project_summary, scan_groups, socket_table, ObservedProcess,
};
use devx::processes::watch::{truncate, update_events, watch_action, WatchAction, WatchEvent, WatchKey};
use devx::processes::{
    gpu_memory_table, inherited_project_root, marked_project_root, parse_socket_line,
    name_from_lowered, process_attribution, socket_inode, useful_name, ProcessInfo,
};

#[test]
fn inherits_project_from_parent_process() {
    let mut roots = BTreeMap::new();
    roots.insert(10, Some("/work/project".to_string()));
    roots.insert(11, None);
    let mut parents = BTreeMap::new();
    parents.insert(10, None);
    parents.insert(11, Some(10));
    assert_eq!(
        inherited_project_root(11, &roots, &parents),
        Some("/work/project".into())
    );
}

#[test]
fn extracts_python_script_without_arguments() {
    let command = vec![
        "python".to_string(),
        "/work/train.py".to_string(),
        "--token=secret".to_string(),
    ];
    assert_eq!(useful_name("python", &command), "train.py");
}

#[test]
fn parses_listening_tcp_socket() {
    let line = "0: 0100007F:1F40 00000000:0000 0A 00000000:00000000 00:00000000 00000000 1000 0 424242 1";
    assert_eq!(parse_socket_line(line, Some("0A")), Some((424242, 8000)));
    assert_eq!(parse_socket_line(line, Some("01")), None);
}

#[test]
fn finds_nearest_project_root() {
    let ancestors = vec![
        "/tmp/x/src/deep".to_string(),
        "/tmp/x/src".to_string(),
        "/tmp/x".to_string(),
        "/tmp".to_string(),
        "/".to_string(),
    ];
    let marked = vec![false, false, true, false, false];
    assert_eq!(marked_project_root(&ancestors, &marked), Some("/tmp/x".into()));
}

#[test]
fn directory_without_marker_is_not_a_project() {
    let ancestors = vec!["/tmp/x".to_string(), "/tmp".to_string(), "/".to_string()];
    assert_eq!(marked_project_root(&ancestors, &vec![false, false, false]), None);
}

#[test]
fn parent_chains_that_loop_find_nothing() {
    let mut roots = BTreeMap::new();
    roots.insert(1, None);
    roots.insert(2, None);
    let mut parents = BTreeMap::new();
    parents.insert(1, Some(2));
    parents.insert(2, Some(1));
    assert_eq!(inherited_project_root(1, &roots, &parents), None);
    roots.insert(1, Some("/own".to_string()));
    assert_eq!(inherited_project_root(1, &roots, &parents), Some("/own".into()));
}

#[test]
fn attribution_names_its_evidence() {
    let mut roots = BTreeMap::new();
    roots.insert(10, Some("/work/project".to_string()));
    roots.insert(11, None);
    let mut parents = BTreeMap::new();
    parents.insert(11, Some(10));
    let own = process_attribution(10, "/work/project/src", &roots, &parents).unwrap();
    assert_eq!(own.0, "/work/project");
    assert_eq!(own.1, 100);
    assert_eq!(own.2, "cwd /work/project/src \u{2192} project marker at /work/project");
    let inherited = process_attribution(11, "/tmp", &roots, &parents).unwrap();
    assert_eq!(inherited.1, 80);
    assert_eq!(inherited.2, "parent process \u{2192} project marker at /work/project");
    assert_eq!(attribute(12, "/tmp/z", &roots, &parents, false), None);
    let loose = attribute(12, "/tmp/z", &roots, &parents, true).unwrap();
    assert_eq!(loose, ("/tmp/z".to_string(), 25, "cwd /tmp/z (no project marker)".to_string()));
}

#[test]
fn names_node_and_module_processes() {
    let node = vec!["node".to_string(), "--inspect".to_string(), "/srv/app/server.mjs".to_string()];
    assert_eq!(useful_name("node", &node), "server.mjs");
    let module = vec!["python3".to_string(), "-m".to_string(), "http.server".to_string()];
    assert_eq!(useful_name("python3", &module), "python -m http.server");
    let plain = vec!["cargo".to_string(), "build".to_string()];
    assert_eq!(useful_name("cargo", &plain), "cargo");
}

#[test]
fn executable_names_are_matched_in_any_case() {
    let module = vec!["PYTHON3".to_string(), "-m".to_string(), "pip".to_string()];
    assert_eq!(useful_name("PYTHON3", &module), "python -m pip");
    let node = vec!["Node".to_string(), "app.js".to_string()];
    assert_eq!(useful_name("Node", &node), "app.js");
    let plain = vec!["Deno".to_string(), "run".to_string()];
    assert_eq!(useful_name("Deno", &plain), "Deno");
}

#[test]
fn script_arguments_are_never_reported() {
    let script = vec!["python".to_string(), "/work/train.py".to_string(), "-m".to_string(), "secret".to_string()];
    assert_eq!(useful_name("python", &script), "train.py");
    let options = vec!["python3".to_string(), "-u".to_string(), "-m".to_string(), "pytest".to_string()];
    assert_eq!(useful_name("python3", &options), "python -m pytest");
    let command = vec!["python".to_string(), "tool".to_string(), "-m".to_string(), "x".to_string()];
    assert_eq!(useful_name("python", &command), "python");
    assert_eq!(name_from_lowered("PY", "python", &options), "python -m pytest");
}

#[test]
fn option_values_before_the_module_are_passed_over() {
    let x = vec!["python".to_string(), "-X".to_string(), "utf8".to_string(), "-m".to_string(), "mod".to_string()];
    assert_eq!(useful_name("python", &x), "python -m mod");
    let w = vec!["python3".to_string(), "-W".to_string(), "ignore".to_string(), "-m".to_string(), "pytest".to_string()];
    assert_eq!(useful_name("python3", &w), "python -m pytest");
    let dangling = vec!["python".to_string(), "-X".to_string()];
    assert_eq!(useful_name("python", &dangling), "python");
}

#[test]
fn socket_inodes_and_tables() {
    assert_eq!(socket_inode("socket:[424242]"), Some(424242));
    assert_eq!(socket_inode("pipe:[1]"), None);
    assert_eq!(socket_inode("socket:[]"), None);
    let tcp = "  sl  local_address rem_address   st tx_queue rx_queue tr tm->when retrnsmt   uid  timeout inode\n\
0: 0100007F:1F40 00000000:0000 0A 00000000:00000000 00:00000000 00000000 1000 0 424242 1\n\
1: 0100007F:0016 00000000:0000 01 00000000:00000000 00:00000000 00000000 1000 0 5 1\n";
    let udp = "header\n0: 00000000:0035 00000000:0000 07 00000000:00000000 00:00000000 00000000 0 0 77 2\n";
    let sockets = socket_table(&vec![
        (tcp.to_string(), Some("0A".to_string())),
        (udp.to_string(), None),
    ]);
    assert_eq!(sockets.get(&424242), Some(&8000));
    assert_eq!(sockets.get(&5), None);
    assert_eq!(sockets.get(&77), Some(&53));
    let ports = pid_ports(
        &vec![
            "socket:[77]".to_string(),
            "/dev/null".to_string(),
            "socket:[424242]".to_string(),
            "socket:[77]".to_string(),
        ],
        &sockets,
    );
    assert_eq!(ports, vec![53, 8000]);
}

#[test]
fn reads_gpu_memory_of_compute_apps() {
    let table = gpu_memory_table("1234, 512\nbad line\n77, 3\n");
    assert_eq!(table.get(&1234), Some(&(512 * 1024 * 1024)));
    assert_eq!(table.get(&77), Some(&(3 * 1024 * 1024)));
    assert_eq!(table.len(), 2);
}

fn observed(pid: u32, parent: Option<u32>, cwd: &str, user: Option<u32>, memory: u64) -> ObservedProcess {
    ObservedProcess {
        pid,
        parent_pid: parent,
        executable: "python".to_string(),
        command: vec!["python".to_string(), format!("/w/job{pid}.py")],
        cwd: Some(cwd.to_string()),
        user,
        cpu_percent_bits: 0,
        memory_bytes: memory,
        runtime_seconds: 1,
    }
}

#[test]
fn candidates_run_as_the_user_outside_the_root_directory() {
    assert!(is_candidate(&observed(1, None, "/w", Some(1000), 0), Some(1000)));
    assert!(!is_candidate(&observed(1, None, "/w", Some(0), 0), Some(1000)));
    assert!(!is_candidate(&observed(1, None, "/", Some(1000), 0), Some(1000)));
    assert!(is_candidate(&observed(1, None, "/w", None, 0), None));
}

#[test]
fn groups_processes_by_project_root() {
    let procs = vec![
        observed(3, None, "/w/b", Some(1), 10),
        observed(1, None, "/w/a", Some(1), 30),
        observed(2, Some(1), "/tmp", Some(1), 20),
        observed(4, None, "/elsewhere", Some(1), 5),
        observed(5, None, "/w/a", Some(2), 5),
    ];
    let mut roots = BTreeMap::new();
    roots.insert(1, Some("/w/a".to_string()));
    roots.insert(2, None);
    roots.insert(3, Some("/w/b".to_string()));
    roots.insert(4, None);
    let mut parents = BTreeMap::new();
    parents.insert(2, Some(1));
    let ports: BTreeMap<u32, Vec<u16>> = BTreeMap::new();
    let gpu: BTreeMap<u32, u64> = BTreeMap::new();
    let (groups, unattributed) =
        scan_groups(procs, Some(1), &roots, &parents, &ports, &gpu, false, false, false);
    assert_eq!(unattributed, 1);
    assert_eq!(groups.len(), 2);
    assert_eq!(groups[0].0.path, "/w/a");
    let pids: Vec<u32> = groups[0].1.iter().map(|p| p.pid).collect();
    assert_eq!(pids, vec![1, 2]);
    assert_eq!(groups[1].0.path, "/w/b");
    assert_eq!(groups[0].1[0].name, "job1.py");
}

fn info(pid: u32, memory: u64, ports: Vec<u16>, confidence: u8, evidence: &str) -> ProcessInfo {
    ProcessInfo {
        pid,
        parent_pid: None,
        name: format!("p{pid}"),
        cwd: "/w".to_string(),
        cpu_percent_bits: 0,
        memory_bytes: memory,
        runtime_seconds: 0,
        ports,
        gpu_memory_bytes: if pid % 2 == 0 { Some(100) } else { None },
        attribution_confidence: confidence,
        attribution_evidence: evidence.to_string(),
    }
}

#[test]
fn orders_processes_by_cpu_memory_and_pid() {
    let mut ps = vec![info(5, 10, vec![], 100, "e"), info(3, 10, vec![], 100, "e"), info(9, 50, vec![], 100, "e")];
    ps[0].cpu_percent_bits = 2.0f32.to_bits();
    ps[1].cpu_percent_bits = (-1.0f32).to_bits();
    order_processes(&mut ps);
    let pids: Vec<u32> = ps.iter().map(|p| p.pid).collect();
    assert_eq!(pids, vec![5, 9, 3]);
}

#[test]
fn summarizes_a_project() {
    let ps = vec![
        info(1, 10, vec![8080, 22], 100, "b"),
        info(2, 20, vec![22], 80, "a"),
        info(4, 5, vec![], 100, "b"),
    ];
    let summary = project_summary("/w/vision-lab".to_string(), ps, 0);
    assert_eq!(summary.project, "vision-lab");
    assert_eq!(summary.memory_bytes, 35);
    assert_eq!(summary.gpu_memory_bytes, 200);
    assert_eq!(summary.ports, vec![22, 8080]);
    assert_eq!(summary.attribution_confidence, 80);
    assert_eq!(summary.attribution_evidence, vec!["a".to_string(), "b".to_string()]);
}

#[test]
fn selects_projects_ignoring_case() {
    assert!(project_selected("Vision-Lab", "/w/Vision-Lab", &None));
    assert!(project_selected("Vision-Lab", "/w/Vision-Lab", &Some("VISION".to_string())));
    assert!(project_selected("x", "/Work/Stuff", &Some("work".to_string())));
    assert!(!project_selected("x", "/w/y", &Some("zzz".to_string())));
    assert!(matches_lowered("vision-lab", "/w", "lab"));
    assert!(matches_lowered("x", "/work/stuff", "work"));
    assert!(!matches_lowered("x", "/WORK", "work"));
}

#[test]
fn reports_projects_busiest_first() {
    let a = project_summary("/w/a".to_string(), vec![info(1, 10, vec![], 100, "e")], 0);
    let b = project_summary("/w/b".to_string(), vec![info(2, 10, vec![], 100, "e"), info(3, 1, vec![], 100, "e")], 0);
    let report = process_report(vec![a, b], true, false, 4);
    assert_eq!(report.process_count, 3);
    assert_eq!(report.projects[0].project, "b");
    assert_eq!(report.unclassified_process_count, 4);
}

#[test]
fn cuts_long_names_with_an_ellipsis() {
    assert_eq!(truncate("short", 24), "short");
    assert_eq!(truncate("abcdef", 4), "abc\u{2026}");
    assert_eq!(truncate("abc", 0), "\u{2026}");
    assert_eq!(truncate("", 0), "");
}

#[test]
fn records_lifecycle_events_newest_first() {
    let a = project_summary("/w/a".to_string(), vec![info(1, 10, vec![], 100, "e"), info(2, 10, vec![], 100, "e")], 0);
    let report = process_report(vec![a], true, false, 0);
    let mut previous: Vec<(u32, String)> = vec![(2, "a:p2".to_string()), (7, "a:old".to_string())];
    let mut events: Vec<String> = vec!["e1".into(), "e2".into(), "e3".into(), "e4".into()];
    update_events(&report, &mut previous, &mut events);
    assert_eq!(previous, vec![(1, "a:p1".to_string()), (2, "a:p2".to_string())]);
    assert_eq!(
        events,
        vec![
            "exited   a:old (pid 7)".to_string(),
            "started  a:p1 (pid 1)".to_string(),
            "e1".to_string(),
            "e2".to_string()
        ]
    );
}

#[test]
fn keys_quit_refresh_or_wait() {
    let key = |c: WatchKey, control: bool| WatchEvent::Key { key: c, pressed: true, control };
    assert_eq!(watch_action(key(WatchKey::Char('q'), false)), WatchAction::Quit);
    assert_eq!(watch_action(key(WatchKey::Esc, false)), WatchAction::Quit);
    assert_eq!(watch_action(key(WatchKey::Char('c'), true)), WatchAction::Quit);
    assert_eq!(watch_action(key(WatchKey::Char('c'), false)), WatchAction::Wait);
    assert_eq!(watch_action(key(WatchKey::Char('r'), false)), WatchAction::Refresh);
    assert_eq!(watch_action(WatchEvent::Resize), WatchAction::Refresh);
    assert_eq!(
        watch_action(WatchEvent::Key { key: WatchKey::Char('q'), pressed: false, control: false }),
        WatchAction::Wait
    );
    assert_eq!(watch_action(WatchEvent::Other), WatchAction::Wait);
}
