use devx::disk::{
    analysis_plan, cache_candidates, cached_size, disk_entry, disk_info, disk_report, duplicate_report,
    filesystem_entry, fresh_identities, hash_groups, passes_filters, project_candidates, query_report,
    sha256_hex, size_groups, sort_filesystems, sort_largest_first, top_entries, DiskEntry, FilesystemReport,
    SizeCache, WalkedFile, size_step, walk_step, WalkStep,
};
use devx::snapshot::DiskInfo;

fn names(v: &[&str]) -> Vec<String> {
    v.iter().map(|s| s.to_string()).collect()
}

#[test]
fn project_artifacts_require_matching_manifest() {
    let project = "/tmp/project";
    assert!(project_candidates(project, &names(&["target"])).is_empty());
    let artifacts = project_candidates(project, &names(&["target", "Cargo.toml"]));
    assert_eq!(artifacts.len(), 1);
    assert_eq!(artifacts[0].category, "Rust build artifacts");
    assert_eq!(artifacts[0].path, "/tmp/project/target");
}

#[test]
fn python_environments_need_a_python_manifest() {
    let project = "/p";
    assert!(project_candidates(project, &names(&[".venv", "venv"])).is_empty());
    let found = project_candidates(project, &names(&["requirements.txt", ".venv", "venv", "wandb/latest-run"]));
    let paths: Vec<&str> = found.iter().map(|c| c.path.as_str()).collect();
    assert_eq!(paths, vec!["/p/.venv", "/p/venv", "/p/wandb"]);
    assert_eq!(found[2].regeneratable, Some(false));
    assert_eq!(found[0].regeneratable, None);
}

fn env(pairs: &[(&str, &str)]) -> Vec<(String, String)> {
    pairs.iter().map(|(a, b)| (a.to_string(), b.to_string())).collect()
}

#[test]
fn caches_follow_variables_and_home() {
    let found = cache_candidates(&env(&[("HOME", "/home/al"), ("PIP_CACHE_DIR", "/fast/pip")]));
    assert_eq!(found.len(), 11);
    assert_eq!(found[0].category, "pip cache");
    assert_eq!(found[0].path, "/fast/pip");
    assert_eq!(found[1].path, "/home/al/.cache/uv");
    assert_eq!(found[10].path, "/home/al/.conda/pkgs");
    assert!(cache_candidates(&env(&[])).is_empty());
}

#[test]
fn cache_paths_are_reported_once() {
    let found = cache_candidates(&env(&[
        ("HOME", "/h"),
        ("HF_HOME", "/h/.cache/huggingface"),
        ("CONDA_PREFIX", "/h/.conda"),
    ]));
    assert_eq!(found.len(), 11);
    let with_other_hf = cache_candidates(&env(&[("HOME", "/h"), ("HF_HOME", "/data/hf")]));
    assert_eq!(with_other_hf.len(), 14);
    assert_eq!(with_other_hf[11].path, "/data/hf/hub");
}

fn entry(path: &str, bytes: u64) -> DiskEntry {
    DiskEntry {
        category: "c".to_string(),
        path: path.to_string(),
        bytes,
        reason: "r".to_string(),
        regeneratable: None,
    }
}

#[test]
fn largest_first_then_by_path() {
    let mut v = vec![entry("/b", 5), entry("/a", 5), entry("/c", 9)];
    sort_largest_first(&mut v);
    let order: Vec<&str> = v.iter().map(|e| e.path.as_str()).collect();
    assert_eq!(order, vec!["/c", "/a", "/b"]);
    let top = top_entries(vec![entry("/x", 1), entry("/y", 3), entry("/z", 2)], 2);
    let order: Vec<&str> = top.iter().map(|e| e.path.as_str()).collect();
    assert_eq!(order, vec!["/y", "/z"]);
}

#[test]
fn sizes_are_measured_once() {
    let mut cache = SizeCache::default();
    assert_eq!(cached_size(&cache, "/a/b"), None);
    cache.remember("/a/b".to_string(), 42);
    assert_eq!(cached_size(&cache, "/a/b"), Some(42));
    assert_eq!(cached_size(&cache, "/a/b/"), Some(42));
    assert_eq!(cached_size(&cache, "/a"), None);
}

#[test]
fn an_analysis_sums_safe_and_reviewable_findings() {
    let plan = analysis_plan(false, true, Some(3));
    assert!(plan.caches && !plan.artifacts && plan.top.is_none());
    let plan = analysis_plan(true, false, Some(3));
    assert!(!plan.caches && plan.artifacts && plan.top == Some(3));
    let info = disk_info("/p".to_string(), Some(100), Some(30), Some(25));
    assert_eq!(info.used_bytes, Some(70));
    let report = disk_report(
        DiskInfo::default(),
        "/p".to_string(),
        vec![entry("/s1", 1), entry("/s2", 7)],
        vec![entry("/r", 3)],
        vec![entry("/t", 100)],
        2,
    );
    assert_eq!(report.potentially_reclaimable_bytes, 11);
    assert_eq!(report.safe[0].path, "/s2");
    assert_eq!(report.unreadable_entries, 2);
    let e = disk_entry(project_candidates("/p", &names(&["Cargo.toml", "target"])).remove(0), 9);
    assert_eq!(e.bytes, 9);
    assert_eq!(e.category, "Rust build artifacts");
}

fn walked(path: &str, bytes: u64, age: Option<u64>) -> WalkedFile {
    WalkedFile {
        path: path.to_string(),
        bytes,
        age_seconds: age,
        modified_unix_seconds: Some(1_000),
    }
}

#[test]
fn queries_keep_large_and_old_files() {
    assert!(passes_filters(10, None, None, Some(5)));
    assert!(!passes_filters(4, None, None, Some(5)));
    assert!(!passes_filters(10, None, Some(60), None));
    assert!(passes_filters(10, Some(60), Some(60), None));
    let report = query_report(
        "/r".to_string(),
        vec![walked("/r/a.bin", 10, Some(1)), walked("/r/small", 1, Some(1)), walked("/r/b.bin", 10, Some(1))],
        None,
        Some(5),
        0,
    );
    assert_eq!(report.files.len(), 2);
    assert_eq!(report.files[0].path, "/r/a.bin");
    assert_eq!(report.total_bytes, 20);
}

#[test]
fn duplicates_are_grouped_by_size_then_digest() {
    let groups = size_groups(
        vec![
            walked("/r/a.bin", 10, None),
            walked("/r/empty1", 0, None),
            walked("/r/b.bin", 10, None),
            walked("/r/small", 1, None),
            walked("/r/empty2", 0, None),
        ],
        None,
        None,
    );
    assert_eq!(groups.len(), 1);
    assert_eq!(groups[0].0, 10);
    assert_eq!(groups[0].1, names(&["/r/a.bin", "/r/b.bin"]));
    let digest = sha256_hex(b"same bytes");
    let found = hash_groups(
        10,
        vec![
            ("/r/a.bin".to_string(), digest.clone()),
            ("/r/c.bin".to_string(), sha256_hex(b"other byte")),
            ("/r/b.bin".to_string(), digest.clone()),
        ],
    );
    assert_eq!(found.len(), 1);
    assert_eq!(found[0].paths, names(&["/r/a.bin", "/r/b.bin"]));
    assert_eq!(found[0].reclaimable_bytes, 10);
    assert_eq!(found[0].sha256, digest);
    let report = duplicate_report("/r".to_string(), found, 0);
    assert_eq!(report.reclaimable_bytes, 10);
}

#[test]
fn hard_links_are_looked_at_once() {
    let keep = fresh_identities(&vec![Some((1, 5)), Some((1, 6)), Some((1, 5)), None, None]);
    assert_eq!(keep, vec![true, true, false, true, true]);
}

#[test]
fn digests_are_lower_case_hex() {
    assert_eq!(
        sha256_hex(b"abc"),
        "ba7816bf8f01cfea414140de5dae2223b00361a396177a9cb410ff61f20015ad"
    );
    assert_eq!(sha256_hex(b"").len(), 64);
}

#[test]
fn fullest_filesystems_first() {
    let fs = |mount: &str, total: u64, available: u64| {
        filesystem_entry("d".into(), mount.into(), "ext4".into(), "SSD".into(), false, total, available)
    };
    let mut report = FilesystemReport {
        filesystems: vec![fs("/b", 100, 50), fs("/a", 200, 100), fs("/c", 100, 10), fs("/z", 0, 0)],
    };
    sort_filesystems(&mut report);
    let order: Vec<&str> = report.filesystems.iter().map(|f| f.mount_point.as_str()).collect();
    assert_eq!(order, vec!["/c", "/a", "/b", "/z"]);
    assert_eq!(report.filesystems[0].used_bytes, 90);
}

#[test]
fn walk_skips_links_and_other_filesystems() {
    assert_eq!(walk_step(false, false, None, Some(1), false), WalkStep::Unreadable);
    assert_eq!(walk_step(true, true, Some(1), Some(1), true), WalkStep::Skip);
    assert_eq!(walk_step(true, false, Some(2), Some(1), true), WalkStep::Skip);
    assert_eq!(walk_step(true, false, None, Some(1), false), WalkStep::Skip);
    assert_eq!(walk_step(true, false, Some(1), Some(1), true), WalkStep::Keep);
    assert_eq!(walk_step(true, false, None, None, true), WalkStep::Keep);
    assert_eq!(walk_step(true, false, Some(1), Some(1), false), WalkStep::Descend);
}

#[test]
fn size_walk_does_not_follow_symlinks() {
    assert_eq!(size_step(true, true, true), WalkStep::Skip);
    assert_eq!(size_step(true, true, false), WalkStep::Skip);
    assert_eq!(size_step(false, false, false), WalkStep::Unreadable);
    assert_eq!(size_step(true, false, true), WalkStep::Keep);
    assert_eq!(size_step(true, false, false), WalkStep::Descend);
}
