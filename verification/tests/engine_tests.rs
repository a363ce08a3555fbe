use std::io::Write;
use verify::cache::CacheState;
use verify::cache::VerificationStatus;
use verify::config::Config;
use verify::config::Verification;
use verify::config::VerificationItem;
use verify::hasher::compute_check_hash;
use verify::output::format_duration;
use verify::output::RunResults;
use verify::runner::plan_check;
use verify::runner::status_of_config;
use verify::runner::CheckPlan;
use verify::strmap::StrMap;
use verify::trailer::check_trailer;
use verify::trailer::compute_all_expected_hashes;
use verify::trailer::compute_all_hashes;
use verify::trailer::compute_combined_hash;
use verify::trailer::sync_with_trailer;
use verify::trailer::truncate_hash;


fn write_file(dir: &std::path::Path, name: &str, contents: &str) {
    let mut f = tempfile::NamedTempFile::new_in(dir).unwrap();
    f.write_all(contents.as_bytes()).unwrap();
    f.persist(dir.join(name)).unwrap();
}

fn tracked_check(name: &str, command: &str, paths: Vec<&str>, deps: Vec<&str>) -> Verification {
    Verification {
        name: name.to_string(),
        command: Some(command.to_string()),
        cache_paths: paths.into_iter().map(String::from).collect(),
        depends_on: deps.into_iter().map(String::from).collect(),
        timeout_secs: None,
        metadata: Vec::new(),
        per_file: false,
    }
}

#[test]
fn test_plan_check_dependency_failed() {
    let check = tracked_check("b", "echo", vec!["*.txt"], vec!["a"]);
    let dir = tempfile::tempdir().unwrap();
    let hashes = compute_check_hash(dir.path().to_str().unwrap(), &check.cache_paths).unwrap();
    let cache = CacheState::new();
    let executed = vec![("a".to_string(), true)];

    match plan_check(&check, &hashes, &cache, &executed, false) {
        CheckPlan::DependencyFailed { dependency } => assert_eq!(dependency, "a"),
        other => panic!("Expected DependencyFailed, got {:?}", other),
    }
}

#[test]
fn test_plan_check_aggregate_pass() {
    let mut check = tracked_check("all", "x", vec![], vec!["a"]);
    check.command = None;
    let dir = tempfile::tempdir().unwrap();
    let hashes = compute_check_hash(dir.path().to_str().unwrap(), &check.cache_paths).unwrap();
    let cache = CacheState::new();
    let executed = vec![("a".to_string(), false)];

    match plan_check(&check, &hashes, &cache, &executed, false) {
        CheckPlan::AggregatePass => {}
        other => panic!("Expected AggregatePass, got {:?}", other),
    }
}

#[test]
fn test_plan_check_skip_fresh_and_run() {
    let dir = tempfile::tempdir().unwrap();
    write_file(dir.path(), "a.txt", "x");
    let root = dir.path().to_str().unwrap().to_string();
    let check = tracked_check("t", "echo ok", vec!["*.txt"], vec![]);
    let hashes = compute_check_hash(&root, &check.cache_paths).unwrap();

    let mut cache = CacheState::new();
    match plan_check(&check, &hashes, &cache, &Vec::new(), false) {
        CheckPlan::RunCommand { command } => assert_eq!(command, "echo ok"),
        other => panic!("Expected RunCommand, got {:?}", other),
    }

    cache.update(
        "t",
        true,
        check.config_hash(),
        Some(hashes.combined_hash.clone()),
        StrMap::new(),
        Vec::new(),
        false,
    );
    match plan_check(&check, &hashes, &cache, &Vec::new(), false) {
        CheckPlan::SkipFresh => {}
        other => panic!("Expected SkipFresh, got {:?}", other),
    }

    // A forced run spawns even when fresh.
    match plan_check(&check, &hashes, &cache, &Vec::new(), true) {
        CheckPlan::RunCommand { .. } => {}
        other => panic!("Expected RunCommand under force, got {:?}", other),
    }
}

#[test]
fn test_plan_check_per_file_stale_list() {
    let dir = tempfile::tempdir().unwrap();
    write_file(dir.path(), "good.txt", "g");
    write_file(dir.path(), "bad.txt", "b");
    let root = dir.path().to_str().unwrap().to_string();
    let mut check = tracked_check("t", "echo per", vec!["*.txt"], vec![]);
    check.per_file = true;
    let hashes = compute_check_hash(&root, &check.cache_paths).unwrap();

    let mut cache = CacheState::new();
    // One file already passed under the same configuration.
    let good_hash = hashes.file_hashes.get("good.txt").unwrap().clone();
    cache.update_per_file_hash("t", check.config_hash().as_str(), "good.txt", good_hash);

    match plan_check(&check, &hashes, &cache, &Vec::new(), false) {
        CheckPlan::RunPerFile { stale_files, total_files, .. } => {
            assert_eq!(total_files, 2);
            assert_eq!(stale_files, vec!["bad.txt".to_string()]);
        }
        other => panic!("Expected RunPerFile, got {:?}", other),
    }
}

#[test]
fn test_status_of_config_first_run_then_cached() {
    let dir = tempfile::tempdir().unwrap();
    write_file(dir.path(), "a.txt", "x");
    let root = dir.path().to_str().unwrap().to_string();
    let check = tracked_check("t", "echo ok", vec!["*.txt"], vec![]);
    let config = Config {
        verifications: vec![VerificationItem::Verification(tracked_check(
            "t",
            "echo ok",
            vec!["*.txt"],
            vec![],
        ))],
    };

    let mut cache = CacheState::new();
    let (statuses, has_unverified) =
        status_of_config(&root, &config, &cache, &Vec::new()).unwrap();
    assert_eq!(statuses.len(), 1);
    assert_eq!(statuses[0].0, "t");
    assert!(has_unverified);

    // Record a successful run, as the runner would after the command
    // exits zero.
    let hashes = compute_check_hash(&root, &check.cache_paths).unwrap();
    cache.update(
        "t",
        true,
        check.config_hash(),
        Some(hashes.combined_hash.clone()),
        StrMap::new(),
        Vec::new(),
        false,
    );

    let (statuses, has_unverified) =
        status_of_config(&root, &config, &cache, &Vec::new()).unwrap();
    assert_eq!(statuses[0].1, VerificationStatus::Verified);
    assert!(!has_unverified);
}

#[test]
fn test_trailer_check_roundtrip_with_aggregate() {
    let dir = tempfile::tempdir().unwrap();
    write_file(dir.path(), "a.txt", "x");
    write_file(dir.path(), "b.txt", "y");
    let root = dir.path().to_str().unwrap().to_string();
    let build = tracked_check("build", "echo build", vec!["a.txt"], vec![]);
    let lint = tracked_check("lint", "echo lint", vec!["b.txt"], vec![]);
    let mut all = tracked_check("all", "x", vec![], vec!["build", "lint"]);
    all.command = None;
    let config = Config {
        verifications: vec![
            VerificationItem::Verification(build),
            VerificationItem::Verification(lint),
            VerificationItem::Verification(all),
        ],
    };

    // The trailer carries the current expected truncated hashes, as a
    // signed commit would; aggregates never appear in it.
    let expected = compute_all_expected_hashes(&root, &config).unwrap();
    assert!(expected.get("build").is_some());
    assert!(expected.get("lint").is_some());
    assert!(expected.get("all").is_none());
    let trailer = verify::trailer::parse_trailer_value(
        verify::trailer::format_trailer_value(&expected).as_str(),
    );

    let (statuses, has_unverified) = check_trailer(&root, &config, Some(&trailer)).unwrap();
    assert!(!has_unverified);
    assert_eq!(statuses.len(), 3);
    for (_, status) in &statuses {
        assert_eq!(*status, VerificationStatus::Verified);
    }

    // A changed tracked file turns its check and the aggregate unverified.
    write_file(dir.path(), "a.txt", "changed");
    let (statuses, has_unverified) = check_trailer(&root, &config, Some(&trailer)).unwrap();
    assert!(has_unverified);
    assert!(statuses
        .iter()
        .any(|(n, s)| n == "build" && *s != VerificationStatus::Verified));
    assert!(statuses
        .iter()
        .any(|(n, s)| n == "all" && *s != VerificationStatus::Verified));
    assert!(statuses
        .iter()
        .any(|(n, s)| n == "lint" && *s == VerificationStatus::Verified));
}

#[test]
fn test_trailer_check_missing_trailer_unverified() {
    let dir = tempfile::tempdir().unwrap();
    write_file(dir.path(), "a.txt", "x");
    let root = dir.path().to_str().unwrap().to_string();
    let build = tracked_check("build", "echo build", vec!["a.txt"], vec![]);
    let config = Config { verifications: vec![VerificationItem::Verification(build)] };

    let (_, has_unverified) = check_trailer(&root, &config, None).unwrap();
    assert!(has_unverified);
}

#[test]
fn test_sync_seeds_matching_checks_only() {
    let dir = tempfile::tempdir().unwrap();
    write_file(dir.path(), "a.txt", "x");
    write_file(dir.path(), "b.txt", "y");
    let root = dir.path().to_str().unwrap().to_string();
    let build = tracked_check("build", "echo build", vec!["a.txt"], vec![]);
    let lint = tracked_check("lint", "echo lint", vec!["b.txt"], vec![]);
    let config = Config {
        verifications: vec![
            VerificationItem::Verification(build),
            VerificationItem::Verification(lint),
        ],
    };

    let expected = compute_all_expected_hashes(&root, &config).unwrap();
    let mut trailer = StrMap::new();
    trailer.insert(
        "build".to_string(),
        truncate_hash(expected.get("build").unwrap().as_str()),
    );
    // The lint entry in the trailer does not match today's files.
    trailer.insert("lint".to_string(), "00000000".to_string());

    let mut cache = CacheState::new();
    let synced = sync_with_trailer(&root, &config, &mut cache, &trailer).unwrap();
    assert_eq!(synced, vec!["build".to_string()]);
    assert!(cache.get("build").is_some());
    assert!(cache.get("lint").is_none());

    // The seeded entry reads back verified, and the verified walk now
    // emits it.
    let verified = compute_all_hashes(&root, &config, &cache).unwrap();
    assert!(verified.get("build").is_some());
    assert!(verified.get("lint").is_none());
}

#[test]
fn test_compute_combined_hash_matches_trailer_truncation() {
    let combined = compute_combined_hash("cfg", "content");
    let t = truncate_hash(combined.as_str());
    assert_eq!(t.len(), 8);
    assert!(combined.starts_with(t.as_str()));
}

#[test]
fn test_format_duration_values() {
    assert_eq!(format_duration(0), "0ms");
    assert_eq!(format_duration(999), "999ms");
    assert_eq!(format_duration(1000), "1.0s");
    assert_eq!(format_duration(1500), "1.5s");
    assert_eq!(format_duration(59949), "59.9s");
    assert_eq!(format_duration(60000), "1m0s");
    assert_eq!(format_duration(61000), "1m1s");
    assert_eq!(format_duration(125000), "2m5s");
}

#[test]
fn test_run_results_tally() {
    let mut results = RunResults::new();
    results.add_pass("a", 12, false);
    results.add_fail("b", 5, Some(1), Some("boom".to_string()));
    results.add_skipped("c");

    let mut sub = RunResults::new();
    sub.add_pass("inner", 1, false);
    results.add_subproject("subp", "./subp", sub);

    assert_eq!(results.passed, 2);
    assert_eq!(results.failed, 1);
    assert_eq!(results.skipped, 1);
    let summary = results.to_summary();
    assert_eq!(summary.total, 4);
}
