use verify::cache::CacheState;
use verify::cache::UnverifiedReason;
use verify::cache::VerificationStatus;
use verify::config::Verification;
use verify::hasher::HashResult;
use verify::runner::compute_status;
use verify::runner::get_stale_files_from_cache;
use verify::strmap::StrMap;

fn make_verification(name: &str, cache_paths: Vec<&str>, depends_on: Vec<&str>) -> Verification {
    Verification {
        name: name.to_string(),
        command: Some("echo test".to_string()),
        cache_paths: cache_paths.into_iter().map(String::from).collect(),
        depends_on: depends_on.into_iter().map(String::from).collect(),
        timeout_secs: None,
        metadata: Vec::new(),
        per_file: false,
    }
}

fn make_hash_result(combined: &str, files: Vec<(&str, &str)>) -> HashResult {
    let mut m = StrMap::new();
    for (k, v) in files {
        m.insert(k.to_string(), v.to_string());
    }
    HashResult { combined_hash: combined.to_string(), file_hashes: m }
}

fn stale_map(entries: Vec<(&str, bool)>) -> Vec<(String, bool)> {
    entries.into_iter().map(|(k, v)| (k.to_string(), v)).collect()
}

#[test]
fn test_compute_staleness_dependency_stale() {
    let check = make_verification("test", vec!["src/**/*.rs"], vec!["build"]);
    let hash_result = make_hash_result("hash123", vec![("src/main.rs", "abc")]);
    let cache = CacheState::new();

    let dep_staleness = stale_map(vec![("build", true)]);

    let result = compute_status(&check, &hash_result, &cache, &dep_staleness);

    match result {
        VerificationStatus::Unverified {
            reason: UnverifiedReason::DependencyUnverified { dependency },
        } => {
            assert_eq!(dependency, "build");
        }
        other => panic!("Expected DependencyUnverified, got {:?}", other),
    }
}

#[test]
fn test_compute_staleness_dependency_fresh() {
    let check = make_verification("test", vec!["src/**/*.rs"], vec!["build"]);
    let hash_result = make_hash_result("hash123", vec![("src/main.rs", "abc")]);
    let cache = CacheState::new();

    let dep_staleness = stale_map(vec![("build", false)]);

    let result = compute_status(&check, &hash_result, &cache, &dep_staleness);

    assert_eq!(
        result,
        VerificationStatus::Unverified { reason: UnverifiedReason::NeverRun }
    );
}

#[test]
fn test_compute_staleness_multiple_dependencies_one_stale() {
    let check = make_verification("test", vec!["src/**/*.rs"], vec!["build", "lint", "format"]);
    let hash_result = make_hash_result("hash123", vec![]);
    let cache = CacheState::new();

    let dep_staleness = stale_map(vec![("build", false), ("lint", true), ("format", false)]);

    let result = compute_status(&check, &hash_result, &cache, &dep_staleness);

    match result {
        VerificationStatus::Unverified {
            reason: UnverifiedReason::DependencyUnverified { dependency },
        } => {
            assert_eq!(dependency, "lint");
        }
        other => panic!("Expected DependencyUnverified(lint), got {:?}", other),
    }
}

#[test]
fn test_compute_staleness_unknown_dependency_treated_as_stale() {
    let check = make_verification("test", vec!["src/**/*.rs"], vec!["unknown_dep"]);
    let hash_result = make_hash_result("hash123", vec![]);
    let cache = CacheState::new();

    let dep_staleness = stale_map(vec![]);

    let result = compute_status(&check, &hash_result, &cache, &dep_staleness);

    match result {
        VerificationStatus::Unverified {
            reason: UnverifiedReason::DependencyUnverified { dependency },
        } => {
            assert_eq!(dependency, "unknown_dep");
        }
        other => panic!("Expected DependencyUnverified(unknown_dep), got {:?}", other),
    }
}

#[test]
fn test_compute_staleness_no_cache_paths() {
    let check = make_verification("test", vec![], vec![]);
    let hash_result = make_hash_result("hash123", vec![]);
    let cache = CacheState::new();
    let dep_staleness = stale_map(vec![]);

    let result = compute_status(&check, &hash_result, &cache, &dep_staleness);
    assert_eq!(result, VerificationStatus::Untracked);
}

#[test]
fn test_compute_staleness_no_cache_paths_with_fresh_deps() {
    let check = make_verification("test", vec![], vec!["build"]);
    let hash_result = make_hash_result("hash123", vec![]);
    let cache = CacheState::new();

    let dep_staleness = stale_map(vec![("build", false)]);

    let result = compute_status(&check, &hash_result, &cache, &dep_staleness);
    assert_eq!(result, VerificationStatus::Untracked);
}

#[test]
fn test_compute_staleness_aggregate_fresh_when_deps_fresh() {
    let mut check = make_verification("all", vec![], vec!["build", "test"]);
    check.command = None;
    let hash_result = make_hash_result("hash123", vec![]);
    let cache = CacheState::new();

    let dep_staleness = stale_map(vec![("build", false), ("test", false)]);

    let result = compute_status(&check, &hash_result, &cache, &dep_staleness);
    assert_eq!(result, VerificationStatus::Verified);
}

#[test]
fn test_compute_staleness_aggregate_stale_when_dep_stale() {
    let mut check = make_verification("all", vec![], vec!["build", "test"]);
    check.command = None;
    let hash_result = make_hash_result("hash123", vec![]);
    let cache = CacheState::new();

    let dep_staleness = stale_map(vec![("build", true), ("test", false)]);

    let result = compute_status(&check, &hash_result, &cache, &dep_staleness);
    match result {
        VerificationStatus::Unverified {
            reason: UnverifiedReason::DependencyUnverified { dependency },
        } => {
            assert_eq!(dependency, "build");
        }
        other => panic!("Expected DependencyUnverified, got {:?}", other),
    }
}

#[test]
fn test_compute_staleness_never_run() {
    let check = make_verification("new_check", vec!["src/**/*.rs"], vec![]);
    let hash_result = make_hash_result("hash123", vec![("src/main.rs", "abc")]);
    let cache = CacheState::new();
    let dep_staleness = stale_map(vec![]);

    let result = compute_status(&check, &hash_result, &cache, &dep_staleness);

    assert_eq!(
        result,
        VerificationStatus::Unverified { reason: UnverifiedReason::NeverRun }
    );
}

#[test]
fn test_compute_staleness_fresh() {
    let check = make_verification("test", vec!["src/**/*.rs"], vec![]);
    let config_hash = check.config_hash();
    let hash_result = make_hash_result("hash123", vec![("src/main.rs", "abc")]);

    let mut cache = CacheState::new();
    cache.update(
        "test",
        true,
        config_hash,
        Some("hash123".to_string()),
        StrMap::new(),
        Vec::new(),
        false,
    );

    let dep_staleness = stale_map(vec![]);

    let result = compute_status(&check, &hash_result, &cache, &dep_staleness);

    assert_eq!(result, VerificationStatus::Verified);
}

#[test]
fn test_compute_staleness_files_changed() {
    let check = make_verification("test", vec!["src/**/*.rs"], vec![]);
    let config_hash = check.config_hash();
    let hash_result = make_hash_result("new_hash", vec![("src/main.rs", "new_content")]);

    let mut cache = CacheState::new();
    let mut old_file_hashes = StrMap::new();
    old_file_hashes.insert("src/main.rs".to_string(), "old_content".to_string());
    cache.update(
        "test",
        true,
        config_hash,
        Some("old_hash".to_string()),
        old_file_hashes,
        Vec::new(),
        true,
    );

    let dep_staleness = stale_map(vec![]);

    let result = compute_status(&check, &hash_result, &cache, &dep_staleness);

    match result {
        VerificationStatus::Unverified {
            reason: UnverifiedReason::FilesChanged { changed_files },
        } => {
            assert!(changed_files.contains(&"M src/main.rs".to_string()));
        }
        other => panic!("Expected FilesChanged, got {:?}", other),
    }
}

#[test]
fn test_compute_staleness_config_changed() {
    let check = make_verification("test", vec!["src/**/*.rs"], vec![]);
    let hash_result = make_hash_result("hash123", vec![("src/main.rs", "abc")]);

    let mut cache = CacheState::new();
    cache.update(
        "test",
        true,
        "old_config_hash".to_string(),
        Some("hash123".to_string()),
        StrMap::new(),
        Vec::new(),
        false,
    );

    let dep_staleness = stale_map(vec![]);

    let result = compute_status(&check, &hash_result, &cache, &dep_staleness);

    match result {
        VerificationStatus::Unverified { reason: UnverifiedReason::ConfigChanged } => {}
        other => panic!("Expected ConfigChanged, got {:?}", other),
    }
}

#[test]
fn test_compute_staleness_after_failure() {
    let check = make_verification("test", vec!["src/**/*.rs"], vec![]);
    let config_hash = check.config_hash();
    let hash_result = make_hash_result("hash123", vec![("src/main.rs", "abc")]);

    let mut cache = CacheState::new();
    cache.update(
        "test",
        false,
        config_hash,
        Some("hash123".to_string()),
        StrMap::new(),
        Vec::new(),
        false,
    );

    let dep_staleness = stale_map(vec![]);

    let result = compute_status(&check, &hash_result, &cache, &dep_staleness);

    assert_eq!(
        result,
        VerificationStatus::Unverified { reason: UnverifiedReason::NeverRun }
    );
}

#[test]
fn test_compute_staleness_dependency_checked_before_cache_paths() {
    let check = make_verification("test", vec![], vec!["build"]);
    let hash_result = make_hash_result("hash123", vec![]);
    let cache = CacheState::new();

    let dep_staleness = stale_map(vec![("build", true)]);

    let result = compute_status(&check, &hash_result, &cache, &dep_staleness);

    match result {
        VerificationStatus::Unverified {
            reason: UnverifiedReason::DependencyUnverified { dependency },
        } => {
            assert_eq!(dependency, "build");
        }
        other => panic!("Expected DependencyUnverified, got {:?}", other),
    }
}

#[test]
fn test_compute_staleness_changed_files_enrichment() {
    let check = make_verification("test", vec!["src/**/*.rs"], vec![]);
    let config_hash = check.config_hash();

    let hash_result = make_hash_result(
        "new_combined",
        vec![
            ("src/main.rs", "new_main"),
            ("src/lib.rs", "same_lib"),
            ("src/util.rs", "new_util"),
        ],
    );

    let mut cache = CacheState::new();
    let mut old_hashes = StrMap::new();
    old_hashes.insert("src/main.rs".to_string(), "old_main".to_string());
    old_hashes.insert("src/lib.rs".to_string(), "same_lib".to_string());
    old_hashes.insert("src/util.rs".to_string(), "old_util".to_string());

    cache.update(
        "test",
        true,
        config_hash,
        Some("old_combined".to_string()),
        old_hashes,
        Vec::new(),
        true,
    );

    let dep_staleness = stale_map(vec![]);

    let result = compute_status(&check, &hash_result, &cache, &dep_staleness);

    match result {
        VerificationStatus::Unverified {
            reason: UnverifiedReason::FilesChanged { changed_files },
        } => {
            assert_eq!(changed_files.len(), 2);
            assert!(changed_files.contains(&"M src/main.rs".to_string()));
            assert!(changed_files.contains(&"M src/util.rs".to_string()));
            assert!(!changed_files.iter().any(|f| f.contains("lib.rs")));
        }
        other => panic!("Expected FilesChanged with 2 files, got {:?}", other),
    }
}

#[test]
fn test_compute_staleness_no_dependencies() {
    let check = make_verification("test", vec!["src/**/*.rs"], vec![]);
    let config_hash = check.config_hash();
    let hash_result = make_hash_result("hash123", vec![("src/main.rs", "abc")]);

    let mut cache = CacheState::new();
    cache.update(
        "test",
        true,
        config_hash,
        Some("hash123".to_string()),
        StrMap::new(),
        Vec::new(),
        false,
    );

    let dep_staleness = stale_map(vec![]);

    let result = compute_status(&check, &hash_result, &cache, &dep_staleness);

    assert_eq!(result, VerificationStatus::Verified);
}

#[test]
fn test_compute_staleness_all_dependencies_fresh() {
    let check = make_verification("test", vec!["src/**/*.rs"], vec!["build", "lint"]);
    let config_hash = check.config_hash();
    let hash_result = make_hash_result("hash123", vec![("src/main.rs", "abc")]);

    let mut cache = CacheState::new();
    cache.update(
        "test",
        true,
        config_hash,
        Some("hash123".to_string()),
        StrMap::new(),
        Vec::new(),
        false,
    );

    let dep_staleness = stale_map(vec![("build", false), ("lint", false)]);

    let result = compute_status(&check, &hash_result, &cache, &dep_staleness);

    assert_eq!(result, VerificationStatus::Verified);
}

#[test]
fn test_status_reports_modified_file_for_ordinary_check() {
    // A single tracked file whose contents change after a successful
    // ordinary run reads back as modified, named with an M line.
    let check = make_verification("t", vec!["*.txt"], vec![]);
    let config_hash = check.config_hash();
    let before = make_hash_result("combined_before", vec![("a.txt", "hash_of_x")]);

    let mut cache = CacheState::new();
    cache.update(
        "t",
        true,
        config_hash,
        Some(before.combined_hash.clone()),
        before.file_hashes,
        Vec::new(),
        false,
    );

    let after = make_hash_result("combined_after", vec![("a.txt", "hash_of_y")]);
    let result = compute_status(&check, &after, &cache, &stale_map(vec![]));
    match result {
        VerificationStatus::Unverified {
            reason: UnverifiedReason::FilesChanged { changed_files },
        } => {
            assert_eq!(changed_files, vec!["M a.txt".to_string()]);
        }
        other => panic!("Expected FilesChanged with an M line, got {:?}", other),
    }
}

#[test]
fn test_get_stale_files_from_cache_all_new() {
    let cached = StrMap::new();
    let hash_result = make_hash_result(
        "combined",
        vec![("file1.txt", "abc123"), ("file2.txt", "def456")],
    );

    let stale = get_stale_files_from_cache(&cached, &hash_result);
    assert_eq!(stale.len(), 2);
    assert!(stale.contains(&"file1.txt".to_string()));
    assert!(stale.contains(&"file2.txt".to_string()));
}

#[test]
fn test_get_stale_files_from_cache_all_fresh() {
    let mut cached = StrMap::new();
    cached.insert("file1.txt".to_string(), "abc123".to_string());

    let hash_result = make_hash_result("combined", vec![("file1.txt", "abc123")]);

    let stale = get_stale_files_from_cache(&cached, &hash_result);
    assert!(stale.is_empty());
}

#[test]
fn test_get_stale_files_from_cache_partial_progress() {
    let mut cached = StrMap::new();
    cached.insert("file1.txt".to_string(), "abc123".to_string());

    let hash_result = make_hash_result(
        "combined",
        vec![("file1.txt", "abc123"), ("file2.txt", "def456")],
    );

    let stale = get_stale_files_from_cache(&cached, &hash_result);
    assert_eq!(stale.len(), 1);
    assert_eq!(stale[0], "file2.txt");
}

#[test]
fn test_get_stale_files_from_cache_hash_changed() {
    let mut cached = StrMap::new();
    cached.insert("file1.txt".to_string(), "old_hash".to_string());

    let hash_result = make_hash_result("combined", vec![("file1.txt", "new_hash")]);

    let stale = get_stale_files_from_cache(&cached, &hash_result);
    assert_eq!(stale.len(), 1);
    assert_eq!(stale[0], "file1.txt");
}
