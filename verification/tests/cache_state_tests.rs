use verify::cache::CacheState;
use verify::cache::UnverifiedReason;
use verify::cache::VerificationStatus;
use verify::strmap::StrMap;

#[test]
fn test_staleness_never_run() {
    let cache = CacheState::new();
    assert_eq!(
        cache.check_staleness("test", "somehash", "confighash"),
        VerificationStatus::Unverified { reason: UnverifiedReason::NeverRun }
    );
}

#[test]
fn test_staleness_fresh() {
    let mut cache = CacheState::new();
    cache.update(
        "test",
        true,
        "confighash".to_string(),
        Some("abc123".to_string()),
        StrMap::new(),
        Vec::new(),
        false,
    );

    assert_eq!(
        cache.check_staleness("test", "abc123", "confighash"),
        VerificationStatus::Verified
    );
}

#[test]
fn test_staleness_after_content_change() {
    let mut cache = CacheState::new();
    cache.update(
        "test",
        true,
        "confighash".to_string(),
        Some("abc123".to_string()),
        StrMap::new(),
        Vec::new(),
        false,
    );

    match cache.check_staleness("test", "different_hash", "confighash") {
        VerificationStatus::Unverified { reason: UnverifiedReason::FilesChanged { .. } } => {}
        other => panic!("Expected Unverified(FilesChanged), got {:?}", other),
    }
}

#[test]
fn test_staleness_after_config_change() {
    let mut cache = CacheState::new();
    cache.update(
        "test",
        true,
        "confighash".to_string(),
        Some("abc123".to_string()),
        StrMap::new(),
        Vec::new(),
        false,
    );

    match cache.check_staleness("test", "abc123", "different_config") {
        VerificationStatus::Unverified { reason: UnverifiedReason::ConfigChanged } => {}
        other => panic!("Expected Unverified(ConfigChanged), got {:?}", other),
    }
}

#[test]
fn test_staleness_after_failure() {
    let mut cache = CacheState::new();
    cache.update(
        "test",
        false,
        "confighash".to_string(),
        Some("abc123".to_string()),
        StrMap::new(),
        Vec::new(),
        false,
    );

    assert_eq!(
        cache.check_staleness("test", "anyhash", "confighash"),
        VerificationStatus::Unverified { reason: UnverifiedReason::NeverRun }
    );
}

#[test]
fn test_cleanup_orphaned() {
    let mut cache = CacheState::new();
    cache.update(
        "keep",
        true,
        "config1".to_string(),
        Some("hash1".to_string()),
        StrMap::new(),
        Vec::new(),
        false,
    );
    cache.update(
        "remove",
        true,
        "config2".to_string(),
        Some("hash2".to_string()),
        StrMap::new(),
        Vec::new(),
        false,
    );

    let valid = vec!["keep".to_string()];
    cache.cleanup_orphaned(&valid);

    assert!(cache.get("keep").is_some());
    assert!(cache.get("remove").is_none());
}

#[test]
fn test_file_hashes_only_stored_for_per_file() {
    // The listing is now kept for every successful run, whatever the
    // mode: a later content change must be able to name the modified
    // files, so an ordinary check's entry carries it too.
    let mut cache = CacheState::new();
    let mut file_hashes = StrMap::new();
    file_hashes.insert("test.rs".to_string(), "abc".to_string());
    let mut file_hashes2 = StrMap::new();
    file_hashes2.insert("test.rs".to_string(), "abc".to_string());

    cache.update(
        "regular",
        true,
        "config".to_string(),
        Some("hash".to_string()),
        file_hashes,
        Vec::new(),
        false,
    );
    assert!(!cache.get("regular").unwrap().file_hashes.is_empty());

    cache.update(
        "perfile",
        true,
        "config".to_string(),
        Some("hash".to_string()),
        file_hashes2,
        Vec::new(),
        true,
    );
    assert!(!cache.get("perfile").unwrap().file_hashes.is_empty());
}

#[test]
fn test_clear_named_entries() {
    let mut cache = CacheState::new();
    cache.update(
        "a",
        true,
        "c1".to_string(),
        Some("h1".to_string()),
        StrMap::new(),
        Vec::new(),
        false,
    );
    cache.update(
        "b",
        true,
        "c2".to_string(),
        Some("h2".to_string()),
        StrMap::new(),
        Vec::new(),
        false,
    );

    cache.clear(&vec!["a".to_string()]);
    assert!(cache.get("a").is_none());
    assert!(cache.get("b").is_some());

    cache.clear(&Vec::new());
    assert!(cache.get("b").is_none());
}

#[test]
fn test_per_file_partial_progress_kept_on_failure() {
    let mut cache = CacheState::new();
    cache.update_per_file_hash("check", "cfg", "good.txt", "h1".to_string());
    cache.mark_per_file_failed("check", "cfg");

    let entry = cache.get("check").unwrap();
    assert!(entry.content_hash.is_none());
    assert_eq!(entry.file_hashes.get("good.txt").unwrap(), "h1");
}

#[test]
fn test_finalize_per_file_records_success() {
    let mut cache = CacheState::new();
    cache.update_per_file_hash("check", "cfg", "a.txt", "h1".to_string());
    let mut all = StrMap::new();
    all.insert("a.txt".to_string(), "h1".to_string());
    all.insert("b.txt".to_string(), "h2".to_string());
    cache.finalize_per_file("check", "cfg", "combined".to_string(), all, Vec::new());

    assert_eq!(
        cache.check_staleness("check", "combined", "cfg"),
        VerificationStatus::Verified
    );
    let entry = cache.get("check").unwrap();
    assert_eq!(entry.file_hashes.get("b.txt").unwrap(), "h2");
}
