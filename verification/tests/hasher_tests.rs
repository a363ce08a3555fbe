use std::io::Write;
use verify::hasher::compute_check_hash;
use verify::hasher::find_changed_files;
use verify::strmap::StrMap;


fn write_file(dir: &std::path::Path, name: &str, contents: &str) {
    let mut f = tempfile::NamedTempFile::new_in(dir).unwrap();
    f.write_all(contents.as_bytes()).unwrap();
    f.persist(dir.join(name)).unwrap();
}

fn map_of(pairs: Vec<(&str, &str)>) -> StrMap {
    let mut m = StrMap::new();
    for (k, v) in pairs {
        m.insert(k.to_string(), v.to_string());
    }
    m
}

#[test]
fn test_find_changed_files() {
    let old = map_of(vec![("a.txt", "hash1"), ("b.txt", "hash2")]);
    let new = map_of(vec![("a.txt", "hash1_changed"), ("c.txt", "hash3")]);

    let changed = find_changed_files(&old, &new);
    assert!(changed.contains(&"+ c.txt".to_string()));
    assert!(changed.contains(&"- b.txt".to_string()));
    assert!(changed.contains(&"M a.txt".to_string()));
}

#[test]
fn test_find_changed_files_only_added() {
    let old = StrMap::new();
    let new = map_of(vec![("a.txt", "hash1"), ("b.txt", "hash2")]);

    let changed = find_changed_files(&old, &new);
    assert_eq!(changed.len(), 2);
    assert!(changed.contains(&"+ a.txt".to_string()));
    assert!(changed.contains(&"+ b.txt".to_string()));
}

#[test]
fn test_find_changed_files_only_deleted() {
    let old = map_of(vec![("a.txt", "hash1"), ("b.txt", "hash2")]);
    let new = StrMap::new();

    let changed = find_changed_files(&old, &new);
    assert_eq!(changed.len(), 2);
    assert!(changed.contains(&"- a.txt".to_string()));
    assert!(changed.contains(&"- b.txt".to_string()));
}

#[test]
fn test_find_changed_files_only_modified() {
    let old = map_of(vec![("a.txt", "old_hash")]);
    let new = map_of(vec![("a.txt", "new_hash")]);

    let changed = find_changed_files(&old, &new);
    assert_eq!(changed.len(), 1);
    assert!(changed.contains(&"M a.txt".to_string()));
}

#[test]
fn test_find_changed_files_no_changes() {
    let old = map_of(vec![("a.txt", "hash1"), ("b.txt", "hash2")]);
    let new = map_of(vec![("a.txt", "hash1"), ("b.txt", "hash2")]);

    let changed = find_changed_files(&old, &new);
    assert!(changed.is_empty());
}

#[test]
fn test_find_changed_files_both_empty() {
    let changed = find_changed_files(&StrMap::new(), &StrMap::new());
    assert!(changed.is_empty());
}

#[test]
fn test_find_changed_files_sorted_output() {
    let old = map_of(vec![("z.txt", "hash1")]);
    let new = map_of(vec![("a.txt", "hash2"), ("m.txt", "hash3")]);

    let changed = find_changed_files(&old, &new);
    assert_eq!(changed.len(), 3);
    assert_eq!(changed[0], "+ a.txt");
    assert_eq!(changed[1], "+ m.txt");
    assert_eq!(changed[2], "- z.txt");
}

#[test]
fn test_find_changed_files_disjoint_maps() {
    let old = map_of(vec![("x.txt", "h1"), ("y.txt", "h2")]);
    let new = map_of(vec![("a.txt", "h3"), ("b.txt", "h4")]);

    let changed = find_changed_files(&old, &new);
    assert_eq!(changed.len(), 4);
    assert!(changed.contains(&"- x.txt".to_string()));
    assert!(changed.contains(&"- y.txt".to_string()));
    assert!(changed.contains(&"+ a.txt".to_string()));
    assert!(changed.contains(&"+ b.txt".to_string()));
}

#[test]
fn test_compute_check_hash_empty_patterns() {
    let dir = tempfile::tempdir().unwrap();

    let result = compute_check_hash(dir.path().to_str().unwrap(), &Vec::new()).unwrap();
    assert!(result.file_hashes.is_empty());
    assert!(!result.combined_hash.is_empty());
}

#[test]
fn test_compute_check_hash_single_file() {
    let dir = tempfile::tempdir().unwrap();
    write_file(dir.path(), "test.txt", "content");

    let result = compute_check_hash(
        dir.path().to_str().unwrap(),
        &vec!["test.txt".to_string()],
    )
    .unwrap();
    assert_eq!(result.file_hashes.len(), 1);
    assert!(result.file_hashes.contains_key("test.txt"));
}

#[test]
fn test_compute_check_hash_glob_pattern() {
    let dir = tempfile::tempdir().unwrap();
    write_file(dir.path(), "a.rs", "fn a() {}");
    write_file(dir.path(), "b.rs", "fn b() {}");
    write_file(dir.path(), "c.txt", "text file");

    let result =
        compute_check_hash(dir.path().to_str().unwrap(), &vec!["*.rs".to_string()]).unwrap();
    assert_eq!(result.file_hashes.len(), 2);
    assert!(result.file_hashes.contains_key("a.rs"));
    assert!(result.file_hashes.contains_key("b.rs"));
    assert!(!result.file_hashes.contains_key("c.txt"));
}

#[test]
fn test_compute_check_hash_overlapping_patterns() {
    let dir = tempfile::tempdir().unwrap();
    write_file(dir.path(), "test.rs", "content");

    let result = compute_check_hash(
        dir.path().to_str().unwrap(),
        &vec!["*.rs".to_string(), "test.rs".to_string()],
    )
    .unwrap();

    assert_eq!(result.file_hashes.len(), 1);
}

#[test]
fn test_compute_check_hash_determinism() {
    let dir = tempfile::tempdir().unwrap();
    write_file(dir.path(), "a.txt", "aaa");
    write_file(dir.path(), "b.txt", "bbb");

    let result1 =
        compute_check_hash(dir.path().to_str().unwrap(), &vec!["*.txt".to_string()]).unwrap();
    let result2 =
        compute_check_hash(dir.path().to_str().unwrap(), &vec!["*.txt".to_string()]).unwrap();

    assert_eq!(result1.combined_hash, result2.combined_hash);
    assert_eq!(result1.file_hashes.len(), result2.file_hashes.len());
    assert_eq!(
        result1.file_hashes.get("a.txt").unwrap(),
        result2.file_hashes.get("a.txt").unwrap()
    );
}

#[test]
fn test_compute_check_hash_includes_path_in_combined() {
    // The same bytes under another name: the file hash stays, the
    // combined hash moves.
    let dir1 = tempfile::tempdir().unwrap();
    write_file(dir1.path(), "a.txt", "content");
    let dir2 = tempfile::tempdir().unwrap();
    write_file(dir2.path(), "b.txt", "content");

    let result1 =
        compute_check_hash(dir1.path().to_str().unwrap(), &vec!["a.txt".to_string()]).unwrap();
    let result2 =
        compute_check_hash(dir2.path().to_str().unwrap(), &vec!["b.txt".to_string()]).unwrap();

    let hash1 = result1.file_hashes.get("a.txt").unwrap().clone();
    let hash2 = result2.file_hashes.get("b.txt").unwrap().clone();
    assert_eq!(hash1, hash2);

    assert_ne!(result1.combined_hash, result2.combined_hash);
}

#[test]
fn test_compute_check_hash_no_matching_files() {
    let dir = tempfile::tempdir().unwrap();
    write_file(dir.path(), "test.txt", "content");

    let result =
        compute_check_hash(dir.path().to_str().unwrap(), &vec!["*.rs".to_string()]).unwrap();
    assert!(result.file_hashes.is_empty());
}

#[test]
fn test_compute_check_hash_multiple_patterns() {
    let dir = tempfile::tempdir().unwrap();
    write_file(dir.path(), "code.rs", "rust");
    write_file(dir.path(), "code.ts", "typescript");
    write_file(dir.path(), "readme.md", "docs");

    let result = compute_check_hash(
        dir.path().to_str().unwrap(),
        &vec!["*.rs".to_string(), "*.ts".to_string()],
    )
    .unwrap();

    assert_eq!(result.file_hashes.len(), 2);
    assert!(result.file_hashes.contains_key("code.rs"));
    assert!(result.file_hashes.contains_key("code.ts"));
}

#[test]
fn test_compute_check_hash_invalid_pattern() {
    let dir = tempfile::tempdir().unwrap();
    let result = compute_check_hash(dir.path().to_str().unwrap(), &vec!["***".to_string()]);
    assert!(result.is_err());
}
