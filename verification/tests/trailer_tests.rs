use verify::strmap::StrMap;
use verify::trailer::compute_combined_hash;
use verify::trailer::format_trailer_value;
use verify::trailer::parse_trailer_value;
use verify::trailer::truncate_hash;

#[test]
fn test_combined_hash_deterministic() {
    let h1 = compute_combined_hash("config_abc", "content_xyz");
    let h2 = compute_combined_hash("config_abc", "content_xyz");
    assert_eq!(h1, h2);
}

#[test]
fn test_combined_hash_full_length() {
    let h = compute_combined_hash("config", "content");
    assert_eq!(h.len(), 64);
}

#[test]
fn test_combined_hash_changes_on_config() {
    let h1 = compute_combined_hash("config_a", "content");
    let h2 = compute_combined_hash("config_b", "content");
    assert_ne!(h1, h2);
}

#[test]
fn test_combined_hash_changes_on_content() {
    let h1 = compute_combined_hash("config", "content_a");
    let h2 = compute_combined_hash("config", "content_b");
    assert_ne!(h1, h2);
}

#[test]
fn test_truncate_hash() {
    let full = "a1b2c3d4e5f6a7b8c9d0e1f23a4b5c6d7e8f9a0b1c2d3e4f5a6b7c8d9e0f1a2";
    assert_eq!(truncate_hash(full), "a1b2c3d4");
}

#[test]
fn test_truncate_hash_short_input() {
    assert_eq!(truncate_hash("abc"), "abc");
}

#[test]
fn test_format_trailer_value() {
    let mut hashes = StrMap::new();
    hashes.insert("build".to_string(), "a1b2c3d4e5f6a7b8".to_string());
    hashes.insert("lint".to_string(), "c9d0e1f23a4b5c6d".to_string());

    let output = format_trailer_value(&hashes);
    assert_eq!(output, "build:a1b2c3d4,lint:c9d0e1f2");
}

#[test]
fn test_format_trailer_value_empty() {
    let hashes = StrMap::new();
    assert_eq!(format_trailer_value(&hashes), "");
}

#[test]
fn test_parse_trailer_value() {
    let parsed = parse_trailer_value("build:a1b2c3d4,lint:e5f6a7b8");
    assert_eq!(parsed.len(), 2);
    assert_eq!(parsed.get("build").unwrap(), "a1b2c3d4");
    assert_eq!(parsed.get("lint").unwrap(), "e5f6a7b8");
}

#[test]
fn test_parse_trailer_value_single() {
    let parsed = parse_trailer_value("build:a1b2c3d4");
    assert_eq!(parsed.len(), 1);
    assert_eq!(parsed.get("build").unwrap(), "a1b2c3d4");
}

#[test]
fn test_parse_trailer_value_empty() {
    let parsed = parse_trailer_value("");
    assert_eq!(parsed.len(), 0);
}

#[test]
fn test_format_parse_roundtrip() {
    let mut hashes = StrMap::new();
    hashes.insert(
        "build".to_string(),
        "a1b2c3d4e5f6a7b8c9d0e1f23a4b5c6d7e8f9a0b1c2d3e4f5a6b7c8d9e0f1a2".to_string(),
    );
    hashes.insert(
        "lint".to_string(),
        "1122334455667788aabbccddeeff00112233445566778899aabbccddeeff001122".to_string(),
    );

    let formatted = format_trailer_value(&hashes);
    let parsed = parse_trailer_value(&formatted);

    assert_eq!(parsed.get("build").unwrap(), "a1b2c3d4");
    assert_eq!(parsed.get("lint").unwrap(), "11223344");
}

#[test]
fn test_format_parse_format_is_identity() {
    let mut hashes = StrMap::new();
    hashes.insert(
        "build".to_string(),
        "a1b2c3d4e5f6a7b8c9d0e1f23a4b5c6d7e8f9a0b1c2d3e4f5a6b7c8d9e0f1a2".to_string(),
    );
    hashes.insert("lint".to_string(), "1122334455667788".to_string());

    let first = format_trailer_value(&hashes);
    let reparsed = parse_trailer_value(&first);
    let second = format_trailer_value(&reparsed);
    assert_eq!(first, second);
}

#[test]
fn test_parse_trailer_value_trims_spaces() {
    let parsed = parse_trailer_value(" build:a1b2c3d4 , lint:e5f6a7b8 ");
    assert_eq!(parsed.len(), 2);
    assert_eq!(parsed.get("build").unwrap(), "a1b2c3d4");
    assert_eq!(parsed.get("lint").unwrap(), "e5f6a7b8");
}
