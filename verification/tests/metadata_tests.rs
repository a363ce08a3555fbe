use verify::config::MetadataPattern;
use verify::metadata::extract_metadata;
use verify::metadata::parse_value;
use verify::metadata::replace_all_str;
use verify::metadata::MetadataValue;

fn md_get<'a>(m: &'a Vec<(String, MetadataValue)>, k: &str) -> Option<&'a MetadataValue> {
    for (key, value) in m {
        if key == k {
            return Some(value);
        }
    }
    None
}

#[test]
fn test_simple_pattern() {
    let patterns = vec![(
        "count".to_string(),
        MetadataPattern::Simple(r"Total: (\d+)".to_string()),
    )];

    let output = "Processing...\nTotal: 42 items\nDone!";
    let metadata = extract_metadata(output, &patterns);

    assert_eq!(metadata.len(), 1);
    match md_get(&metadata, "count") {
        Some(MetadataValue::Integer(42)) => {}
        other => panic!("Expected Integer(42), got {:?}", other),
    }
}

#[test]
fn test_float_extraction() {
    let patterns = vec![(
        "coverage".to_string(),
        MetadataPattern::Simple(r"Coverage: ([\d.]+)%".to_string()),
    )];

    let output = "Coverage: 85.5%";
    let metadata = extract_metadata(output, &patterns);

    match md_get(&metadata, "coverage") {
        Some(MetadataValue::Float(s)) => assert_eq!(s, "85.5"),
        other => panic!("Expected Float(\"85.5\"), got {:?}", other),
    }
}

#[test]
fn test_replacement_pattern() {
    let patterns = vec![(
        "ratio".to_string(),
        MetadataPattern::WithReplacement(r"(\d+)/(\d+)".to_string(), "$1 of $2".to_string()),
    )];

    let output = "Results: 5/10";
    let metadata = extract_metadata(output, &patterns);

    match md_get(&metadata, "ratio") {
        Some(MetadataValue::Text(s)) => assert_eq!(s, "5 of 10"),
        other => panic!("Expected Text(\"5 of 10\"), got {:?}", other),
    }
}

#[test]
fn test_no_match() {
    let patterns = vec![(
        "count".to_string(),
        MetadataPattern::Simple(r"Total: (\d+)".to_string()),
    )];

    let output = "No total here";
    let metadata = extract_metadata(output, &patterns);

    assert!(metadata.is_empty());
}

#[test]
fn test_multiple_matches_uses_last() {
    let patterns = vec![(
        "count".to_string(),
        MetadataPattern::Simple(r"Total: (\d+)".to_string()),
    )];

    let output = "Total: 10\nProcessing...\nTotal: 50\nMore work...\nTotal: 99";
    let metadata = extract_metadata(output, &patterns);

    match md_get(&metadata, "count") {
        Some(MetadataValue::Integer(99)) => {}
        other => panic!("Expected Integer(99) (last match), got {:?}", other),
    }
}

#[test]
fn test_parse_value_typing() {
    match parse_value("42".to_string()) {
        MetadataValue::Integer(42) => {}
        other => panic!("Expected Integer(42), got {:?}", other),
    }
    match parse_value("-7".to_string()) {
        MetadataValue::Integer(-7) => {}
        other => panic!("Expected Integer(-7), got {:?}", other),
    }
    match parse_value("3.25".to_string()) {
        MetadataValue::Float(s) => assert_eq!(s, "3.25"),
        other => panic!("Expected Float(\"3.25\"), got {:?}", other),
    }
    match parse_value("1e5".to_string()) {
        MetadataValue::Float(s) => assert_eq!(s, "1e5"),
        other => panic!("Expected Float(\"1e5\"), got {:?}", other),
    }
    match parse_value("hello".to_string()) {
        MetadataValue::Text(s) => assert_eq!(s, "hello"),
        other => panic!("Expected Text(\"hello\"), got {:?}", other),
    }
}

#[test]
fn test_parse_value_huge_integer_reads_as_float() {
    // Out of the signed 64-bit range, but still a numeral.
    match parse_value("99999999999999999999".to_string()) {
        MetadataValue::Float(s) => assert_eq!(s, "99999999999999999999"),
        other => panic!("Expected Float, got {:?}", other),
    }
}

#[test]
fn test_replace_all_multiple_occurrences() {
    let r = replace_all_str("$1 and $1 and $12", "$1", "x");
    assert_eq!(r, "x and x and x2");
}

#[test]
fn test_extract_metadata_sorted_keys() {
    let patterns = vec![
        ("zeta".to_string(), MetadataPattern::Simple(r"z=(\d+)".to_string())),
        ("alpha".to_string(), MetadataPattern::Simple(r"a=(\d+)".to_string())),
    ];
    let metadata = extract_metadata("a=1 z=2", &patterns);
    assert_eq!(metadata.len(), 2);
    assert_eq!(metadata[0].0, "alpha");
    assert_eq!(metadata[1].0, "zeta");
}
