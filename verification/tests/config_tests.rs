use verify::config::Config;
use verify::config::MetadataPattern;
use verify::config::Subproject;
use verify::config::Verification;
use verify::config::VerificationItem;

fn check(name: &str, command: &str) -> Verification {
    Verification {
        name: name.to_string(),
        command: Some(command.to_string()),
        cache_paths: Vec::new(),
        depends_on: Vec::new(),
        timeout_secs: None,
        metadata: Vec::new(),
        per_file: false,
    }
}

fn pattern_check(name: &str, command: &str, paths: Vec<&str>) -> Verification {
    Verification {
        name: name.to_string(),
        command: Some(command.to_string()),
        cache_paths: paths.into_iter().map(String::from).collect(),
        depends_on: Vec::new(),
        timeout_secs: None,
        metadata: Vec::new(),
        per_file: false,
    }
}

#[test]
fn test_duplicate_names() {
    let config = Config {
        verifications: vec![
            VerificationItem::Verification(check("test", "npm test")),
            VerificationItem::Verification(check("test", "npm test")),
        ],
    };
    assert!(config.validate(".").is_err());
}

#[test]
fn test_unknown_dependency() {
    let mut v = check("test", "npm test");
    v.depends_on = vec!["nonexistent".to_string()];
    let config = Config { verifications: vec![VerificationItem::Verification(v)] };
    assert!(config.validate(".").is_err());
}

#[test]
fn test_self_dependency_rejected() {
    let mut v = check("build", "npm run build");
    v.depends_on = vec!["build".to_string()];
    let config = Config { verifications: vec![VerificationItem::Verification(v)] };
    let result = config.validate(".");
    assert!(result.is_err());
    let err = result.err().unwrap().message();
    assert!(err.contains("cannot depend on itself"));
    assert!(err.contains("build"));
}

#[test]
fn test_self_dependency_among_valid_deps() {
    let lint = check("lint", "npm run lint");
    let mut build = check("build", "npm run build");
    build.depends_on = vec!["lint".to_string(), "build".to_string()];
    let config = Config {
        verifications: vec![
            VerificationItem::Verification(lint),
            VerificationItem::Verification(build),
        ],
    };
    let result = config.validate(".");
    assert!(result.is_err());
    let err = result.err().unwrap().message();
    assert!(err.contains("cannot depend on itself"));
}

#[test]
fn test_empty_verifications() {
    let config = Config { verifications: Vec::new() };
    assert!(config.validate(".").is_ok());
    assert!(config.verifications.is_empty());
}

#[test]
fn test_mixed_verifications_and_subprojects() {
    let config = Config {
        verifications: vec![
            VerificationItem::Verification(pattern_check("build", "npm run build", vec!["src/**/*.ts"])),
            VerificationItem::Subproject(Subproject {
                name: "frontend".to_string(),
                path: "./packages/frontend".to_string(),
            }),
            VerificationItem::Verification(pattern_check("lint", "npm run lint", vec!["src/**/*.ts"])),
        ],
    };
    assert_eq!(config.verifications.len(), 3);
    assert_eq!(config.verifications_only().len(), 2);
    assert_eq!(config.subprojects().len(), 1);
}

#[test]
fn test_verification_depends_on_subproject() {
    let mut integration = pattern_check("integration", "npm run integration", vec!["tests/**/*.ts"]);
    integration.depends_on = vec!["frontend".to_string(), "backend".to_string()];
    let config = Config {
        verifications: vec![
            VerificationItem::Subproject(Subproject {
                name: "frontend".to_string(),
                path: "./packages/frontend".to_string(),
            }),
            VerificationItem::Subproject(Subproject {
                name: "backend".to_string(),
                path: "./packages/backend".to_string(),
            }),
            VerificationItem::Verification(integration),
        ],
    };
    assert_eq!(config.verifications.len(), 3);
    assert_eq!(config.subprojects().len(), 2);

    let integration = config.get("integration").unwrap();
    assert!(integration.depends_on.contains(&"frontend".to_string()));
    assert!(integration.depends_on.contains(&"backend".to_string()));
    assert!(config.validate_structure().is_ok());
}

#[test]
fn test_special_characters_in_name() {
    let config = Config {
        verifications: vec![
            VerificationItem::Verification(check("test-with-dashes", "npm test")),
            VerificationItem::Verification(check("test_with_underscores", "npm test")),
            VerificationItem::Verification(check("test.with.dots", "npm test")),
        ],
    };
    assert!(config.validate(".").is_ok());
    assert_eq!(config.verifications.len(), 3);
}

#[test]
fn test_get_nonexistent_check() {
    let config = Config {
        verifications: vec![VerificationItem::Verification(check("build", "npm run build"))],
    };
    assert!(config.get("nonexistent").is_none());
}

#[test]
fn test_get_subproject_via_get_returns_none() {
    let config = Config {
        verifications: vec![VerificationItem::Subproject(Subproject {
            name: "frontend".to_string(),
            path: "./packages/frontend".to_string(),
        })],
    };
    assert!(config.get("frontend").is_none());
    assert!(config.get_subproject("frontend").is_some());
    assert!(config.is_subproject("frontend"));
}

#[test]
fn test_config_hash_determinism() {
    let v1 = Verification {
        name: "test".to_string(),
        command: Some("npm test".to_string()),
        cache_paths: vec!["src/**/*.ts".to_string()],
        depends_on: Vec::new(),
        timeout_secs: Some(300),
        metadata: Vec::new(),
        per_file: false,
    };
    let v2 = Verification {
        name: "test".to_string(),
        command: Some("npm test".to_string()),
        cache_paths: vec!["src/**/*.ts".to_string()],
        depends_on: Vec::new(),
        timeout_secs: Some(300),
        metadata: Vec::new(),
        per_file: false,
    };
    assert_eq!(v1.config_hash(), v2.config_hash());
}

#[test]
fn test_config_hash_changes_with_command() {
    let v1 = check("test", "npm test");
    let v2 = check("test", "npm run test");
    assert_ne!(v1.config_hash(), v2.config_hash());
}

#[test]
fn test_config_hash_changes_with_cache_paths() {
    let v1 = pattern_check("test", "npm test", vec!["src/**/*.ts"]);
    let v2 = pattern_check("test", "npm test", vec!["src/**/*.js"]);
    assert_ne!(v1.config_hash(), v2.config_hash());
}

#[test]
fn test_config_hash_changes_with_timeout() {
    let mut v1 = check("test", "npm test");
    v1.timeout_secs = Some(300);
    let mut v2 = check("test", "npm test");
    v2.timeout_secs = Some(600);
    assert_ne!(v1.config_hash(), v2.config_hash());
}

#[test]
fn test_config_hash_changes_with_per_file() {
    let v1 = check("test", "npm test");
    let mut v2 = check("test", "npm test");
    v2.per_file = true;
    assert_ne!(v1.config_hash(), v2.config_hash());
}

#[test]
fn test_config_hash_cache_paths_order_independent() {
    let v1 = pattern_check("test", "npm test", vec!["a.ts", "b.ts", "c.ts"]);
    let v2 = pattern_check("test", "npm test", vec!["c.ts", "a.ts", "b.ts"]);
    assert_eq!(v1.config_hash(), v2.config_hash());
}

#[test]
fn test_config_hash_with_metadata() {
    let mut v1 = check("test", "npm test");
    v1.metadata = vec![(
        "coverage".to_string(),
        MetadataPattern::Simple(r"(\d+)%".to_string()),
    )];
    let v2 = check("test", "npm test");
    assert_ne!(v1.config_hash(), v2.config_hash());
}

#[test]
fn test_config_hash_metadata_order_independent() {
    let mut v1 = check("test", "npm test");
    v1.metadata = vec![
        ("alpha".to_string(), MetadataPattern::Simple("a(1)".to_string())),
        ("beta".to_string(), MetadataPattern::Simple("b(2)".to_string())),
    ];
    let mut v2 = check("test", "npm test");
    v2.metadata = vec![
        ("beta".to_string(), MetadataPattern::Simple("b(2)".to_string())),
        ("alpha".to_string(), MetadataPattern::Simple("a(1)".to_string())),
    ];
    assert_eq!(v1.config_hash(), v2.config_hash());
}

#[test]
fn test_missing_subproject_config_rejected() {
    let dir = tempfile::tempdir().unwrap();
    let config = Config {
        verifications: vec![VerificationItem::Subproject(Subproject {
            name: "ghost".to_string(),
            path: "no_such_dir".to_string(),
        })],
    };
    let result = config.validate(dir.path().to_str().unwrap());
    assert!(result.is_err());
    let err = result.err().unwrap().message();
    assert!(err.contains("ghost"));
    assert!(err.contains("config not found"));
}

#[test]
fn test_unknown_dependency_message_names_both() {
    let mut v = check("test", "npm test");
    v.depends_on = vec!["missing".to_string()];
    let config = Config { verifications: vec![VerificationItem::Verification(v)] };
    let err = config.validate(".").err().unwrap().message();
    assert!(err.contains("test"));
    assert!(err.contains("unknown check"));
    assert!(err.contains("missing"));
}

#[test]
fn test_generate_example_config_mentions_checks() {
    let text = verify::config::generate_example_config();
    assert!(text.contains("verifications:"));
    assert!(text.contains("name: build"));
    assert!(text.contains("depends_on: [build]"));
}
