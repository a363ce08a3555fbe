use verify::config::Config;
use verify::config::Verification;
use verify::config::VerificationItem;
use verify::graph::DependencyGraph;

fn make_config(verifications: Vec<(&str, Vec<&str>)>) -> Config {
    Config {
        verifications: verifications
            .into_iter()
            .map(|(name, deps)| {
                VerificationItem::Verification(Verification {
                    name: name.to_string(),
                    command: Some("echo test".to_string()),
                    cache_paths: Vec::new(),
                    depends_on: deps.into_iter().map(String::from).collect(),
                    timeout_secs: None,
                    metadata: Vec::new(),
                    per_file: false,
                })
            })
            .collect(),
    }
}

#[test]
fn test_no_dependencies() {
    let config = make_config(vec![("a", vec![]), ("b", vec![]), ("c", vec![])]);
    let graph = DependencyGraph::from_config(&config).unwrap();

    let waves = graph.execution_waves();
    assert_eq!(waves.len(), 1);
    assert_eq!(waves[0].len(), 3);
}

#[test]
fn test_linear_dependencies() {
    let config = make_config(vec![("a", vec![]), ("b", vec!["a"]), ("c", vec!["b"])]);
    let graph = DependencyGraph::from_config(&config).unwrap();

    let waves = graph.execution_waves();
    assert_eq!(waves.len(), 3);
    assert_eq!(waves[0], vec!["a"]);
    assert_eq!(waves[1], vec!["b"]);
    assert_eq!(waves[2], vec!["c"]);
}

#[test]
fn test_diamond_dependency() {
    let config = make_config(vec![
        ("a", vec![]),
        ("b", vec!["a"]),
        ("c", vec!["a"]),
        ("d", vec!["b", "c"]),
    ]);
    let graph = DependencyGraph::from_config(&config).unwrap();

    let waves = graph.execution_waves();
    assert_eq!(waves.len(), 3);
    assert_eq!(waves[0], vec!["a"]);
    assert!(waves[1].contains(&"b".to_string()));
    assert!(waves[1].contains(&"c".to_string()));
    assert_eq!(waves[2], vec!["d"]);
}

#[test]
fn test_cycle_detection() {
    let config = make_config(vec![("a", vec!["b"]), ("b", vec!["a"])]);
    let result = DependencyGraph::from_config(&config);
    assert!(result.is_err());
}

#[test]
fn test_transitive_dependencies() {
    let config = make_config(vec![("a", vec![]), ("b", vec!["a"]), ("c", vec!["b"])]);
    let graph = DependencyGraph::from_config(&config).unwrap();

    let deps = graph.transitive_dependencies("c");
    assert!(deps.contains(&"a".to_string()));
    assert!(deps.contains(&"b".to_string()));
    assert!(deps.contains(&"c".to_string()));
}

#[test]
fn test_single_node() {
    let config = make_config(vec![("only", vec![])]);
    let graph = DependencyGraph::from_config(&config).unwrap();

    let waves = graph.execution_waves();
    assert_eq!(waves.len(), 1);
    assert_eq!(waves[0], vec!["only"]);
}

#[test]
fn test_empty_graph() {
    let config = make_config(vec![]);
    let graph = DependencyGraph::from_config(&config).unwrap();

    let waves = graph.execution_waves();
    assert!(waves.is_empty());
}

#[test]
fn test_two_independent_chains() {
    let config = make_config(vec![
        ("a", vec![]),
        ("b", vec!["a"]),
        ("c", vec!["b"]),
        ("x", vec![]),
        ("y", vec!["x"]),
        ("z", vec!["y"]),
    ]);
    let graph = DependencyGraph::from_config(&config).unwrap();

    let waves = graph.execution_waves();
    assert_eq!(waves.len(), 3);

    assert_eq!(waves[0].len(), 2);
    assert!(waves[0].contains(&"a".to_string()));
    assert!(waves[0].contains(&"x".to_string()));

    assert_eq!(waves[1].len(), 2);
    assert!(waves[1].contains(&"b".to_string()));
    assert!(waves[1].contains(&"y".to_string()));

    assert_eq!(waves[2].len(), 2);
    assert!(waves[2].contains(&"c".to_string()));
    assert!(waves[2].contains(&"z".to_string()));
}

#[test]
fn test_wide_parallel_then_converge() {
    let config = make_config(vec![
        ("a", vec![]),
        ("b", vec![]),
        ("c", vec![]),
        ("d", vec![]),
        ("final", vec!["a", "b", "c", "d"]),
    ]);
    let graph = DependencyGraph::from_config(&config).unwrap();

    let waves = graph.execution_waves();
    assert_eq!(waves.len(), 2);

    assert_eq!(waves[0].len(), 4);
    assert!(waves[0].contains(&"a".to_string()));
    assert!(waves[0].contains(&"b".to_string()));
    assert!(waves[0].contains(&"c".to_string()));
    assert!(waves[0].contains(&"d".to_string()));

    assert_eq!(waves[1].len(), 1);
    assert_eq!(waves[1][0], "final");
}

#[test]
fn test_complex_dag() {
    let config = make_config(vec![
        ("a", vec![]),
        ("b", vec!["a"]),
        ("c", vec!["a"]),
        ("d", vec!["b", "c"]),
        ("e", vec!["b", "c"]),
        ("f", vec!["d", "e"]),
    ]);
    let graph = DependencyGraph::from_config(&config).unwrap();

    let waves = graph.execution_waves();
    assert_eq!(waves.len(), 4);

    assert_eq!(waves[0], vec!["a"]);

    assert_eq!(waves[1].len(), 2);
    assert!(waves[1].contains(&"b".to_string()));
    assert!(waves[1].contains(&"c".to_string()));

    assert_eq!(waves[2].len(), 2);
    assert!(waves[2].contains(&"d".to_string()));
    assert!(waves[2].contains(&"e".to_string()));

    assert_eq!(waves[3], vec!["f"]);
}

#[test]
fn test_three_node_cycle() {
    let config = make_config(vec![("a", vec!["c"]), ("b", vec!["a"]), ("c", vec!["b"])]);
    let result = DependencyGraph::from_config(&config);
    assert!(result.is_err());
    let err = result.err().unwrap();
    assert!(err.message().contains("Circular dependency"));
}

#[test]
fn test_self_referencing_node() {
    let config = make_config(vec![("a", vec!["a"])]);
    let result = DependencyGraph::from_config(&config);
    assert!(result.is_err());
}

#[test]
fn test_dependencies_direct() {
    let config = make_config(vec![("a", vec![]), ("b", vec![]), ("c", vec!["a", "b"])]);
    let graph = DependencyGraph::from_config(&config).unwrap();

    let deps = graph.dependencies("c");
    assert_eq!(deps.len(), 2);
    assert!(deps.contains(&"a".to_string()));
    assert!(deps.contains(&"b".to_string()));
}

#[test]
fn test_dependencies_none() {
    let config = make_config(vec![("a", vec![]), ("b", vec![])]);
    let graph = DependencyGraph::from_config(&config).unwrap();

    let deps = graph.dependencies("a");
    assert!(deps.is_empty());
}

#[test]
fn test_dependencies_unknown_node() {
    let config = make_config(vec![("a", vec![])]);
    let graph = DependencyGraph::from_config(&config).unwrap();

    let deps = graph.dependencies("nonexistent");
    assert!(deps.is_empty());
}

#[test]
fn test_dependents_direct() {
    let config = make_config(vec![("a", vec![]), ("b", vec!["a"]), ("c", vec!["a"])]);
    let graph = DependencyGraph::from_config(&config).unwrap();

    let dependents = graph.dependents("a");
    assert_eq!(dependents.len(), 2);
    assert!(dependents.contains(&"b".to_string()));
    assert!(dependents.contains(&"c".to_string()));
}

#[test]
fn test_dependents_none() {
    let config = make_config(vec![("a", vec![]), ("b", vec!["a"])]);
    let graph = DependencyGraph::from_config(&config).unwrap();

    let dependents = graph.dependents("b");
    assert!(dependents.is_empty());
}

#[test]
fn test_transitive_dependencies_single_node() {
    let config = make_config(vec![("a", vec![])]);
    let graph = DependencyGraph::from_config(&config).unwrap();

    let deps = graph.transitive_dependencies("a");
    assert_eq!(deps.len(), 1);
    assert!(deps.contains(&"a".to_string()));
}

#[test]
fn test_transitive_dependencies_deep_chain() {
    let config = make_config(vec![
        ("a", vec![]),
        ("b", vec!["a"]),
        ("c", vec!["b"]),
        ("d", vec!["c"]),
        ("e", vec!["d"]),
    ]);
    let graph = DependencyGraph::from_config(&config).unwrap();

    let deps = graph.transitive_dependencies("e");
    assert_eq!(deps.len(), 5);
    assert!(deps.contains(&"a".to_string()));
    assert!(deps.contains(&"b".to_string()));
    assert!(deps.contains(&"c".to_string()));
    assert!(deps.contains(&"d".to_string()));
    assert!(deps.contains(&"e".to_string()));
}

#[test]
fn test_transitive_dependencies_unknown_node() {
    let config = make_config(vec![("a", vec![])]);
    let graph = DependencyGraph::from_config(&config).unwrap();

    let deps = graph.transitive_dependencies("nonexistent");
    assert_eq!(deps.len(), 1);
    assert!(deps.contains(&"nonexistent".to_string()));
}

#[test]
fn test_cycle_error_names_a_cycle_member() {
    // c depends on the a-b cycle but lies on no cycle itself: the error
    // must name a or b, never c.
    let config = make_config(vec![("c", vec!["a"]), ("a", vec!["b"]), ("b", vec!["a"])]);
    match DependencyGraph::from_config(&config) {
        Err(verify::graph::GraphError::Cycle { name }) => {
            assert!(name == "a" || name == "b", "named {}", name);
        }
        other => panic!("expected a cycle error, got {:?}", other.is_ok()),
    }
}

#[test]
fn test_transitive_dependencies_closure() {
    let config = make_config(vec![
        ("a", vec!["b"]),
        ("b", vec!["c"]),
        ("c", vec![]),
        ("d", vec![]),
    ]);
    let graph = DependencyGraph::from_config(&config).unwrap();
    let all = graph.transitive_dependencies("a");
    assert_eq!(all[0], "a");
    assert!(all.contains(&"b".to_string()));
    assert!(all.contains(&"c".to_string()));
    assert!(!all.contains(&"d".to_string()));
    assert_eq!(all.len(), 3);
}

#[test]
fn test_dependencies_lists_every_direct_dependency() {
    let config = make_config(vec![("a", vec!["b", "c"]), ("b", vec![]), ("c", vec![])]);
    let graph = DependencyGraph::from_config(&config).unwrap();
    let deps = graph.dependencies("a");
    assert_eq!(deps.len(), 2);
    assert!(deps.contains(&"b".to_string()));
    assert!(deps.contains(&"c".to_string()));
    let dependents = graph.dependents("b");
    assert_eq!(dependents, vec!["a".to_string()]);
}
