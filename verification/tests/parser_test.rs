use std::collections::HashSet;

use callquery::analyzer::Analyzer;
use callquery::searcher::{CallEntry, ClangdServer, FileSymbols, MatchStrategy};

fn entry(key: &str, values: &[&str]) -> CallEntry {
    CallEntry {
        key: key.to_string(),
        values: values.iter().map(|s| s.to_string()).collect(),
    }
}

/// An index over one file whose symbols are `parent1`, `parent2`, `func`,
/// `child1`, `child2`; the parents call everything, `func` calls the two
/// children.
fn sample_analyzer() -> Analyzer {
    let index_map = vec![FileSymbols {
        path: "main.c".to_string(),
        functions: vec![
            "parent1".to_string(),
            "parent2".to_string(),
            "func".to_string(),
            "child1".to_string(),
            "child2".to_string(),
        ],
    }];
    let function_index = vec![
        entry("parent1", &["func", "parent1", "parent2"]),
        entry("parent2", &["func", "parent1", "parent2"]),
        entry("func", &["child1", "child2"]),
    ];
    let inv_function_index = vec![
        entry("func", &["parent1", "parent2"]),
        entry("parent1", &["parent1", "parent2"]),
        entry("parent2", &["parent1", "parent2"]),
        entry("child1", &["func"]),
        entry("child2", &["func"]),
    ];
    Analyzer::new(ClangdServer::new(index_map, function_index, inv_function_index))
}

fn group_names(parser_output: &[callquery::searcher::FunctionNode]) -> HashSet<String> {
    let mut names = HashSet::new();
    for group in parser_output {
        for name in &group.function_name {
            names.insert(name.clone());
        }
    }
    names
}

fn edge_set(graph: &callquery::graph::Graph) -> HashSet<(String, String)> {
    graph.graph_to_tuple().into_iter().collect()
}

fn string_set(names: &[&str]) -> HashSet<String> {
    names.iter().map(|s| s.to_string()).collect()
}

#[test]
fn test_parser_simple1() {
    let input = r#"{@func}"#;
    let mut parser = sample_analyzer();
    let parser_output = HashSet::from(["parent1".to_string(), "parent2".to_string()]);
    assert_eq!(group_names(&parser.parse(input).unwrap()), parser_output);
    let graph_output = HashSet::from([
        ("parent1".to_string(), "func".to_string()),
        ("parent2".to_string(), "func".to_string()),
    ]);
    assert_eq!(edge_set(&parser.graph), graph_output);
}

#[test]
fn test_parser_simple2() {
    let input = r#"@func {}"#;
    let mut parser = sample_analyzer();
    let parser_output = HashSet::from(["func".to_string()]);
    assert_eq!(group_names(&parser.parse(input).unwrap()), parser_output);
    let graph_output = HashSet::from([
        ("func".to_string(), "child1".to_string()),
        ("func".to_string(), "child2".to_string()),
    ]);
    assert_eq!(edge_set(&parser.graph), graph_output);
}

#[test]
fn test_parser() {
    let input = r#"{{@func}}"#;
    let mut parser = sample_analyzer();
    let parser_output = HashSet::from(["parent1".to_string(), "parent2".to_string()]);
    assert_eq!(group_names(&parser.parse(input).unwrap()), parser_output);
    let graph_output = HashSet::from([
        ("parent1".to_string(), "func".to_string()),
        ("parent1".to_string(), "parent1".to_string()),
        ("parent1".to_string(), "parent2".to_string()),
        ("parent2".to_string(), "func".to_string()),
        ("parent2".to_string(), "parent1".to_string()),
        ("parent2".to_string(), "parent2".to_string()),
    ]);
    assert_eq!(edge_set(&parser.graph), graph_output);
}

#[test]
fn test_graph_only_node() {
    let input = r#"@foo"#;
    let mut parser = sample_analyzer();
    parser.parse(input).unwrap();
    assert_eq!(edge_set(&parser.graph), HashSet::new());
    let nodes = parser.graph.node_list();
    assert_eq!(nodes.len(), 1);
    for node in nodes {
        assert_eq!(node.name.as_str(), "foo");
    }
}

#[test]
fn filter_only_query_adds_its_nodes() {
    // a leaf filter answers its resolved group and adds nodes, no edges
    let mut parser = sample_analyzer();
    let groups = parser.parse(r#"@func"#).unwrap();
    assert_eq!(group_names(&groups), string_set(&["func"]));
    assert!(parser.graph.has_node("func"));
    assert_eq!(edge_set(&parser.graph), HashSet::new());
}

#[test]
fn absent_identifier_yields_not_found_group() {
    // an exact identifier missing from the index still resolves, tagged
    // with the placeholder document, and confirmed matching finds nothing
    let mut parser = sample_analyzer();
    let groups = parser.parse(r#"{@missing}"#).unwrap();
    assert_eq!(groups.len(), 1);
    assert!(groups[0].function_name.is_empty());
    assert_eq!(edge_set(&parser.graph), HashSet::new());

    let mut leaf = sample_analyzer();
    let leaf_groups = leaf.parse(r#"@missing"#).unwrap();
    assert_eq!(leaf_groups.len(), 1);
    assert_eq!(leaf_groups[0].document.as_str(), "not found");
    assert_eq!(group_names(&leaf_groups), string_set(&["missing"]));
    assert!(matches!(leaf_groups[0].match_strategy, MatchStrategy::Confirmed));
}

#[test]
fn regex_filter_selects_by_name() {
    // the name pattern drives resolution through the compiled regex
    let mut parser = sample_analyzer();
    let groups = parser.parse(r#"@filter(function="parent[12]")"#).unwrap();
    assert_eq!(group_names(&groups), string_set(&["parent1", "parent2"]));
}

#[test]
fn parameter_names_fold_ascii_case() {
    // `Function=` and `FILE=` select the same patterns as their lowercase forms
    let mut parser = sample_analyzer();
    let groups = parser.parse(r#"@filter(Function="parent[12]")"#).unwrap();
    assert_eq!(group_names(&groups), string_set(&["parent1", "parent2"]));

    let mut by_file = sample_analyzer();
    let file_groups = by_file.parse(r#"@filter(FILE="zzz")"#).unwrap();
    assert!(file_groups.is_empty());

    // an unknown parameter name is ignored, leaving the catch-all name filter
    let mut ignored = sample_analyzer();
    let all = ignored.parse(r#"@filter(functions="parent[12]")"#).unwrap();
    assert_eq!(
        group_names(&all),
        string_set(&["parent1", "parent2", "func", "child1", "child2"])
    );
}

#[test]
fn file_filter_rejecting_every_file_resolves_nothing() {
    let mut parser = sample_analyzer();
    let groups = parser.parse(r#"@filter(file="nothing\.cpp")"#).unwrap();
    assert!(groups.is_empty());
}

#[test]
fn forced_marker_connects_unconditionally() {
    // `forced` connects the full cross product, whatever the call index says
    let mut parser = sample_analyzer();
    let groups = parser.parse(r#"@func @forced {@child1}"#).unwrap();
    assert_eq!(group_names(&groups), string_set(&["func"]));
    let graph_output = HashSet::from([("func".to_string(), "child1".to_string())]);
    assert_eq!(edge_set(&parser.graph), graph_output);

    let mut unrelated = sample_analyzer();
    unrelated.parse(r#"@child2 @forced {@child1}"#).unwrap();
    let forced_edge = HashSet::from([("child2".to_string(), "child1".to_string())]);
    assert_eq!(edge_set(&unrelated.graph), forced_edge);
}

#[test]
fn sentinel_depth_never_leaks_into_groups() {
    // nested bodyless scopes around a filter that matches nothing climb
    // instead of resolving, and the sentinel stays out of the answer
    let mut parser = sample_analyzer();
    let groups = parser.parse(r#"{{@filter(function="zzz")}}"#).unwrap();
    assert!(groups.is_empty());
    assert_eq!(parser.graph.node_list().len(), 0);
    assert_eq!(edge_set(&parser.graph), HashSet::new());
}

#[test]
fn invalid_regex_is_a_parse_error() {
    let mut parser = sample_analyzer();
    let r = parser.parse(r#"@filter(function="(")"#);
    assert!(r.is_err());
    // the graph stays untouched
    assert_eq!(parser.graph.node_list().len(), 0);
}

#[test]
fn malformed_query_reports_position() {
    let mut parser = sample_analyzer();
    let r = parser.parse(r#"{@ tar}"#);
    assert_eq!(r.unwrap_err().at, 2);
}

#[test]
fn unconfirmed_scaffolding_is_pruned() {
    // `b` is pulled in only to be tested; once `a` confirms a connection,
    // the unconfirmed group's low-use node is pruned away
    let index_map = vec![FileSymbols {
        path: "m.c".to_string(),
        functions: vec!["p".to_string(), "a".to_string(), "b".to_string()],
    }];
    let fwd = vec![entry("p", &["a"])];
    let inv = vec![entry("a", &["p"])];
    let mut parser = Analyzer::new(ClangdServer::new(index_map, fwd, inv));
    let groups = parser.parse(r#"{@a; @b}"#).unwrap();
    assert_eq!(group_names(&groups), string_set(&["p"]));
    assert_eq!(
        edge_set(&parser.graph),
        HashSet::from([("p".to_string(), "a".to_string())])
    );
    assert!(parser.graph.has_node("a"));
    assert!(!parser.graph.has_node("b"));
}

#[test]
fn ancestor_rounds_climb_from_matched_parents() {
    // a bodyless inner scope raises the sentinel; the extra round confirms
    // the catch-all candidates against the matched parents and climbs up
    let index_map = vec![FileSymbols {
        path: "m.c".to_string(),
        functions: vec!["p".to_string(), "a".to_string(), "b".to_string()],
    }];
    let fwd = vec![entry("p", &["a"]), entry("a", &["p"])];
    let inv = vec![entry("a", &["p"]), entry("p", &["a"])];
    let mut parser = Analyzer::new(ClangdServer::new(index_map, fwd, inv));
    let groups = parser.parse(r#"@p {{}}"#).unwrap();
    assert_eq!(group_names(&groups), string_set(&["p"]));
    assert_eq!(
        edge_set(&parser.graph),
        HashSet::from([
            ("p".to_string(), "a".to_string()),
            ("a".to_string(), "p".to_string()),
        ])
    );
}
