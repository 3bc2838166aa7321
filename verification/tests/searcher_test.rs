use std::collections::HashSet;

use callquery::searcher::{
    CallEntry, ClangdServer, FileSymbols, ForcedNode, FunctionNode, MatchStrategy,
    ParentChildNode, SearchFilter,
};

fn names(list: &[&str]) -> Vec<String> {
    list.iter().map(|s| s.to_string()).collect()
}

fn entry(key: &str, values: &[&str]) -> CallEntry {
    CallEntry { key: key.to_string(), values: names(values) }
}

fn small_index() -> ClangdServer {
    ClangdServer::new(
        vec![
            FileSymbols { path: "a.c".to_string(), functions: names(&["alpha", "beta"]) },
            FileSymbols { path: "b.cpp".to_string(), functions: names(&["gamma", "alpha"]) },
        ],
        vec![entry("alpha", &["beta", "gamma"]), entry("beta", &["gamma"])],
        vec![entry("beta", &["alpha"]), entry("gamma", &["alpha", "beta"])],
    )
}

fn group(list: &[&str]) -> FunctionNode {
    FunctionNode {
        function_name: names(list),
        document: String::new(),
        match_strategy: MatchStrategy::Confirmed,
    }
}

#[test]
fn forced_match_is_the_full_cross_product() {
    let forced = ForcedNode { function_name: names(&["a", "b"]) };
    let target = group(&["x", "y", "z"]);
    let pairs = forced.do_match(&target);
    // exactly |A| times |B| pairs
    assert_eq!(pairs.len(), 6);
    let set: HashSet<(String, String)> = pairs.into_iter().collect();
    for a in ["a", "b"] {
        for b in ["x", "y", "z"] {
            assert!(set.contains(&(a.to_string(), b.to_string())));
        }
    }
}

#[test]
fn confirmed_match_is_bounded_by_the_call_index() {
    let idx = small_index();
    let strategy = ParentChildNode { function_name: names(&["alpha", "beta"]) };
    let target = group(&["beta", "gamma"]);
    let pairs = strategy.do_match(&target, &idx);
    let set: HashSet<(String, String)> = pairs.into_iter().collect();
    assert_eq!(
        set,
        HashSet::from([
            ("alpha".to_string(), "beta".to_string()),
            ("alpha".to_string(), "gamma".to_string()),
            ("beta".to_string(), "gamma".to_string()),
        ])
    );
    // a subset of the cross product
    for (p, c) in &set {
        assert!(["alpha", "beta"].contains(&p.as_str()));
        assert!(["beta", "gamma"].contains(&c.as_str()));
    }
}

#[test]
fn confirmed_match_direction_does_not_lose_pairs() {
    // more parents than children drives the inverse map instead
    let idx = small_index();
    let wide = ParentChildNode { function_name: names(&["alpha", "beta", "gamma"]) };
    let narrow = group(&["gamma"]);
    let pairs = wide.do_match(&narrow, &idx);
    let set: HashSet<(String, String)> = pairs.into_iter().collect();
    assert_eq!(
        set,
        HashSet::from([
            ("alpha".to_string(), "gamma".to_string()),
            ("beta".to_string(), "gamma".to_string()),
        ])
    );
}

#[test]
fn find_func_name_deduplicates_across_files() {
    let idx = small_index();
    let groups = idx.find_func_name(&vec![SearchFilter::catch_all()]);
    assert_eq!(groups.len(), 1);
    // `alpha` appears in both files but once in the group
    assert_eq!(groups[0].function_name, names(&["alpha", "beta", "gamma"]));
    assert!(matches!(groups[0].match_strategy, MatchStrategy::Confirmed));
}

#[test]
fn find_func_name_exact_identifier() {
    let idx = small_index();
    let filter = SearchFilter {
        function: None,
        file: None,
        ident: Some("gamma".to_string()),
        forced: false,
    };
    let groups = idx.find_func_name(&vec![filter]);
    assert_eq!(groups.len(), 1);
    assert_eq!(groups[0].function_name, names(&["gamma"]));
    assert_eq!(groups[0].document.as_str(), "");
}

#[test]
fn groups_are_equal_by_name_set() {
    let a = group(&["x", "y"]);
    let b = FunctionNode {
        function_name: names(&["y", "x"]),
        document: "not found".to_string(),
        match_strategy: MatchStrategy::Forced,
    };
    let c = group(&["x"]);
    assert!(a == b);
    assert!(a != c);
}

#[test]
fn find_link_ignores_unlisted_names() {
    let idx = small_index();
    let pairs = idx.find_link(&names(&["alpha"]), &names(&["nothing"]));
    assert!(pairs.is_empty());
}
