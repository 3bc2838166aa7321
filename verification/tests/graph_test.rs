use std::collections::HashSet;

use callquery::graph::{Graph, Node};

fn edge_set(graph: &Graph) -> HashSet<(String, String)> {
    graph.graph_to_tuple().into_iter().collect()
}

fn node_of(graph: &Graph, name: &str) -> Node {
    for node in graph.node_list() {
        if node.name.as_str() == name {
            return Node { name: node.name.clone(), times_used: node.times_used };
        }
    }
    panic!("node not present");
}

#[test]
fn add_node_is_idempotent() {
    let mut g = Graph::new();
    g.add_node("a".to_string(), 1);
    g.add_node("a".to_string(), 5);
    assert_eq!(g.node_list().len(), 1);
    assert_eq!(node_of(&g, "a").times_used, 1);
}

#[test]
fn add_edge_counts_distinct_inbound_edges() {
    let mut g = Graph::new();
    g.add_node("a".to_string(), 1);
    g.add_node("b".to_string(), 1);
    assert!(g.add_edge("a".to_string(), "b".to_string()));
    // a repeated edge neither duplicates nor counts
    assert!(!g.add_edge("a".to_string(), "b".to_string()));
    assert_eq!(node_of(&g, "b").times_used, 2);
    assert_eq!(node_of(&g, "a").times_used, 1);
    assert_eq!(
        edge_set(&g),
        HashSet::from([("a".to_string(), "b".to_string())])
    );
}

#[test]
fn remove_node_cascades_through_low_counts() {
    // a -> b -> c, all inserted with one use: removing a starves b, which
    // starves c
    let mut g = Graph::new();
    g.add_node("a".to_string(), 1);
    g.add_node("b".to_string(), 1);
    g.add_node("c".to_string(), 1);
    g.add_edge("a".to_string(), "b".to_string());
    g.add_edge("b".to_string(), "c".to_string());
    g.remove_node(node_of(&g, "a"));
    assert_eq!(g.node_list().len(), 0);
    assert_eq!(edge_set(&g), HashSet::new());
}

#[test]
fn remove_node_keeps_well_used_successors() {
    // c has two distinct inbound edges, so losing one keeps it alive
    let mut g = Graph::new();
    g.add_node("a".to_string(), 1);
    g.add_node("b".to_string(), 1);
    g.add_node("c".to_string(), 1);
    g.add_edge("a".to_string(), "c".to_string());
    g.add_edge("b".to_string(), "c".to_string());
    g.remove_node(node_of(&g, "a"));
    assert!(g.has_node("b"));
    assert!(g.has_node("c"));
    assert_eq!(node_of(&g, "c").times_used, 2);
    assert_eq!(
        edge_set(&g),
        HashSet::from([("b".to_string(), "c".to_string())])
    );
    // the pruning cascade invariant: whoever remains either kept its old
    // counter or still stands at two or more
    for node in g.node_list() {
        assert!(node.times_used >= 2 || node.times_used == 1);
    }
}

#[test]
fn self_edges_stay_out_of_the_cascade() {
    let mut g = Graph::new();
    g.add_node("s".to_string(), 1);
    g.add_node("t".to_string(), 1);
    g.add_edge("s".to_string(), "s".to_string());
    g.add_edge("s".to_string(), "t".to_string());
    g.remove_node(node_of(&g, "s"));
    assert!(!g.has_node("s"));
    assert!(!g.has_node("t"));
    assert_eq!(edge_set(&g), HashSet::new());
}

#[test]
fn removing_an_absent_node_changes_nothing() {
    let mut g = Graph::new();
    g.add_node("a".to_string(), 1);
    g.remove_node(Node { name: "zzz".to_string(), times_used: 0 });
    assert!(g.has_node("a"));
}
