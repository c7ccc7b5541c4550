use std::collections::HashSet;

use graphpath::walk::Adjacency;
use graphpath::{build_graph, AdjacencyMap, NodeSet, PathableGraph};

struct TestPathableGraph {
    graph: AdjacencyMap,
}

impl PathableGraph for TestPathableGraph {
    // The two ghost items serve proofs only and are never run.
    fn adjacency(&self) -> Adjacency {
        unreachable!()
    }

    fn adjacency_is_finite(&self) {}

    fn get_neighbors(&self, node: String) -> Option<&NodeSet> {
        self.graph.get(&node)
    }

    fn contains_node(&self, node: String) -> bool {
        self.graph.contains_key(&node)
    }
}

fn string_edges(edges: &[(&str, &str)]) -> Vec<(String, String)> {
    let mut string_edges = Vec::new();
    for edge in edges {
        string_edges.push((String::from(edge.0), String::from(edge.1)));
    }
    string_edges
}

fn as_hash_set(neighbors: Option<&NodeSet>) -> Option<HashSet<String>> {
    neighbors.map(|set| set.to_vec().into_iter().collect())
}

fn labels(expected: &[&str]) -> Option<HashSet<String>> {
    Some(expected.iter().map(|label| label.to_string()).collect())
}

const LARGE: [(&str, &str); 18] = [
    ("a", "b"),
    ("a", "c"),
    ("b", "c"),
    ("b", "d"),
    ("c", "d"),
    ("d", "e"),
    ("e", "f"),
    ("e", "h"),
    ("f", "g"),
    ("f", "k"),
    ("g", "k"),
    ("g", "h"),
    ("g", "j"),
    ("h", "j"),
    ("h", "i"),
    ("i", "j"),
    ("j", "l"),
    ("k", "l"),
];

#[test]
fn test_build_graph() {
    // build a test graph.
    let edges = vec![("a", "b"), ("a", "c"), ("a", "d"), ("b", "c")];

    let mut string_edges = Vec::new();
    for edge in edges {
        let string_edge = (String::from(edge.0), String::from(edge.1));
        string_edges.push(string_edge);
    }

    // create pathable graph and put our graph on it.
    let graph = build_graph(string_edges);
    let path_graph = TestPathableGraph { graph: graph };

    assert_eq!(
        as_hash_set(path_graph.get_neighbors("a".to_string())),
        labels(&["b", "c", "d"])
    );
    assert_eq!(as_hash_set(path_graph.get_neighbors("b".to_string())), labels(&["a", "c"]));
    assert_eq!(as_hash_set(path_graph.get_neighbors("c".to_string())), labels(&["a", "b"]));
    assert_eq!(as_hash_set(path_graph.get_neighbors("d".to_string())), labels(&["a"]));
}

#[test]
fn neighbor_sets_hold_each_label_once() {
    let graph = build_graph(string_edges(&[("a", "b"), ("a", "c"), ("a", "d"), ("b", "c")]));
    assert_eq!(graph.get(&"a".to_string()).unwrap().len(), 3);
    assert_eq!(graph.get(&"b".to_string()).unwrap().len(), 2);
    assert_eq!(graph.get(&"c".to_string()).unwrap().len(), 2);
    assert_eq!(graph.get(&"d".to_string()).unwrap().len(), 1);
    assert_eq!(graph.len(), 4);
}

#[test]
fn both_ends_of_every_edge_are_neighbors() {
    let graph = build_graph(string_edges(&LARGE));
    for (u, v) in LARGE {
        let (u, v) = (u.to_string(), v.to_string());
        assert!(graph.get(&u).unwrap().contains(&v));
        assert!(graph.get(&v).unwrap().contains(&u));
    }
}

#[test]
fn neighborhood_is_mutual() {
    let graph = build_graph(string_edges(&LARGE));
    for node in "abcdefghijkl".chars() {
        let node = node.to_string();
        for neighbor in graph.get(&node).unwrap().to_vec() {
            assert!(graph.get(&neighbor).unwrap().contains(&node));
        }
    }
}

#[test]
fn known_labels_are_the_mentioned_ones() {
    let graph = build_graph(string_edges(&LARGE));
    assert_eq!(graph.len(), 12);
    for node in "abcdefghijkl".chars() {
        assert!(graph.contains_key(&node.to_string()));
        assert!(graph.contains_node(node.to_string()));
    }
}

#[test]
fn unmentioned_label_has_no_entry() {
    let graph = build_graph(string_edges(&[("a", "b"), ("a", "c"), ("a", "d"), ("b", "c")]));
    assert!(graph.get(&"z".to_string()).is_none());
    assert!(!graph.contains_key(&"z".to_string()));
    assert!(graph.get_neighbors("z".to_string()).is_none());
    assert!(!graph.contains_node("z".to_string()));
    assert!(graph.get_neighbors("".to_string()).is_none());
}

#[test]
fn no_edges_give_the_empty_graph() {
    let graph = build_graph(Vec::new());
    assert_eq!(graph.len(), 0);
    assert!(!graph.contains_key(&"a".to_string()));
    assert!(graph.get(&"a".to_string()).is_none());
}

#[test]
fn self_edge_makes_a_label_its_own_neighbor() {
    let graph = build_graph(string_edges(&[("a", "a")]));
    assert_eq!(graph.len(), 1);
    assert_eq!(as_hash_set(graph.get(&"a".to_string())), labels(&["a"]));
}

#[test]
fn repeated_edges_change_nothing() {
    let graph = build_graph(string_edges(&[("a", "b"), ("b", "a"), ("a", "b")]));
    assert_eq!(graph.len(), 2);
    assert_eq!(graph.get(&"a".to_string()).unwrap().len(), 1);
    assert_eq!(as_hash_set(graph.get(&"a".to_string())), labels(&["b"]));
    assert_eq!(as_hash_set(graph.get(&"b".to_string())), labels(&["a"]));
}

#[test]
fn edge_order_changes_nothing() {
    let forward = build_graph(string_edges(&[("a", "b"), ("a", "c"), ("a", "d"), ("b", "c")]));
    let backward = build_graph(string_edges(&[("c", "b"), ("d", "a"), ("c", "a"), ("b", "a")]));
    assert_eq!(forward.len(), backward.len());
    for node in ["a", "b", "c", "d"] {
        let node = node.to_string();
        assert_eq!(as_hash_set(forward.get(&node)), as_hash_set(backward.get(&node)));
    }
}

#[test]
fn labels_differ_by_their_whole_text() {
    let graph = build_graph(string_edges(&[("a", "ab"), ("A", "a ")]));
    assert_eq!(graph.len(), 4);
    assert_eq!(as_hash_set(graph.get(&"a".to_string())), labels(&["ab"]));
    assert_eq!(as_hash_set(graph.get(&"A".to_string())), labels(&["a "]));
}

#[test]
fn add_neighbor_enters_one_direction_only() {
    let mut graph = AdjacencyMap::new();
    graph.add_neighbor("a".to_string(), "b".to_string());
    assert_eq!(graph.len(), 1);
    assert_eq!(as_hash_set(graph.get(&"a".to_string())), labels(&["b"]));
    assert!(graph.get(&"b".to_string()).is_none());

    graph.add_neighbor("a".to_string(), "c".to_string());
    graph.add_neighbor("a".to_string(), "b".to_string());
    assert_eq!(graph.len(), 1);
    assert_eq!(as_hash_set(graph.get(&"a".to_string())), labels(&["b", "c"]));
}
