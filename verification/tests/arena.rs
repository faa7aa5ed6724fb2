use arena_graph::EdgeRef;
use arena_graph::Graph;
use arena_graph::NodeRef;

#[test]
fn empty_graph_has_no_nodes_to_visit_twice() {
    let mut g: Graph<&str, u8> = Graph::empty();
    let a = g.node("a");
    let mut seen = Vec::new();
    g.visit_dfs_nodes(a, |r, n| seen.push((r, *n)));
    assert_eq!(seen, vec![(a, "a")]);
}

#[test]
fn node_handles_are_distinct_and_resolve_to_their_payloads() {
    let mut g: Graph<String, ()> = Graph::empty();
    let a = g.node("first".to_string());
    let b = g.node("second".to_string());
    let c = g.node("third".to_string());
    assert_ne!(a, b);
    assert_ne!(b, c);
    assert_ne!(a, c);
    assert_eq!(g[a], "first");
    assert_eq!(g[b], "second");
    assert_eq!(g[c], "third");
}

#[test]
fn handles_stay_good_after_later_additions() {
    let mut g: Graph<u32, u32> = Graph::empty();
    let a = g.node(10);
    let b = g.node(20);
    let e = g.directed_edge(a, b, 7);
    let mut later_nodes = Vec::new();
    for i in 0..100u32 {
        let n = g.node(1000 + i);
        g.directed_edge(a, n, i);
        g.directed_edge(n, b, i + 1);
        later_nodes.push(n);
    }
    assert_eq!(g[a], 10);
    assert_eq!(g[b], 20);
    assert_eq!(g[e], 7);
    for (i, n) in later_nodes.iter().enumerate() {
        assert_eq!(g[*n], 1000 + i as u32);
    }
}

#[test]
fn payloads_can_be_replaced_through_a_handle() {
    let mut g: Graph<i64, i64> = Graph::empty();
    let a = g.node(1);
    let b = g.node(2);
    let e = g.directed_edge(a, b, 3);
    g[a] = -1;
    g[e] = 30;
    assert_eq!(g[a], -1);
    assert_eq!(g[b], 2);
    assert_eq!(g[e], 30);
}

#[test]
fn adjacency_lists_every_edge_once_under_its_source() {
    let mut g: Graph<u8, char> = Graph::empty();
    let a = g.node(0);
    let b = g.node(1);
    let c = g.node(2);
    let ab = g.directed_edge(a, b, 'x');
    let ac = g.directed_edge(a, c, 'y');
    let bc = g.directed_edge(b, c, 'z');
    let ca = g.directed_edge(c, a, 'w');
    let mut from_a = Vec::new();
    g.visit_bfs(a, |_, _| (), |e, p| from_a.push((e, *p)));
    assert_eq!(from_a, vec![(ab, 'x'), (ac, 'y'), (bc, 'z'), (ca, 'w')]);
    let mut count = std::collections::HashMap::new();
    g.visit_dfs_edges(a, |e, _| *count.entry(e).or_insert(0usize) += 1);
    assert_eq!(count.len(), 4);
    assert!(count.values().all(|&k| k == 1));
}

#[test]
fn self_loops_and_parallel_edges_are_kept() {
    let mut g: Graph<(), u8> = Graph::empty();
    let a = g.node(());
    let b = g.node(());
    let l = g.directed_edge(a, a, 1);
    let p = g.directed_edge(a, b, 2);
    let q = g.directed_edge(a, b, 3);
    assert_ne!(p, q);
    let mut edges = Vec::new();
    g.visit_dfs_edges(a, |e, w| edges.push((e, *w)));
    assert_eq!(edges, vec![(l, 1), (p, 2), (q, 3)]);
}

#[test]
fn undirected_edge_is_two_mirrored_edges() {
    let mut g: Graph<char, String> = Graph::empty();
    let a = g.node('a');
    let b = g.node('b');
    let [e1, e2] = g.undirected_edge(a, b, "road".to_string());
    assert_ne!(e1, e2);
    assert_eq!(g[e1], "road");
    assert_eq!(g[e2], "road");
    let mut out_of_a: Vec<EdgeRef> = Vec::new();
    let mut nodes_from_a: Vec<NodeRef> = Vec::new();
    g.visit_bfs(a, |n, _| nodes_from_a.push(n), |e, _| out_of_a.push(e));
    assert_eq!(nodes_from_a, vec![a, b]);
    assert_eq!(out_of_a, vec![e1, e2]);
    let mut out_of_b: Vec<EdgeRef> = Vec::new();
    g.visit_bfs_edges(b, |e, _| out_of_b.push(e));
    assert_eq!(out_of_b, vec![e2, e1]);
}

#[test]
fn halves_of_an_undirected_edge_hold_separate_payloads() {
    let mut g: Graph<(), Vec<u8>> = Graph::empty();
    let a = g.node(());
    let b = g.node(());
    let [e1, e2] = g.undirected_edge(a, b, vec![1, 2, 3]);
    g[e1].push(4);
    assert_eq!(g[e1], vec![1, 2, 3, 4]);
    assert_eq!(g[e2], vec![1, 2, 3]);
    g[e2] = vec![];
    assert_eq!(g[e1], vec![1, 2, 3, 4]);
}

#[test]
fn handles_can_key_a_hash_map() {
    let mut g: Graph<u8, u8> = Graph::empty();
    let a = g.node(1);
    let b = g.node(2);
    let e = g.directed_edge(a, b, 9);
    let mut names = std::collections::HashMap::new();
    names.insert(a, "a");
    names.insert(b, "b");
    let mut edges = std::collections::HashSet::new();
    edges.insert(e);
    assert_eq!(names[&a], "a");
    assert_eq!(names[&b], "b");
    assert!(edges.contains(&e));
    let copy = a;
    assert_eq!(copy, a);
}

#[test]
fn default_graph_is_the_empty_graph() {
    let mut g: Graph<u8, u8> = Graph::default();
    let a = g.node(5);
    let mut h: Graph<u8, u8> = Graph::empty();
    let b = h.node(5);
    assert_eq!(a, b);
    assert_eq!(g[a], h[b]);
    let mut nodes = 0;
    g.visit_bfs_nodes(a, |_, _| nodes += 1);
    assert_eq!(nodes, 1);
}
