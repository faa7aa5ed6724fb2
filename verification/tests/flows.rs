use arena_graph::FlowError;
use arena_graph::Graph;
use arena_graph::NodeRef;

#[test]
fn chain_is_limited_by_its_narrowest_edge() {
    let mut g: Graph<&str, i32> = Graph::empty();
    let a = g.node("A");
    let b = g.node("B");
    let c = g.node("C");
    g.directed_edge(a, b, 3);
    g.directed_edge(b, c, 2);
    assert_eq!(g.max_flow(a, c), Ok(2));
}

#[test]
fn nothing_flows_between_disconnected_nodes() {
    let mut g: Graph<&str, i32> = Graph::empty();
    let a = g.node("A");
    let b = g.node("B");
    assert_eq!(g.max_flow(a, b), Ok(0));
}

#[test]
fn parallel_edges_add_up() {
    let mut g: Graph<&str, i32> = Graph::empty();
    let a = g.node("A");
    let b = g.node("B");
    g.directed_edge(a, b, 1);
    g.directed_edge(a, b, 1);
    assert_eq!(g.max_flow(a, b), Ok(2));
}

#[test]
fn diamond_carries_both_branches() {
    let mut g: Graph<&str, i32> = Graph::empty();
    let a = g.node("A");
    let b = g.node("B");
    let c = g.node("C");
    let d = g.node("D");
    g.directed_edge(a, b, 1);
    g.directed_edge(a, c, 1);
    g.directed_edge(b, d, 1);
    g.directed_edge(c, d, 1);
    assert_eq!(g.max_flow(a, d), Ok(2));
}

#[test]
fn nothing_flows_from_a_node_to_itself() {
    let mut g: Graph<(), i32> = Graph::empty();
    let a = g.node(());
    let b = g.node(());
    g.directed_edge(a, b, 5);
    g.directed_edge(b, a, 5);
    g.directed_edge(a, a, 9);
    assert_eq!(g.max_flow(a, a), Ok(0));
    assert_eq!(g.min_cut(a, a), Ok(0));
}

#[test]
fn nothing_flows_against_the_edges() {
    let mut g: Graph<(), i32> = Graph::empty();
    let a = g.node(());
    let b = g.node(());
    g.directed_edge(a, b, 5);
    assert_eq!(g.max_flow(b, a), Ok(0));
    assert_eq!(g.max_flow(a, b), Ok(5));
}

#[test]
fn negative_capacity_is_refused() {
    let mut g: Graph<(), i32> = Graph::empty();
    let a = g.node(());
    let b = g.node(());
    let c = g.node(());
    g.directed_edge(a, b, 4);
    g.directed_edge(b, c, -1);
    assert_eq!(g.max_flow(a, b), Err(FlowError::NegativeCapacity));
    assert_eq!(g.max_flow(a, a), Err(FlowError::NegativeCapacity));
    assert_eq!(g.min_cut(a, c), Err(FlowError::NegativeCapacity));
}

#[test]
fn a_value_beyond_i32_is_refused() {
    let mut g: Graph<(), i32> = Graph::empty();
    let a = g.node(());
    let b = g.node(());
    g.directed_edge(a, b, i32::MAX);
    assert_eq!(g.max_flow(a, b), Ok(i32::MAX));
    g.directed_edge(a, b, 1);
    assert_eq!(g.max_flow(a, b), Err(FlowError::ValueTooLarge));
    assert_eq!(g.min_cut(a, b), Err(FlowError::ValueTooLarge));
}

#[test]
fn zero_capacity_edges_carry_nothing() {
    let mut g: Graph<(), i32> = Graph::empty();
    let a = g.node(());
    let b = g.node(());
    let c = g.node(());
    g.directed_edge(a, b, 0);
    g.directed_edge(b, c, 7);
    g.directed_edge(a, c, 3);
    assert_eq!(g.max_flow(a, c), Ok(3));
}

#[test]
fn flow_is_taken_back_where_a_better_route_needs_the_edge() {
    // The shortest path s-a-b-t fills a->b. The greatest flow does not use
    // that edge at all: s-a-d-t and s-c-b-t.
    let mut g: Graph<&str, i32> = Graph::empty();
    let s = g.node("s");
    let a = g.node("a");
    let b = g.node("b");
    let t = g.node("t");
    let c = g.node("c");
    let c2 = g.node("c2");
    let d = g.node("d");
    let d2 = g.node("d2");
    g.directed_edge(s, a, 1);
    g.directed_edge(a, b, 1);
    g.directed_edge(b, t, 1);
    g.directed_edge(s, c, 1);
    g.directed_edge(c, c2, 1);
    g.directed_edge(c2, b, 1);
    g.directed_edge(a, d, 1);
    g.directed_edge(d, d2, 1);
    g.directed_edge(d2, t, 1);
    assert_eq!(g.max_flow(s, t), Ok(2));
}

#[test]
fn textbook_network() {
    let mut g: Graph<usize, i32> = Graph::empty();
    let n: Vec<NodeRef> = (0..6).map(|i| g.node(i)).collect();
    for (u, v, c) in [
        (0, 1, 16),
        (0, 2, 13),
        (1, 2, 10),
        (2, 1, 4),
        (1, 3, 12),
        (3, 2, 9),
        (2, 4, 14),
        (4, 3, 7),
        (3, 5, 20),
        (4, 5, 4),
    ] {
        g.directed_edge(n[u], n[v], c);
    }
    assert_eq!(g.max_flow(n[0], n[5]), Ok(23));
    assert_eq!(g.min_cut(n[0], n[5]), Ok(23));
    assert_eq!(g.max_flow(n[5], n[0]), Ok(0));
    assert_eq!(g.max_flow(n[1], n[4]), Ok(14));
}

#[test]
fn min_cut_is_max_flow() {
    let mut g: Graph<(), i32> = Graph::empty();
    let n: Vec<NodeRef> = (0..8).map(|_| g.node(())).collect();
    let mut seed = 12345u32;
    for _ in 0..30 {
        seed = seed.wrapping_mul(1103515245).wrapping_add(12345);
        let u = (seed >> 16) as usize % 8;
        seed = seed.wrapping_mul(1103515245).wrapping_add(12345);
        let v = (seed >> 16) as usize % 8;
        seed = seed.wrapping_mul(1103515245).wrapping_add(12345);
        let c = ((seed >> 16) % 20) as i32;
        g.directed_edge(n[u], n[v], c);
    }
    for &s in &n {
        for &t in &n {
            assert_eq!(g.min_cut(s, t), g.max_flow(s, t));
        }
    }
}

#[test]
fn flow_stays_within_what_leaves_the_source_and_enters_the_sink() {
    let mut g: Graph<(), i32> = Graph::empty();
    let s = g.node(());
    let m = g.node(());
    let t = g.node(());
    g.directed_edge(s, m, 4);
    g.directed_edge(s, m, 5);
    g.directed_edge(m, t, 100);
    g.directed_edge(s, t, 2);
    g.directed_edge(t, s, 50);
    let v = g.max_flow(s, t).unwrap();
    assert_eq!(v, 11);
    assert!(v >= 0);
    assert!(v <= 4 + 5 + 2);
    assert!(v <= 100 + 2);
}

#[test]
fn solving_leaves_the_capacities_alone() {
    let mut g: Graph<(), i32> = Graph::empty();
    let a = g.node(());
    let b = g.node(());
    let c = g.node(());
    let ab = g.directed_edge(a, b, 3);
    let bc = g.directed_edge(b, c, 2);
    assert_eq!(g.max_flow(a, c), Ok(2));
    assert_eq!(g[ab], 3);
    assert_eq!(g[bc], 2);
    assert_eq!(g.max_flow(a, c), Ok(2));
    g[bc] = 10;
    assert_eq!(g.max_flow(a, c), Ok(3));
}

#[test]
fn undirected_edges_carry_flow_either_way() {
    let mut g: Graph<(), i32> = Graph::empty();
    let a = g.node(());
    let b = g.node(());
    let c = g.node(());
    g.undirected_edge(a, b, 4);
    g.undirected_edge(b, c, 6);
    assert_eq!(g.max_flow(a, c), Ok(4));
    assert_eq!(g.max_flow(c, a), Ok(4));
    assert_eq!(g.max_flow(c, b), Ok(6));
}
