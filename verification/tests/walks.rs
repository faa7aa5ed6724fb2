use arena_graph::EdgeRef;
use arena_graph::Graph;
use arena_graph::NodeRef;

#[derive(Debug, PartialEq, Eq, Clone, Copy)]
enum Seen {
    Node(char),
    Edge(u32),
}

/// a -> b, a -> c, b -> d, c -> d, d -> a, and e on its own.
fn sample() -> (Graph<char, u32>, Vec<NodeRef>, Vec<EdgeRef>) {
    let mut g = Graph::empty();
    let a = g.node('a');
    let b = g.node('b');
    let c = g.node('c');
    let d = g.node('d');
    let e = g.node('e');
    let ab = g.directed_edge(a, b, 1);
    let ac = g.directed_edge(a, c, 2);
    let bd = g.directed_edge(b, d, 3);
    let cd = g.directed_edge(c, d, 4);
    let da = g.directed_edge(d, a, 5);
    (g, vec![a, b, c, d, e], vec![ab, ac, bd, cd, da])
}

#[test]
fn dfs_calls_both_visitors_in_walk_order() {
    let (g, n, _) = sample();
    let log = std::cell::RefCell::new(Vec::new());
    g.visit_dfs(
        n[0],
        |_, p| log.borrow_mut().push(Seen::Node(*p)),
        |_, p| log.borrow_mut().push(Seen::Edge(*p)),
    );
    assert_eq!(
        log.into_inner(),
        vec![
            Seen::Node('a'),
            Seen::Edge(1),
            Seen::Node('b'),
            Seen::Edge(3),
            Seen::Node('d'),
            Seen::Edge(5),
            Seen::Edge(2),
            Seen::Node('c'),
            Seen::Edge(4),
        ]
    );
}

#[test]
fn bfs_calls_both_visitors_in_walk_order() {
    let (g, n, _) = sample();
    let log = std::cell::RefCell::new(Vec::new());
    g.visit_bfs(
        n[0],
        |_, p| log.borrow_mut().push(Seen::Node(*p)),
        |_, p| log.borrow_mut().push(Seen::Edge(*p)),
    );
    assert_eq!(
        log.into_inner(),
        vec![
            Seen::Node('a'),
            Seen::Edge(1),
            Seen::Edge(2),
            Seen::Node('b'),
            Seen::Edge(3),
            Seen::Node('c'),
            Seen::Edge(4),
            Seen::Node('d'),
            Seen::Edge(5),
        ]
    );
}

#[test]
fn dfs_visits_each_reachable_node_once() {
    let (g, n, _) = sample();
    let mut seen = Vec::new();
    g.visit_dfs_nodes(n[0], |r, _| seen.push(r));
    assert_eq!(seen, vec![n[0], n[1], n[3], n[2]]);
}

#[test]
fn dfs_never_visits_what_cannot_be_reached() {
    let (g, n, _) = sample();
    let mut seen = Vec::new();
    g.visit_dfs_nodes(n[0], |r, _| seen.push(r));
    assert!(!seen.contains(&n[4]));
    let mut alone = Vec::new();
    g.visit_dfs_nodes(n[4], |r, p| alone.push((r, *p)));
    assert_eq!(alone, vec![(n[4], 'e')]);
    let mut edges = Vec::new();
    g.visit_dfs_edges(n[4], |r, _| edges.push(r));
    assert!(edges.is_empty());
}

#[test]
fn dfs_hands_the_visitor_the_payload_of_the_handle() {
    let (g, n, e) = sample();
    g.visit_dfs(n[2], |r, p| assert_eq!(g[r], *p), |r, p| assert_eq!(g[r], *p));
    let mut edges = Vec::new();
    g.visit_dfs_edges(n[2], |r, _| edges.push(r));
    assert_eq!(edges, vec![e[3], e[4], e[0], e[2], e[1]]);
}

#[test]
fn dfs_visits_an_edge_to_a_node_already_seen() {
    let mut g: Graph<u8, u8> = Graph::empty();
    let a = g.node(0);
    let b = g.node(1);
    let ab = g.directed_edge(a, b, 0);
    let ba = g.directed_edge(b, a, 1);
    let aa = g.directed_edge(a, a, 2);
    let mut edges = Vec::new();
    g.visit_dfs_edges(a, |r, _| edges.push(r));
    assert_eq!(edges, vec![ab, ba, aa]);
    let mut nodes = Vec::new();
    g.visit_dfs_nodes(a, |r, _| nodes.push(r));
    assert_eq!(nodes, vec![a, b]);
}

#[test]
fn dfs_walks_a_long_chain() {
    let mut g: Graph<usize, ()> = Graph::empty();
    let len = 200_000;
    let first = g.node(0);
    let mut last = first;
    for i in 1..len {
        let next = g.node(i);
        g.directed_edge(last, next, ());
        last = next;
    }
    let mut count = 0usize;
    let mut in_order = true;
    g.visit_dfs_nodes(first, |_, p| {
        in_order &= *p == count;
        count += 1;
    });
    assert_eq!(count, len);
    assert!(in_order);
}

#[test]
fn bfs_visits_nodes_layer_by_layer() {
    let mut g: Graph<u32, ()> = Graph::empty();
    let root = g.node(0);
    let far = g.node(2);
    let x = g.node(1);
    let y = g.node(1);
    let z = g.node(2);
    g.directed_edge(root, x, ());
    g.directed_edge(x, z, ());
    g.directed_edge(z, far, ());
    g.directed_edge(root, y, ());
    g.directed_edge(y, far, ());
    g.directed_edge(y, z, ());
    let mut order = Vec::new();
    let mut layers = Vec::new();
    g.visit_bfs_nodes(root, |r, p| {
        order.push(r);
        layers.push(*p);
    });
    assert_eq!(order, vec![root, x, y, z, far]);
    assert_eq!(layers, vec![0, 1, 1, 2, 2]);
}

#[test]
fn bfs_distance_never_falls() {
    // The layer of a node is its payload: node i of a ring with chords.
    let mut g: Graph<usize, ()> = Graph::empty();
    let n = 50usize;
    let nodes: Vec<NodeRef> = (0..n).map(|i| g.node(i)).collect();
    for i in 0..n {
        g.directed_edge(nodes[i], nodes[(i + 1) % n], ());
        g.directed_edge(nodes[i], nodes[(i * 7 + 3) % n], ());
    }
    let mut dist = vec![usize::MAX; n];
    dist[0] = 0;
    let mut changed = true;
    while changed {
        changed = false;
        for i in 0..n {
            if dist[i] == usize::MAX {
                continue;
            }
            for j in [(i + 1) % n, (i * 7 + 3) % n] {
                if dist[i] + 1 < dist[j] {
                    dist[j] = dist[i] + 1;
                    changed = true;
                }
            }
        }
    }
    let mut seen = Vec::new();
    g.visit_bfs_nodes(nodes[0], |_, p| seen.push(*p));
    assert_eq!(seen.len(), n);
    for pair in seen.windows(2) {
        assert!(dist[pair[0]] <= dist[pair[1]]);
    }
    let mut sorted = seen.clone();
    sorted.sort();
    sorted.dedup();
    assert_eq!(sorted.len(), n);
}

#[test]
fn bfs_visits_each_reachable_node_once_and_no_other() {
    let (g, n, e) = sample();
    let mut seen = Vec::new();
    g.visit_bfs_nodes(n[0], |r, _| seen.push(r));
    assert_eq!(seen, vec![n[0], n[1], n[2], n[3]]);
    let mut edges = Vec::new();
    g.visit_bfs_edges(n[0], |r, _| edges.push(r));
    assert_eq!(edges, e);
    let mut alone = Vec::new();
    g.visit_bfs_nodes(n[4], |r, _| alone.push(r));
    assert_eq!(alone, vec![n[4]]);
}

#[test]
fn bfs_visits_the_edges_of_a_node_once_though_it_is_queued_twice() {
    let mut g: Graph<u8, u8> = Graph::empty();
    let a = g.node(0);
    let b = g.node(1);
    let c = g.node(2);
    let ab = g.directed_edge(a, b, 0);
    let ab2 = g.directed_edge(a, b, 1);
    let bc = g.directed_edge(b, c, 2);
    let mut edges = Vec::new();
    g.visit_bfs_edges(a, |r, _| edges.push(r));
    assert_eq!(edges, vec![ab, ab2, bc]);
}

#[test]
fn a_visitor_can_stop_listening() {
    let (g, n, _) = sample();
    let mut seen = Vec::new();
    let mut done = false;
    g.visit_bfs_nodes(n[0], |_, p| {
        if !done {
            seen.push(*p);
            done = *p == 'b';
        }
    });
    assert_eq!(seen, vec!['a', 'b']);
}

#[test]
fn bfs_hands_the_visitor_each_node_with_its_payload_nearest_first() {
    let mut g: Graph<u8, u8> = Graph::empty();
    let a = g.node(1);
    let b = g.node(2);
    let c = g.node(3);
    let d = g.node(4);
    g.directed_edge(a, b, 0);
    g.directed_edge(b, c, 0);
    g.directed_edge(a, d, 0);
    let mut calls = Vec::new();
    g.visit_bfs_nodes(a, |r, p| calls.push((r, *p)));
    assert_eq!(calls, vec![(a, 1), (b, 2), (d, 4), (c, 3)]);
    let mut deep = Vec::new();
    g.visit_dfs_nodes(a, |r, p| deep.push((r, *p)));
    assert_eq!(deep, vec![(a, 1), (b, 2), (c, 3), (d, 4)]);
}

#[test]
fn every_walk_calls_its_visitor_once_for_each_item_it_records() {
    let (g, n, e) = sample();
    let (mut dfs_nodes, mut dfs_edges) = (0usize, 0usize);
    g.visit_dfs(n[0], |_, _| dfs_nodes += 1, |_, _| dfs_edges += 1);
    assert_eq!((dfs_nodes, dfs_edges), (4, e.len()));
    let (mut bfs_nodes, mut bfs_edges) = (0usize, 0usize);
    g.visit_bfs(n[0], |_, _| bfs_nodes += 1, |_, _| bfs_edges += 1);
    assert_eq!((bfs_nodes, bfs_edges), (4, e.len()));
    let mut only_nodes = [0usize; 2];
    g.visit_dfs_nodes(n[0], |_, _| only_nodes[0] += 1);
    g.visit_bfs_nodes(n[0], |_, _| only_nodes[1] += 1);
    assert_eq!(only_nodes, [4, 4]);
    let mut only_edges = [0usize; 2];
    g.visit_dfs_edges(n[0], |_, _| only_edges[0] += 1);
    g.visit_bfs_edges(n[0], |_, _| only_edges[1] += 1);
    assert_eq!(only_edges, [e.len(), e.len()]);
}
