use utils::graph::{Graph, Node, NodeID, INFINITY, UNIT};

fn collect(graph: &Graph<String>) -> Vec<(NodeID, String)> {
    let mut seen = Vec::new();
    let mut entries = graph.iter();
    while let Some((id, node)) = entries.next() {
        seen.push((id, node.value.clone()));
    }
    seen.sort();
    seen
}

#[test]
fn handles_are_issued_in_order_from_zero() {
    let mut graph: Graph<u32> = Graph::new();
    assert_eq!(graph.insert(Node::new(10u32)), NodeID::from(0));
    assert_eq!(graph.insert(Node::new(20u32)), NodeID::from(1));
    assert_eq!(graph.insert(Node::new(30u32)), NodeID::from(2));
    assert_eq!(graph.get_node(&NodeID::from(1)).unwrap().value, 20);
}

#[test]
fn handles_are_ordered_and_comparable() {
    assert!(NodeID::from(1) < NodeID::from(2));
    assert_eq!(NodeID::from(7), NodeID(7));
    assert_ne!(NodeID::from(7), NodeID::from(8));
}

#[test]
fn node_new_converts_its_argument() {
    let node: Node<String> = Node::new("Home");
    assert_eq!(node.value, "Home");
    let wide: Node<u64> = Node::new(5u32);
    assert_eq!(wide.value, 5);
    let same: Node<u64> = Node::new(9u64);
    assert_eq!(same.value, 9);
}

#[test]
fn node_default_and_from() {
    let empty: Node<String> = Node::default();
    assert_eq!(empty.value, "");
    let node: Node<i32> = Node::from(4);
    assert_eq!(node.value, 4);
    let into: Node<i32> = 4.into();
    assert_eq!(into.value, 4);
}

#[test]
fn default_graph_is_empty() {
    let mut graph: Graph<String> = Graph::default();
    assert!(collect(&graph).is_empty());
    assert_eq!(graph.insert(Node::new("a")), NodeID::from(0));
}

#[test]
fn unknown_handles_yield_nothing() {
    let mut graph: Graph<u8> = Graph::new();
    graph.insert(Node::new(1u8));
    assert!(graph.get_node(&NodeID::from(1)).is_none());
    assert!(graph.get_node(&NodeID::from(-1)).is_none());
    assert!(graph.get_node_mut(&NodeID::from(1)).is_none());
    assert!(graph.get_node(&NodeID::from(0)).is_some());
}

#[test]
fn node_values_change_in_place() {
    let mut graph: Graph<String> = Graph::new();
    let a = graph.insert(Node::new("a"));
    let b = graph.insert(Node::new("b"));
    graph.get_node_mut(&a).unwrap().value = "changed".to_string();
    assert_eq!(graph.get_node(&a).unwrap().value, "changed");
    assert_eq!(graph.get_node(&b).unwrap().value, "b");
    assert_eq!(graph.insert(Node::new("c")), NodeID::from(2));
}

#[test]
fn distance_to_itself_is_zero() {
    let mut graph: Graph<u8> = Graph::new();
    let a = graph.insert(Node::new(1u8));
    let b = graph.insert(Node::new(2u8));
    graph.connect(a, b, 4 * UNIT);
    graph.connect(b, a, 4 * UNIT);
    graph.connect(a, a, 9 * UNIT);
    assert_eq!(graph.shortest_distance(a, a), 0);
    assert_eq!(graph.shortest_distance(b, b), 0);
    assert_eq!(graph.shortest_distance(NodeID::from(40), NodeID::from(40)), 0);
}

#[test]
fn unreachable_nodes_are_infinitely_far() {
    let mut graph: Graph<u8> = Graph::new();
    let a = graph.insert(Node::new(1u8));
    let b = graph.insert(Node::new(2u8));
    let c = graph.insert(Node::new(3u8));
    graph.connect(a, b, UNIT);
    assert_eq!(graph.shortest_distance(a, b), UNIT);
    assert_eq!(graph.shortest_distance(b, a), INFINITY);
    assert_eq!(graph.shortest_distance(a, c), INFINITY);
    assert_eq!(graph.shortest_distance(c, b), INFINITY);
    assert_eq!(INFINITY, u64::MAX);
}

#[test]
fn two_way_connection_is_two_one_way_connections() {
    let mut both: Graph<u8> = Graph::new();
    let mut single: Graph<u8> = Graph::new();
    let mut ids = Vec::new();
    for value in 0..4u8 {
        ids.push(both.insert(Node::new(value)));
        single.insert(Node::new(value));
    }
    both.connect_bidirectionally(ids[0], ids[1], 3);
    single.connect(ids[0], ids[1], 3);
    single.connect(ids[1], ids[0], 3);
    both.connect_bidirectionally(ids[1], ids[2], 5);
    single.connect(ids[1], ids[2], 5);
    single.connect(ids[2], ids[1], 5);
    both.connect(ids[3], ids[0], 1);
    single.connect(ids[3], ids[0], 1);
    for from in &ids {
        for to in &ids {
            assert_eq!(both.shortest_distance(*from, *to), single.shortest_distance(*from, *to));
        }
    }
    assert_eq!(both.shortest_distance(ids[0], ids[2]), 8);
    assert_eq!(both.shortest_distance(ids[2], ids[0]), 8);
    assert_eq!(both.shortest_distance(ids[3], ids[2]), 9);
    assert_eq!(both.shortest_distance(ids[2], ids[3]), INFINITY);
}

#[test]
fn parallel_edges_each_count() {
    let mut graph: Graph<u8> = Graph::new();
    let a = graph.insert(Node::new(1u8));
    let b = graph.insert(Node::new(2u8));
    graph.connect(a, b, 9);
    graph.connect(a, b, 4);
    graph.connect(a, b, 6);
    assert_eq!(graph.shortest_distance(a, b), 4);
}

#[test]
fn detour_over_many_nodes_beats_a_heavy_edge() {
    let mut graph: Graph<usize> = Graph::new();
    let mut ids = Vec::new();
    for i in 0..50usize {
        ids.push(graph.insert(Node::new(i)));
    }
    for i in 0..49 {
        graph.connect(ids[i], ids[i + 1], 2);
    }
    graph.connect(ids[0], ids[49], 100);
    graph.connect(ids[0], ids[25], 49);
    assert_eq!(graph.shortest_distance(ids[0], ids[49]), 97);
    assert_eq!(graph.shortest_distance(ids[0], ids[25]), 49);
    assert_eq!(graph.shortest_distance(ids[0], ids[24]), 48);
    assert_eq!(graph.shortest_distance(ids[49], ids[0]), INFINITY);
}

#[test]
fn edges_of_weight_zero_are_free() {
    let mut graph: Graph<u8> = Graph::new();
    let a = graph.insert(Node::new(1u8));
    let b = graph.insert(Node::new(2u8));
    let c = graph.insert(Node::new(3u8));
    graph.connect(a, b, 0);
    graph.connect(b, c, 0);
    graph.connect(c, a, 0);
    assert_eq!(graph.shortest_distance(a, c), 0);
    assert_eq!(graph.shortest_distance(c, b), 0);
}

#[test]
fn sums_stop_at_infinity() {
    let mut graph: Graph<u8> = Graph::new();
    let a = graph.insert(Node::new(1u8));
    let b = graph.insert(Node::new(2u8));
    let c = graph.insert(Node::new(3u8));
    graph.connect(a, b, u64::MAX - 1);
    graph.connect(b, c, 1);
    assert_eq!(graph.shortest_distance(a, b), u64::MAX - 1);
    assert_eq!(graph.shortest_distance(a, c), INFINITY);
    graph.connect(a, c, u64::MAX);
    assert_eq!(graph.shortest_distance(a, c), INFINITY);
    graph.connect(a, c, u64::MAX - 2);
    assert_eq!(graph.shortest_distance(a, c), u64::MAX - 2);
}

#[test]
fn edges_between_unknown_handles_are_harmless() {
    let mut graph: Graph<u8> = Graph::new();
    let a = graph.insert(Node::new(1u8));
    let b = graph.insert(Node::new(2u8));
    graph.connect(NodeID::from(70), NodeID::from(71), 1);
    graph.connect(a, NodeID::from(70), 1);
    assert_eq!(graph.shortest_distance(a, b), INFINITY);
    assert_eq!(graph.shortest_distance(a, NodeID::from(71)), 2);
}

#[test]
fn walking_twice_meets_the_same_nodes() {
    let mut graph: Graph<String> = Graph::new();
    graph.insert(Node::new("x"));
    graph.insert(Node::new("y"));
    graph.insert(Node::new("z"));
    let first = collect(&graph);
    let second = collect(&graph);
    assert_eq!(first, second);
    assert_eq!(
        first,
        vec![
            (NodeID::from(0), "x".to_string()),
            (NodeID::from(1), "y".to_string()),
            (NodeID::from(2), "z".to_string()),
        ]
    );
}

#[test]
fn walking_an_empty_graph_ends_at_once() {
    let graph: Graph<String> = Graph::new();
    let mut entries = graph.iter();
    assert!(entries.next().is_none());
    assert!(entries.next().is_none());
}

#[test]
fn the_search_agrees_with_trying_every_detour() {
    let mut seed: u64 = 0x2545_f491_4f6c_dd1d;
    let mut next = move |bound: u64| {
        seed = seed.wrapping_mul(6364136223846793005).wrapping_add(1442695040888963407);
        (seed >> 33) % bound
    };
    for _ in 0..40 {
        let nodes = 2 + next(7) as usize;
        let edges = next(20) as usize;
        let mut graph: Graph<usize> = Graph::new();
        let mut ids = Vec::new();
        for i in 0..nodes {
            ids.push(graph.insert(Node::new(i)));
        }
        let mut best = vec![vec![INFINITY; nodes]; nodes];
        for (i, row) in best.iter_mut().enumerate() {
            row[i] = 0;
        }
        for _ in 0..edges {
            let from = next(nodes as u64) as usize;
            let to = next(nodes as u64) as usize;
            let weight = next(50);
            if next(4) == 0 {
                graph.connect_bidirectionally(ids[from], ids[to], weight);
                best[to][from] = best[to][from].min(weight);
            } else {
                graph.connect(ids[from], ids[to], weight);
            }
            best[from][to] = best[from][to].min(weight);
        }
        for via in 0..nodes {
            for from in 0..nodes {
                for to in 0..nodes {
                    let detour = best[from][via].saturating_add(best[via][to]);
                    if detour < best[from][to] {
                        best[from][to] = detour;
                    }
                }
            }
        }
        for from in 0..nodes {
            for to in 0..nodes {
                assert_eq!(graph.shortest_distance(ids[from], ids[to]), best[from][to]);
            }
        }
    }
}
