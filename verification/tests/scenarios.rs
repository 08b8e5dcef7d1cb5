use utils::error::GraphError;
use utils::graph;
use utils::graph::{NodeID, INFINITY, UNIT};

#[test]
fn structured_definition_prefers_the_cheaper_detour() {
    let built = graph(
        "nodes: { a = 1; b = 2; c = 3; } connections: { a -> b: 2.0; b -> c: 3.0; a <-> c: 10.0; }",
    )
    .unwrap();
    let a = NodeID::from(0);
    let c = NodeID::from(2);
    assert_eq!(built.shortest_distance(a, c), 5 * UNIT);
    assert_eq!(built.shortest_distance(a, c) as f64 / UNIT as f64, 5.0);
    assert_ne!(built.shortest_distance(a, c), 10 * UNIT);
    assert_eq!(built.shortest_distance(c, a), 10 * UNIT);
    assert_eq!(built.shortest_distance(c, a) as f64 / UNIT as f64, 10.0);
}

#[test]
fn flat_definition_has_two_nodes_and_no_edges() {
    let built = graph("a = \"x\", b = \"y\"").unwrap();
    let entries: Vec<(NodeID, String)> = {
        let mut seen = Vec::new();
        let mut walk = built.iter();
        while let Some((id, node)) = walk.next() {
            seen.push((id, node.value.clone()));
        }
        seen
    };
    assert_eq!(entries.len(), 2);
    assert_eq!(built.get_node(&NodeID::from(0)).unwrap().value, "\"x\"");
    assert_eq!(built.get_node(&NodeID::from(1)).unwrap().value, "\"y\"");
    assert!(built.get_node(&NodeID::from(2)).is_none());
    assert_eq!(built.shortest_distance(NodeID::from(0), NodeID::from(1)), INFINITY);
    assert_eq!(built.shortest_distance(NodeID::from(1), NodeID::from(0)), INFINITY);
}

#[test]
fn undeclared_name_in_connections_yields_no_graph() {
    let result = graph("nodes: { a = 1; b = 2; } connections: { a -> b; a -> z: 1.5; }");
    match result {
        Err(GraphError::UndefinedNode { name, at }) => {
            assert_eq!(name, "z");
            assert_eq!(at, 53);
        }
        other => panic!("expected an undefined node, got {:?}", other.map(|_| ())),
    }
}
