use utils::ast::{ConnectionDef, GraphInput, Ident, NodeDef};
use utils::error::{Expected, GraphError};
use utils::expand::{emit, expand, proc_macro, validate};
use utils::graph::{Graph, NodeID, INFINITY, UNIT};
use utils::text::ParseStream;
use utils::{graph, graph_with};

fn read(text: &str) -> Result<GraphInput, GraphError> {
    let mut stream = ParseStream::new(text);
    GraphInput::parse(&mut stream)
}

fn values(graph: &Graph<String>) -> Vec<String> {
    let mut seen = Vec::new();
    let mut entries = graph.iter();
    while let Some((id, node)) = entries.next() {
        seen.push((id, node.value.clone()));
    }
    seen.sort();
    seen.into_iter().map(|(_, value)| value).collect()
}

fn syntax(text: &str) -> (usize, Expected) {
    match graph(text) {
        Err(GraphError::Syntax { at, expected }) => (at, expected),
        Err(other) => panic!("expected a syntax error, got {:?}", other),
        Ok(_) => panic!("expected a syntax error, got a graph"),
    }
}

fn name(text: &str, at: usize) -> Ident {
    Ident { name: text.to_string(), at }
}

#[test]
fn empty_text_is_the_empty_graph() {
    assert!(matches!(read(""), Ok(GraphInput::Empty)));
    assert!(matches!(read(" \n\t "), Ok(GraphInput::Empty)));
    let built = graph("").unwrap();
    assert!(values(&built).is_empty());
    assert!(built.get_node(&NodeID::from(0)).is_none());
}

#[test]
fn flat_form_reads_names_and_values() {
    match read("a = 1, bee = two ,c=3,").unwrap() {
        GraphInput::SimpleNodes(nodes) => {
            assert_eq!(nodes.len(), 3);
            assert_eq!(nodes[0].name.name, "a");
            assert_eq!(nodes[0].name.at, 0);
            assert_eq!(nodes[0].value, "1");
            assert_eq!(nodes[1].name.name, "bee");
            assert_eq!(nodes[1].name.at, 7);
            assert_eq!(nodes[1].value, "two");
            assert_eq!(nodes[2].name.name, "c");
            assert_eq!(nodes[2].value, "3");
        }
        other => panic!("expected the flat form, got {:?}", other),
    }
}

#[test]
fn structured_form_reads_nodes_and_connections() {
    match read("nodes: { a = 1; b = 2 } connections: { a -> b: 2.5; b <-> a }").unwrap() {
        GraphInput::Structured { nodes, connections } => {
            assert_eq!(nodes.len(), 2);
            assert_eq!(nodes[1].value, "2");
            assert_eq!(connections.len(), 2);
            match &connections[0] {
                ConnectionDef::Directed { from, to, weight } => {
                    assert_eq!(from.name, "a");
                    assert_eq!(to.name, "b");
                    assert_eq!(*weight, Some(2_500_000));
                }
                other => panic!("expected a directed connection, got {:?}", other),
            }
            match &connections[1] {
                ConnectionDef::Undirected { from, to, weight } => {
                    assert_eq!(from.name, "b");
                    assert_eq!(to.name, "a");
                    assert_eq!(*weight, None);
                }
                other => panic!("expected an undirected connection, got {:?}", other),
            }
        }
        other => panic!("expected the structured form, got {:?}", other),
    }
}

#[test]
fn connections_block_may_be_absent_or_empty() {
    assert!(matches!(
        read("nodes: { a = 1; }"),
        Ok(GraphInput::Structured { nodes, connections }) if nodes.len() == 1 && connections.is_empty()
    ));
    assert!(matches!(
        read("nodes:{a=1;}connections:{}"),
        Ok(GraphInput::Structured { nodes, connections }) if nodes.len() == 1 && connections.is_empty()
    ));
    assert!(matches!(
        read("nodes : { }"),
        Ok(GraphInput::Structured { nodes, connections }) if nodes.is_empty() && connections.is_empty()
    ));
}

#[test]
fn a_node_may_be_called_nodes_in_the_flat_form() {
    let built = graph("nodes = 1, connections = 2").unwrap();
    assert_eq!(values(&built), vec!["1".to_string(), "2".to_string()]);
}

#[test]
fn only_the_exact_header_opens_the_structured_form() {
    assert_eq!(syntax("nodes: 1"), (5, Expected::Equals));
    assert_eq!(syntax("node: { a = 1 }"), (4, Expected::Equals));
    assert!(graph("nodes:{ nodes = 1 }").is_ok());
}

#[test]
fn values_keep_brackets_and_strings_whole() {
    let built = graph("a = f(1, 2), b = \"x, y; z\" , c = [1, 2; {3}] ,d = \"quote \\\" , \"").unwrap();
    assert_eq!(
        values(&built),
        vec![
            "f(1, 2)".to_string(),
            "\"x, y; z\"".to_string(),
            "[1, 2; {3}]".to_string(),
            "\"quote \\\" , \"".to_string(),
        ]
    );
}

#[test]
fn values_are_cut_at_their_last_character() {
    let built = graph("nodes: { a = 1 + 2   ; b =   \"Home\"\n}").unwrap();
    assert_eq!(values(&built), vec!["1 + 2".to_string(), "\"Home\"".to_string()]);
}

#[test]
fn keywords_of_the_host_language_are_no_names() {
    assert_eq!(syntax("fn = 1"), (0, Expected::Identifier));
    assert_eq!(syntax("a = 1, type = 2"), (7, Expected::Identifier));
    assert_eq!(syntax("_ = 1"), (0, Expected::Identifier));
    assert_eq!(syntax("1a = 1"), (0, Expected::Identifier));
    assert_eq!(syntax("nodes: { a = 1; } connections: { a -> self; }"), (38, Expected::Identifier));
    assert!(graph("a1 = 1, _b = 2, r#type = 3").is_err());
    assert!(graph("a1 = 1, _b = 2, Type = 3, function = 4").is_ok());
}

#[test]
fn each_syntax_error_names_what_was_missing() {
    assert_eq!(syntax("= 1"), (0, Expected::Identifier));
    assert_eq!(syntax("a, b"), (1, Expected::Equals));
    assert_eq!(syntax("a"), (1, Expected::Equals));
    assert_eq!(syntax("a = , b = 1"), (4, Expected::Value));
    assert_eq!(syntax("a ="), (3, Expected::Value));
    assert_eq!(syntax("a = (1, 2"), (9, Expected::ClosingDelimiter));
    assert_eq!(syntax("a = \"open"), (9, Expected::ClosingDelimiter));
    assert_eq!(syntax("a = 1; b = 2"), (5, Expected::Separator));
    assert_eq!(syntax("nodes: { a = 1, b = 2 }"), (14, Expected::Separator));
    assert_eq!(syntax("nodes: { a = 1 } connections { }"), (29, Expected::Colon));
    assert_eq!(syntax("nodes: { a = 1 } connections: a -> a"), (30, Expected::OpenBrace));
    assert_eq!(syntax("nodes: { a = 1;"), (15, Expected::CloseBrace));
    assert_eq!(syntax("nodes: { a = 1; ;"), (16, Expected::Identifier));
    assert_eq!(syntax("nodes: { a = 1"), (14, Expected::CloseBrace));
    assert_eq!(syntax("nodes: { a = 1 } connections: { a -> a"), (38, Expected::CloseBrace));
    assert_eq!(syntax("nodes: { a = 1 } connections: { a - > a }"), (34, Expected::Arrow));
    assert_eq!(syntax("nodes: { a = 1 } connections: { a <- a }"), (34, Expected::Arrow));
    assert_eq!(syntax("nodes: { a = 1 } connections: { a a }"), (34, Expected::Arrow));
    assert_eq!(syntax("nodes: { a = 1 } connections: { a -> a: 2 }"), (40, Expected::Weight));
    assert_eq!(syntax("nodes: { a = 1 } connections: { a -> a: -2.0 }"), (40, Expected::Weight));
    assert_eq!(syntax("nodes: { a = 1 } connections: { a -> a: .5 }"), (40, Expected::Weight));
    assert_eq!(syntax("nodes: { a = 1 } connections: { a -> a: 2.0f64 }"), (43, Expected::Separator));
    assert_eq!(syntax("nodes: { a = 1 } edges: { }"), (17, Expected::End));
    assert_eq!(syntax("nodes: { a = 1 } connections: { } b = 2"), (34, Expected::End));
    assert_eq!(syntax("a = 1 }"), (6, Expected::End));
    assert_eq!(syntax("a = 1)"), (5, Expected::Separator));
}

#[test]
fn errors_of_form_come_before_errors_of_meaning() {
    assert_eq!(syntax("a = 1, a = 2, b"), (15, Expected::Equals));
}

#[test]
fn the_first_repeat_is_reported_wherever_it_stands() {
    for (text, repeated, at) in [
        ("a = 1, a = 2", "a", 7),
        ("a = 1, b = 2, c = 3, b = 4, a = 5", "b", 21),
        ("x = 1, y = 2, z = 3, z = 4", "z", 21),
        ("nodes: { a = 1; b = 2; a = 3; b = 4; }", "a", 23),
        ("nodes: { a = 1; b = 2; b = 3 } connections: { a -> q }", "b", 23),
    ] {
        match graph(text) {
            Err(GraphError::DuplicateNode { name, at: found }) => {
                assert_eq!(name, repeated);
                assert_eq!(found, at);
            }
            other => panic!("expected a duplicate node, got {:?}", other.map(|_| ())),
        }
    }
}

#[test]
fn the_first_undeclared_name_is_reported() {
    for (text, missing, at) in [
        ("nodes: { a = 1 } connections: { z -> a }", "z", 32),
        ("nodes: { a = 1 } connections: { a -> z }", "z", 37),
        ("nodes: { a = 1 } connections: { a -> a; y <-> x: 1.0 }", "y", 40),
        ("nodes: { } connections: { a -> a }", "a", 26),
    ] {
        match graph(text) {
            Err(GraphError::UndefinedNode { name, at: found }) => {
                assert_eq!(name, missing);
                assert_eq!(found, at);
            }
            other => panic!("expected an undefined node, got {:?}", other.map(|_| ())),
        }
    }
}

#[test]
fn messages_name_the_offending_node() {
    let duplicate = graph("a = 1, a = 2").map(|_| ()).unwrap_err();
    assert_eq!(duplicate.message(), "Duplicate node identifier: `a`");
    assert_eq!(duplicate.at(), 7);
    let undefined = graph("nodes: { a = 1 } connections: { a -> zed }").map(|_| ()).unwrap_err();
    assert_eq!(undefined.message(), "Node 'zed' not defined in `nodes` block.");
    assert_eq!(undefined.at(), 37);
    let arrow = graph("nodes: { a = 1 } connections: { a => a }").map(|_| ()).unwrap_err();
    assert_eq!(arrow.message(), "expected `->` or `<->` connection");
    assert_eq!(arrow.at(), 34);
    assert_eq!(Expected::Identifier.describe(), "expected identifier");
    let crowded = GraphError::TooManyNodes { at: 3 };
    assert_eq!(crowded.message(), "Too many nodes for one graph.");
    assert_eq!(crowded.at(), 3);
}

#[test]
fn a_missing_weight_is_one_unit() {
    let built = graph("nodes: { a = 1; b = 2 } connections: { a -> b; }").unwrap();
    assert_eq!(built.shortest_distance(NodeID::from(0), NodeID::from(1)), UNIT);
    assert_eq!(UNIT, 1_000_000);
    assert_eq!(built.shortest_distance(NodeID::from(1), NodeID::from(0)), INFINITY);
}

#[test]
fn edges_are_emitted_in_the_order_of_the_declarations() {
    let built = graph(
        "nodes: { a = 1; b = 2; c = 3; d = 4 } connections: { a <-> b: 1.0; b -> c: 0.25; c <-> d; d -> a: 7.5 }",
    )
    .unwrap();
    let id = |i: i32| NodeID::from(i);
    assert_eq!(built.shortest_distance(id(0), id(1)), 1_000_000);
    assert_eq!(built.shortest_distance(id(1), id(0)), 1_000_000);
    assert_eq!(built.shortest_distance(id(0), id(2)), 1_250_000);
    assert_eq!(built.shortest_distance(id(0), id(3)), 2_250_000);
    assert_eq!(built.shortest_distance(id(3), id(2)), 1_000_000);
    assert_eq!(built.shortest_distance(id(2), id(1)), 9_500_000);
    assert_eq!(built.shortest_distance(id(2), id(0)), 8_500_000);
}

#[test]
fn the_way_to_school() {
    let built = graph(
        r#"
        nodes: {
            home = "Home";
            train_station_near_home = "Train station near Home";
            train_station_near_school = "Train station near School";
            school = "School";
            somewhere_else = "Somewhere";
        }
        connections: {
            home <-> train_station_near_home: 3.0;
            train_station_near_home <-> train_station_near_school: 18.0;
            train_station_near_school <-> school: 5.0;
            home -> somewhere_else: 5.0;
        }
        "#,
    )
    .unwrap();
    assert_eq!(values(&built).len(), 5);
    assert_eq!(built.get_node(&NodeID::from(3)).unwrap().value, "\"School\"");
    assert_eq!(built.shortest_distance(NodeID::from(0), NodeID::from(3)), 26 * UNIT);
    assert_eq!(built.shortest_distance(NodeID::from(3), NodeID::from(0)), 26 * UNIT);
    assert_eq!(built.shortest_distance(NodeID::from(3), NodeID::from(4)), 31 * UNIT);
    assert_eq!(built.shortest_distance(NodeID::from(4), NodeID::from(0)), INFINITY);
}

#[test]
fn values_can_be_made_of_the_text() {
    let lengths = graph_with("a = 12, b = 7 + 1, c = xyz", |text: &str| text.len()).unwrap();
    assert_eq!(lengths.get_node(&NodeID::from(0)).unwrap().value, 2);
    assert_eq!(lengths.get_node(&NodeID::from(1)).unwrap().value, 5);
    assert_eq!(lengths.get_node(&NodeID::from(2)).unwrap().value, 3);
    let numbers = graph_with("nodes: { a = 12; b = 30 } connections: { a -> b }", |text: &str| {
        text.parse::<i64>().unwrap_or(-1)
    })
    .unwrap();
    assert_eq!(numbers.get_node(&NodeID::from(0)).unwrap().value, 12);
    assert_eq!(numbers.get_node(&NodeID::from(1)).unwrap().value, 30);
    assert_eq!(numbers.shortest_distance(NodeID::from(0), NodeID::from(1)), UNIT);
    assert!(graph_with("a = 1, a = 2", |text: &str| text.len()).is_err());
}

#[test]
fn a_definition_built_by_hand_is_checked_and_emitted() {
    let nodes = vec![
        NodeDef { name: name("left", 0), value: "L".to_string() },
        NodeDef { name: name("right", 10), value: "R".to_string() },
    ];
    let connections = vec![
        ConnectionDef::Undirected { from: name("left", 20), to: name("right", 30), weight: Some(3) },
        ConnectionDef::Directed { from: name("right", 40), to: name("right", 50), weight: None },
    ];
    let input = GraphInput::Structured { nodes, connections };
    assert!(validate(&input).is_ok());
    let built = emit(&input);
    assert_eq!(built.get_node(&NodeID::from(1)).unwrap().value, "R");
    assert_eq!(built.shortest_distance(NodeID::from(1), NodeID::from(0)), 3);
    let again = proc_macro(&input).unwrap();
    assert_eq!(again.shortest_distance(NodeID::from(0), NodeID::from(1)), 3);
    let sized = expand(&input, |text: &str| text.len()).unwrap();
    assert_eq!(sized.get_node(&NodeID::from(0)).unwrap().value, 1);
}

#[test]
fn a_definition_built_by_hand_is_turned_down() {
    let nodes = vec![
        NodeDef { name: name("a", 0), value: "1".to_string() },
        NodeDef { name: name("b", 5), value: "2".to_string() },
        NodeDef { name: name("a", 9), value: "3".to_string() },
    ];
    let flat = GraphInput::SimpleNodes(nodes.clone());
    assert!(matches!(
        validate(&flat),
        Err(GraphError::DuplicateNode { name, at: 9 }) if name == "a"
    ));
    assert!(proc_macro(&flat).is_err());
    let connections = vec![ConnectionDef::Directed { from: name("a", 20), to: name("c", 25), weight: None }];
    let structured = GraphInput::Structured { nodes: nodes[..2].to_vec(), connections };
    assert!(matches!(
        validate(&structured),
        Err(GraphError::UndefinedNode { name, at: 25 }) if name == "c"
    ));
    assert!(proc_macro(&structured).is_err());
    assert!(validate(&GraphInput::Empty).is_ok());
    assert!(proc_macro(&GraphInput::Empty).is_ok());
}
