use utils::ast::{ConnectionDef, Ident, NodeDef};
use utils::error::{Expected, GraphError};
use utils::expand::position_of;
use utils::graph::dijkstra::{build_adjacency, search};
use utils::graph::{NodeID, INFINITY};
use utils::text::{characters, digit, line_column, space, word_char, ParseStream};

#[test]
fn characters_are_taken_one_by_one() {
    assert_eq!(characters("a→b"), vec!['a', '→', 'b']);
    assert!(characters("").is_empty());
}

#[test]
fn character_classes() {
    for c in [' ', '\t', '\n', '\r'] {
        assert!(space(c));
    }
    assert!(!space('a'));
    assert!(!space('\u{a0}'));
    for c in ['0', '5', '9'] {
        assert!(digit(c));
        assert!(word_char(c));
    }
    assert!(!digit('a'));
    assert!(!digit('/'));
    assert!(!digit(':'));
    for c in ['a', 'z', 'A', 'Z', '_'] {
        assert!(word_char(c));
    }
    for c in ['-', '.', ' ', 'é', '@', '[', '`', '{'] {
        assert!(!word_char(c));
    }
}

#[test]
fn lines_and_columns_are_counted_from_zero() {
    let text = "ab\ncd\n\nef";
    assert_eq!(line_column(text, 0), (0, 0));
    assert_eq!(line_column(text, 1), (0, 1));
    assert_eq!(line_column(text, 2), (0, 2));
    assert_eq!(line_column(text, 3), (1, 0));
    assert_eq!(line_column(text, 5), (1, 2));
    assert_eq!(line_column(text, 6), (2, 0));
    assert_eq!(line_column(text, 7), (3, 0));
    assert_eq!(line_column(text, 9), (3, 2));
    assert_eq!(line_column(text, 100), (3, 2));
    assert_eq!(line_column("", 0), (0, 0));
}

#[test]
fn an_error_knows_its_line_and_column() {
    let text = "nodes: {\n  a = 1;\n  a = 2;\n}";
    let error = utils::graph(text).map(|_| ()).unwrap_err();
    assert!(matches!(&error, GraphError::DuplicateNode { name, at: 20 } if name == "a"));
    assert_eq!(error.line_column(text), (2, 2));
}

#[test]
fn the_stream_steps_through_the_text() {
    let mut stream = ParseStream::new("  ab_1 = x");
    assert_eq!(stream.len(), 10);
    assert_eq!(stream.offset(), 0);
    assert!(!stream.is_empty());
    assert!(stream.next_is(' '));
    stream.skip_spaces();
    assert_eq!(stream.offset(), 2);
    assert!(stream.ahead_is(0, 'a'));
    assert!(stream.ahead_is(2, '_'));
    assert!(!stream.ahead_is(20, '_'));
    assert_eq!(stream.word(), "ab_1");
    assert_eq!(stream.offset(), 6);
    assert_eq!(stream.word(), "");
    assert!(stream.spells(2, 6, &vec!['a', 'b', '_', '1']));
    assert!(!stream.spells(2, 6, &vec!['a', 'b', '_', '2']));
    assert!(!stream.spells(2, 5, &vec!['a', 'b', '_', '1']));
    assert_eq!(stream.slice(7, 10), "= x");
    assert_eq!(stream.char_at(7), '=');
    stream.advance(3);
    assert_eq!(stream.digits_end(9), 9);
    stream.seek(10);
    assert!(stream.is_empty());
    assert!(!stream.next_is('x'));
}

#[test]
fn a_value_ends_where_its_brackets_and_strings_allow() {
    let mut stream = ParseStream::new("f(a, b) [1;2]  , next");
    assert_eq!(stream.value(), Some(13));
    assert_eq!(stream.offset(), 15);
    let mut quoted = ParseStream::new("\"a;b\\\"c\" ; x");
    assert_eq!(quoted.value(), Some(8));
    assert_eq!(quoted.offset(), 9);
    let mut closed = ParseStream::new("x + 1 }");
    assert_eq!(closed.value(), Some(5));
    assert_eq!(closed.offset(), 6);
    let mut open = ParseStream::new("(x");
    assert_eq!(open.value(), None);
    assert_eq!(open.offset(), 0);
    let mut whole = ParseStream::new("x y");
    assert_eq!(whole.value(), Some(3));
    assert_eq!(whole.offset(), 3);
}

#[test]
fn a_name_is_what_the_host_language_accepts() {
    assert!(matches!(Ident::new("abc", 4, true), Ok(Ident { name, at: 4 }) if name == "abc"));
    assert!(matches!(
        Ident::new("abc", 4, false),
        Err(GraphError::Syntax { at: 4, expected: Expected::Identifier })
    ));
    let mut stream = ParseStream::new("  while_ while");
    assert!(matches!(Ident::parse(&mut stream), Ok(Ident { name, at: 2 }) if name == "while_"));
    assert_eq!(stream.offset(), 8);
    assert!(matches!(
        Ident::parse(&mut stream),
        Err(GraphError::Syntax { at: 9, expected: Expected::Identifier })
    ));
}

#[test]
fn single_declarations_are_read() {
    let mut stream = ParseStream::new(" home = \"Home\" ; rest");
    let node = NodeDef::parse(&mut stream).unwrap();
    assert_eq!(node.name.name, "home");
    assert_eq!(node.name.at, 1);
    assert_eq!(node.value, "\"Home\"");
    assert_eq!(stream.offset(), 15);

    let mut stream = ParseStream::new("a<->b : 0.75;");
    let connection = ConnectionDef::parse(&mut stream).unwrap();
    assert!(connection.is_undirected());
    assert_eq!(connection.source().name, "a");
    assert_eq!(connection.target().name, "b");
    assert_eq!(connection.target().at, 4);
    assert_eq!(connection.weight(), Some(750_000));
    assert_eq!(stream.offset(), 12);

    let mut stream = ParseStream::new("a -> b ;");
    let connection = ConnectionDef::parse(&mut stream).unwrap();
    assert!(!connection.is_undirected());
    assert_eq!(connection.weight(), None);
    assert_eq!(stream.offset(), 7);
}

#[test]
fn lists_end_at_a_brace_or_at_the_end() {
    let mut stream = ParseStream::new("a = 1; b = 2 } tail");
    let nodes = NodeDef::parse_terminated(&mut stream, ';').unwrap();
    assert_eq!(nodes.len(), 2);
    assert_eq!(stream.offset(), 13);
    let mut stream = ParseStream::new("a -> b; b -> a;");
    let connections = ConnectionDef::parse_terminated(&mut stream).unwrap();
    assert_eq!(connections.len(), 2);
    assert_eq!(stream.offset(), 15);
    let mut stream = ParseStream::new("  ");
    assert!(NodeDef::parse_terminated(&mut stream, ',').unwrap().is_empty());
}

#[test]
fn the_first_declaration_of_a_name_is_found() {
    let mut stream = ParseStream::new("a = 1, b = 2, a = 3");
    let nodes = NodeDef::parse_terminated(&mut stream, ',').unwrap();
    assert_eq!(position_of(&nodes, &"a".to_string()), Some(0));
    assert_eq!(position_of(&nodes, &"b".to_string()), Some(1));
    assert_eq!(position_of(&nodes, &"c".to_string()), None);
}

#[test]
fn every_expectation_has_its_words() {
    let all = [
        (Expected::Identifier, "expected identifier"),
        (Expected::Equals, "expected `=`"),
        (Expected::Value, "expected a value"),
        (Expected::ClosingDelimiter, "expected a closing delimiter"),
        (Expected::Separator, "expected `,` or `;`"),
        (Expected::Colon, "expected `:`"),
        (Expected::OpenBrace, "expected `{`"),
        (Expected::CloseBrace, "expected `}`"),
        (Expected::Arrow, "expected `->` or `<->` connection"),
        (Expected::Weight, "expected a weight with a decimal point"),
        (Expected::End, "expected `connections` or the end of the definition"),
    ];
    for (expected, words) in all {
        assert_eq!(expected.describe(), words);
        assert_eq!(GraphError::Syntax { at: 1, expected }.message(), words);
    }
}

#[test]
fn the_search_works_on_a_bare_edge_list() {
    let id = |i: i32| NodeID::from(i);
    let edges = vec![(id(0), id(1), 7), (id(1), id(2), 1), (id(0), id(2), 9), (id(2), id(2), 1), (id(0), id(1), 2)];
    assert_eq!(search(&edges, id(0), id(2)), 3);
    assert_eq!(search(&edges, id(0), id(1)), 2);
    assert_eq!(search(&edges, id(2), id(0)), INFINITY);
    assert_eq!(search(&edges, id(5), id(5)), 0);
    assert_eq!(search(&Vec::new(), id(0), id(1)), INFINITY);
    let adjacency = build_adjacency(&edges);
    assert_eq!(adjacency.len(), 3);
    assert_eq!(adjacency[&0], vec![(id(1), 7), (id(2), 9), (id(1), 2)]);
    assert_eq!(adjacency[&1], vec![(id(2), 1)]);
    assert_eq!(adjacency[&2], vec![(id(2), 1)]);
}

#[test]
fn a_reading_that_gives_up_leaves_the_stream_in_place() {
    let mut stream = ParseStream::new("xx a = ; b");
    stream.advance(2);
    assert!(NodeDef::parse(&mut stream).is_err());
    assert_eq!(stream.offset(), 2);
    assert!(NodeDef::parse_terminated(&mut stream, ',').is_err());
    assert_eq!(stream.offset(), 2);
    assert!(ConnectionDef::parse(&mut stream).is_err());
    assert_eq!(stream.offset(), 2);
    assert!(ConnectionDef::parse_terminated(&mut stream).is_err());
    assert_eq!(stream.offset(), 2);
    assert!(utils::ast::GraphInput::parse(&mut stream).is_err());
    assert_eq!(stream.offset(), 2);
    stream.advance(5);
    assert!(Ident::parse(&mut stream).is_err());
    assert_eq!(stream.offset(), 7);
    let mut whole = ParseStream::new(" a = 1 , b = 2 ");
    assert!(utils::ast::GraphInput::parse(&mut whole).is_ok());
    assert_eq!(whole.offset(), 15);
}
