use utils::graph;
use utils::graph::{NodeID, INFINITY};
use utils::text::ParseStream;
use utils::weight::read_weight;

fn weight(text: &str) -> Option<(u64, usize)> {
    let mut stream = ParseStream::new(text);
    let units = read_weight(&mut stream)?;
    Some((units, stream.offset()))
}

#[test]
fn weights_count_millionths() {
    assert_eq!(weight("2.0"), Some((2_000_000, 3)));
    assert_eq!(weight("0.5"), Some((500_000, 3)));
    assert_eq!(weight("10.25;"), Some((10_250_000, 5)));
    assert_eq!(weight("3."), Some((3_000_000, 2)));
    assert_eq!(weight("0.000001"), Some((1, 8)));
    assert_eq!(weight("007.070"), Some((7_070_000, 7)));
    assert_eq!(weight("0.0"), Some((0, 3)));
}

#[test]
fn digits_beyond_the_sixth_are_dropped() {
    assert_eq!(weight("1.2345678"), Some((1_234_567, 9)));
    assert_eq!(weight("0.0000009"), Some((0, 9)));
    assert_eq!(weight("0.9999999999"), Some((999_999, 12)));
}

#[test]
fn weights_need_digits_and_a_point() {
    assert_eq!(weight("2"), None);
    assert_eq!(weight(".5"), None);
    assert_eq!(weight("-1.0"), None);
    assert_eq!(weight(""), None);
    assert_eq!(weight("x.5"), None);
    assert_eq!(weight(" 1.0"), None);
}

#[test]
fn weights_stop_at_infinity() {
    assert_eq!(weight("18446744073709.551614"), Some((u64::MAX - 1, 21)));
    assert_eq!(weight("18446744073709.551615"), Some((INFINITY, 21)));
    assert_eq!(weight("18446744073709.551616"), Some((INFINITY, 21)));
    assert_eq!(weight("18446744073710.0"), Some((INFINITY, 16)));
    assert_eq!(weight("99999999999999999999999999999999.5"), Some((INFINITY, 34)));
}

#[test]
fn a_reading_that_fails_stays_where_it_was() {
    let mut stream = ParseStream::new("ab 12");
    stream.advance(3);
    assert_eq!(read_weight(&mut stream), None);
    assert_eq!(stream.offset(), 3);
}

#[test]
fn an_infinite_weight_connects_nothing() {
    let built = graph(
        "nodes: { a = 1; b = 2 } connections: { a -> b: 99999999999999999999.0; b -> a: 0.5 }",
    )
    .unwrap();
    assert_eq!(built.shortest_distance(NodeID::from(0), NodeID::from(1)), INFINITY);
    assert_eq!(built.shortest_distance(NodeID::from(1), NodeID::from(0)), 500_000);
}
