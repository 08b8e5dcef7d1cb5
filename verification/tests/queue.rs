use utils::graph::queue::{MinQueue, State};
use utils::graph::NodeID;

fn entry(cost: u64, node: i32) -> State {
    State { cost, position: NodeID::from(node) }
}

#[test]
fn the_queue_starts_empty() {
    let mut queue = MinQueue::new();
    assert_eq!(queue.len(), 0);
    assert_eq!(queue.pop(), None);
}

#[test]
fn entries_leave_cheapest_first() {
    let mut queue = MinQueue::new();
    let costs = [31u64, 4, 15, 9, 26, 5, 35, 8, 97, 93, 23, 84, 62, 64, 33, 83, 27, 0, 50, 28];
    for (i, cost) in costs.iter().enumerate() {
        queue.push(entry(*cost, i as i32));
    }
    assert_eq!(queue.len(), costs.len());
    let mut sorted = costs.to_vec();
    sorted.sort();
    for expected in sorted {
        let state = queue.pop().unwrap();
        assert_eq!(state.cost, expected);
        assert_eq!(costs[state.position.0 as usize], expected);
    }
    assert_eq!(queue.pop(), None);
}

#[test]
fn equal_costs_all_come_out() {
    let mut queue = MinQueue::new();
    for node in 0..7 {
        queue.push(entry(5, node));
    }
    queue.push(entry(1, 7));
    queue.push(entry(9, 8));
    assert_eq!(queue.pop(), Some(entry(1, 7)));
    let mut nodes = Vec::new();
    for _ in 0..7 {
        let state = queue.pop().unwrap();
        assert_eq!(state.cost, 5);
        nodes.push(state.position.0);
    }
    nodes.sort();
    assert_eq!(nodes, vec![0, 1, 2, 3, 4, 5, 6]);
    assert_eq!(queue.pop(), Some(entry(9, 8)));
    assert_eq!(queue.len(), 0);
}

#[test]
fn pushes_and_pops_may_alternate() {
    let mut queue = MinQueue::new();
    queue.push(entry(10, 0));
    queue.push(entry(3, 1));
    assert_eq!(queue.pop().unwrap().cost, 3);
    queue.push(entry(1, 2));
    queue.push(entry(20, 3));
    queue.push(entry(7, 4));
    assert_eq!(queue.pop().unwrap().cost, 1);
    assert_eq!(queue.pop().unwrap().cost, 7);
    queue.push(entry(u64::MAX, 5));
    queue.push(entry(0, 6));
    assert_eq!(queue.pop().unwrap().cost, 0);
    assert_eq!(queue.pop().unwrap().cost, 10);
    assert_eq!(queue.pop().unwrap().cost, 20);
    assert_eq!(queue.pop().unwrap().cost, u64::MAX);
    assert_eq!(queue.pop(), None);
}
