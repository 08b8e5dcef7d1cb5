//! Directed walks over an edge list, their weights, and what it means for a
//! number to be the shortest distance between two nodes.

use super::{Connection, NodeID, INFINITY};
use vstd::prelude::*;

verus! {

/// The node at which `walk` stands after its first `steps` edges, when it
/// starts at `from`.
pub open spec fn node_after(edges: Seq<Connection>, walk: Seq<int>, from: NodeID, steps: int) -> NodeID {
    if steps <= 0 {
        from
    } else {
        edges[walk[steps - 1]].1
    }
}

/// `walk` lists indices into `edges` that lead from `from` to `to`: every
/// edge starts where the one before it ended. The empty walk leads from a
/// node to itself.
pub open spec fn is_walk(edges: Seq<Connection>, walk: Seq<int>, from: NodeID, to: NodeID) -> bool {
    &&& forall|k: int| 0 <= k < walk.len() ==> 0 <= #[trigger] walk[k] < edges.len()
    &&& forall|k: int|
        0 <= k < walk.len() ==> edges[#[trigger] walk[k]].0 == node_after(edges, walk, from, k)
    &&& node_after(edges, walk, from, walk.len() as int) == to
}

/// The sum of the weights along `walk`.
pub open spec fn walk_weight(edges: Seq<Connection>, walk: Seq<int>) -> nat
    decreases walk.len(),
{
    if walk.len() == 0 {
        0
    } else {
        walk_weight(edges, walk.drop_last()) + edges[walk.last()].2 as nat
    }
}

/// Some walk leads from `from` to `to`.
pub open spec fn connected(edges: Seq<Connection>, from: NodeID, to: NodeID) -> bool {
    exists|walk: Seq<int>| is_walk(edges, walk, from, to)
}

/// `distance` is the least weight of a walk from `from` to `to`, where weights
/// of `INFINITY` and beyond, and the absence of any walk, all count as
/// `INFINITY`.
pub open spec fn is_shortest_distance(
    edges: Seq<Connection>,
    from: NodeID,
    to: NodeID,
    distance: u64,
) -> bool {
    &&& forall|walk: Seq<int>| #[trigger]
        is_walk(edges, walk, from, to) ==> distance <= walk_weight(edges, walk)
    &&& distance == INFINITY || exists|walk: Seq<int>|
        is_walk(edges, walk, from, to) && walk_weight(edges, walk) == distance
}

/// The shortest distance from `from` to `to` over `edges`.
pub open spec fn shortest_distance(edges: Seq<Connection>, from: NodeID, to: NodeID) -> u64 {
    choose|distance: u64| is_shortest_distance(edges, from, to, distance)
}

/// At most one number is the shortest distance between two nodes.
pub proof fn lemma_shortest_distance_unique(
    edges: Seq<Connection>,
    from: NodeID,
    to: NodeID,
    first: u64,
    second: u64,
)
    requires
        is_shortest_distance(edges, from, to, first),
        is_shortest_distance(edges, from, to, second),
    ensures
        first == second,
{
    if first < second {
        let walk = choose|walk: Seq<int>|
            is_walk(edges, walk, from, to) && walk_weight(edges, walk) == first;
        assert(is_walk(edges, walk, from, to));
    } else if second < first {
        let walk = choose|walk: Seq<int>|
            is_walk(edges, walk, from, to) && walk_weight(edges, walk) == second;
        assert(is_walk(edges, walk, from, to));
    }
}

/// A number that is the shortest distance is the one that
/// `shortest_distance` names.
pub proof fn lemma_shortest_distance_is(edges: Seq<Connection>, from: NodeID, to: NodeID, distance: u64)
    requires
        is_shortest_distance(edges, from, to, distance),
    ensures
        shortest_distance(edges, from, to) == distance,
{
    lemma_shortest_distance_unique(edges, from, to, distance, shortest_distance(edges, from, to));
}

/// Following one more edge from the end of a walk gives a walk, heavier by
/// that edge's weight.
pub proof fn lemma_walk_push(edges: Seq<Connection>, walk: Seq<int>, from: NodeID, to: NodeID, edge: int)
    requires
        is_walk(edges, walk, from, to),
        0 <= edge < edges.len(),
        edges[edge].0 == to,
    ensures
        is_walk(edges, walk.push(edge), from, edges[edge].1),
        walk_weight(edges, walk.push(edge)) == walk_weight(edges, walk) + edges[edge].2,
{
    let longer = walk.push(edge);
    assert(longer.drop_last() =~= walk);
    assert forall|k: int| 0 <= k < longer.len() implies edges[#[trigger] longer[k]].0 == node_after(
        edges,
        longer,
        from,
        k,
    ) by {
        if k < walk.len() {
            assert(longer[k] == walk[k]);
            if k > 0 {
                assert(longer[k - 1] == walk[k - 1]);
            }
        }
    }
}

/// The first `steps` edges of a walk form a walk to the node reached by
/// then, and weigh no more than the whole.
pub proof fn lemma_walk_prefix(edges: Seq<Connection>, walk: Seq<int>, from: NodeID, to: NodeID, steps: int)
    requires
        is_walk(edges, walk, from, to),
        0 <= steps <= walk.len(),
    ensures
        is_walk(edges, walk.take(steps), from, node_after(edges, walk, from, steps)),
        walk_weight(edges, walk.take(steps)) <= walk_weight(edges, walk),
        steps < walk.len() ==> walk_weight(edges, walk.take(steps + 1)) == walk_weight(
            edges,
            walk.take(steps),
        ) + edges[walk[steps]].2,
    decreases walk.len() - steps,
{
    let prefix = walk.take(steps);
    assert forall|k: int| 0 <= k < prefix.len() implies edges[#[trigger] prefix[k]].0 == node_after(
        edges,
        prefix,
        from,
        k,
    ) by {
        assert(prefix[k] == walk[k]);
        if k > 0 {
            assert(prefix[k - 1] == walk[k - 1]);
        }
    }
    if steps == walk.len() {
        assert(prefix =~= walk);
    } else {
        let next = walk.take(steps + 1);
        assert(next.drop_last() =~= prefix);
        assert(next.last() == walk[steps]);
        lemma_walk_prefix(edges, walk, from, to, steps + 1);
    }
}

/// Every node is at distance zero from itself, whatever the edges are.
pub proof fn lemma_distance_to_self(edges: Seq<Connection>, node: NodeID)
    ensures
        shortest_distance(edges, node, node) == 0,
{
    let stay = Seq::<int>::empty();
    assert(is_walk(edges, stay, node, node) && walk_weight(edges, stay) == 0);
    lemma_shortest_distance_is(edges, node, node, 0);
}

/// Two nodes that no walk connects are at distance `INFINITY`.
pub proof fn lemma_unconnected_is_infinite(edges: Seq<Connection>, from: NodeID, to: NodeID)
    requires
        !connected(edges, from, to),
    ensures
        shortest_distance(edges, from, to) == INFINITY,
{
    lemma_shortest_distance_is(edges, from, to, INFINITY);
}

} // verus!
