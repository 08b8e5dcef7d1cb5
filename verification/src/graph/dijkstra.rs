//! Dijkstra's search for the shortest distance between two nodes.

use super::queue::{MinQueue, State};
use super::walk::{is_shortest_distance, is_walk, lemma_walk_prefix, lemma_walk_push, node_after, walk_weight};
use super::{Connection, NodeID, INFINITY};
use std::collections::HashMap;
use vstd::multiset::Multiset;
use vstd::prelude::*;

verus! {

broadcast use vstd::std_specs::hash::group_hash_axioms;

/// The edges that leave `source`, each as its destination and weight, in the
/// order of the edge list.
pub open spec fn out_edges(edges: Seq<Connection>, source: NodeID) -> Seq<(NodeID, u64)>
    decreases edges.len(),
{
    if edges.len() == 0 {
        Seq::empty()
    } else if edges.last().0 == source {
        out_edges(edges.drop_last(), source).push((edges.last().1, edges.last().2))
    } else {
        out_edges(edges.drop_last(), source)
    }
}

/// Every entry of `out_edges` stands for an edge of the list; the result is
/// the index of one.
proof fn lemma_out_edge_is_edge(edges: Seq<Connection>, source: NodeID, entry: int) -> (edge: int)
    requires
        0 <= entry < out_edges(edges, source).len(),
    ensures
        0 <= edge < edges.len(),
        edges[edge] == (source, out_edges(edges, source)[entry].0, out_edges(edges, source)[entry].1),
    decreases edges.len(),
{
    let rest = out_edges(edges.drop_last(), source);
    if edges.last().0 == source && entry == rest.len() {
        edges.len() - 1
    } else {
        lemma_out_edge_is_edge(edges.drop_last(), source, entry)
    }
}

/// Every edge of the list that leaves `source` has its entry in
/// `out_edges`; the result is the position of one.
proof fn lemma_edge_is_out_edge(edges: Seq<Connection>, source: NodeID, edge: int) -> (entry: int)
    requires
        0 <= edge < edges.len(),
        edges[edge].0 == source,
    ensures
        0 <= entry < out_edges(edges, source).len(),
        out_edges(edges, source)[entry] == (edges[edge].1, edges[edge].2),
    decreases edges.len(),
{
    let rest = out_edges(edges.drop_last(), source);
    if edge == edges.len() - 1 {
        rest.len() as int
    } else {
        lemma_edge_is_out_edge(edges.drop_last(), source, edge)
    }
}

/// Groups the edges by their source in one pass over the list.
pub fn build_adjacency(edges: &Vec<Connection>) -> (adjacency: HashMap<i32, Vec<(NodeID, u64)>>)
    ensures
        forall|k: i32| #[trigger]
            adjacency@.contains_key(k) <==> out_edges(edges@, NodeID(k)).len() > 0,
        forall|k: i32| #[trigger]
            adjacency@.contains_key(k) ==> adjacency@[k]@ == out_edges(edges@, NodeID(k)),
{
    let mut adjacency: HashMap<i32, Vec<(NodeID, u64)>> = HashMap::new();
    let mut i: usize = 0;
    while i < edges.len()
        invariant
            0 <= i <= edges.len(),
            forall|k: i32| #[trigger]
                adjacency@.contains_key(k) <==> out_edges(edges@.take(i as int), NodeID(k)).len() > 0,
            forall|k: i32| #[trigger]
                adjacency@.contains_key(k) ==> adjacency@[k]@ == out_edges(
                    edges@.take(i as int),
                    NodeID(k),
                ),
        decreases edges.len() - i,
    {
        let (from_id, to_id, weight) = edges[i];
        let ghost before = adjacency@;
        let list = adjacency.entry(from_id.0).or_insert(Vec::new());
        list.push((to_id, weight));
        proof {
            let longer = edges@.take(i + 1);
            assert(longer.drop_last() =~= edges@.take(i as int));
            assert(longer.last() == edges@[i as int]);
            assert forall|k: i32| #[trigger]
                adjacency@.contains_key(k) implies adjacency@[k]@ == out_edges(longer, NodeID(k)) by {
                if k != from_id.0 {
                    assert(before.contains_key(k));
                }
            }
            assert forall|k: i32| out_edges(longer, NodeID(k)).len() > 0 implies #[trigger]
                adjacency@.contains_key(k) by {
                if k != from_id.0 {
                    assert(before.contains_key(k));
                }
            }
        }
        i += 1;
    }
    assert(edges@.take(i as int) =~= edges@);
    adjacency
}

/// What the search knows of the nodes it has reached: the start lies at
/// distance zero, and every recorded distance is finite and is the weight of
/// the walk recorded beside it.
spec fn reached_by_walks(
    edges: Seq<Connection>,
    from: NodeID,
    dist: Map<i32, u64>,
    witness: Map<i32, Seq<int>>,
) -> bool {
    &&& dist.contains_key(from.0)
    &&& dist[from.0] == 0
    &&& forall|k: i32| #[trigger]
        dist.contains_key(k) ==> {
            &&& dist[k] < INFINITY
            &&& witness.contains_key(k)
            &&& is_walk(edges, witness[k], from, NodeID(k))
            &&& walk_weight(edges, witness[k]) == dist[k]
        }
}

/// The settled nodes have been reached, and no walk to one of them is
/// lighter than its recorded distance.
spec fn settled_are_final(
    edges: Seq<Connection>,
    from: NodeID,
    dist: Map<i32, u64>,
    settled: Set<int>,
) -> bool {
    &&& settled.finite()
    &&& forall|k: int| #[trigger] settled.contains(k) ==> i32::MIN <= k <= i32::MAX
    &&& forall|k: i32| #[trigger] settled.contains(k as int) ==> dist.contains_key(k)
    &&& forall|k: i32, walk: Seq<int>|
        settled.contains(k as int) && #[trigger] is_walk(edges, walk, from, NodeID(k)) ==> dist[k]
            <= walk_weight(edges, walk)
}

/// Going from `source`, at distance `cost`, along an edge of weight `weight`
/// to `target` does not beat what is recorded for `target`.
spec fn relaxed(dist: Map<i32, u64>, cost: u64, target: NodeID, weight: u64) -> bool {
    cost + weight < INFINITY ==> dist.contains_key(target.0) && dist[target.0] <= cost + weight
}

/// Every edge that leaves a settled node other than `pending` is relaxed.
spec fn settled_edges_relaxed(
    edges: Seq<Connection>,
    dist: Map<i32, u64>,
    settled: Set<int>,
    pending: Option<i32>,
) -> bool {
    forall|e: int|
        0 <= e < edges.len() && settled.contains((#[trigger] edges[e]).0.0 as int) && pending != Some(
            edges[e].0.0,
        ) ==> relaxed(dist, dist[edges[e].0.0], edges[e].1, edges[e].2)
}

/// Every reached node that is not settled waits in the queue at its recorded
/// distance, and no queue entry is cheaper than the distance recorded for
/// its node.
spec fn frontier_covers(dist: Map<i32, u64>, settled: Set<int>, queue: Multiset<State>) -> bool {
    &&& forall|k: i32| #[trigger]
        dist.contains_key(k) && !settled.contains(k as int) ==> queue.count(
            State { cost: dist[k], position: NodeID(k) },
        ) > 0
    &&& forall|state: State| #[trigger]
        queue.count(state) > 0 ==> dist.contains_key(state.position.0) && dist[state.position.0]
            <= state.cost
}

/// A walk that stands at a node which is not settled has, by then, gathered
/// at least `bound`, where `bound` is no more than any distance recorded for
/// a node that is not settled.
proof fn lemma_frontier_bound(
    edges: Seq<Connection>,
    from: NodeID,
    to: NodeID,
    dist: Map<i32, u64>,
    settled: Set<int>,
    bound: u64,
    walk: Seq<int>,
    steps: int,
)
    requires
        is_walk(edges, walk, from, to),
        0 <= steps <= walk.len(),
        dist.contains_key(from.0),
        dist[from.0] == 0,
        settled_are_final(edges, from, dist, settled),
        settled_edges_relaxed(edges, dist, settled, None),
        bound < INFINITY,
        forall|k: i32| #[trigger] dist.contains_key(k) && !settled.contains(k as int) ==> bound <= dist[k],
        !settled.contains(node_after(edges, walk, from, steps).0 as int),
    ensures
        bound <= walk_weight(edges, walk.take(steps)),
        bound <= walk_weight(edges, walk),
    decreases steps,
{
    lemma_walk_prefix(edges, walk, from, to, steps);
    if steps == 0 {
        assert(dist.contains_key(from.0));
    } else {
        lemma_walk_prefix(edges, walk, from, to, steps - 1);
        let source = node_after(edges, walk, from, steps - 1);
        let e = walk[steps - 1];
        assert(edges[e].0 == source);
        if settled.contains(source.0 as int) {
            assert(is_walk(edges, walk.take(steps - 1), from, NodeID(source.0)));
            assert(dist[source.0] <= walk_weight(edges, walk.take(steps - 1)));
            assert(relaxed(dist, dist[source.0], edges[e].1, edges[e].2));
            if dist[source.0] + edges[e].2 < INFINITY {
                assert(dist.contains_key(edges[e].1.0));
            }
        } else {
            lemma_frontier_bound(edges, from, to, dist, settled, bound, walk, steps - 1);
        }
    }
}

/// Once every reached node is settled, a walk lighter than `INFINITY` ends at
/// a settled node.
proof fn lemma_light_walk_ends_settled(
    edges: Seq<Connection>,
    from: NodeID,
    to: NodeID,
    dist: Map<i32, u64>,
    settled: Set<int>,
    walk: Seq<int>,
    steps: int,
)
    requires
        is_walk(edges, walk, from, to),
        0 <= steps <= walk.len(),
        walk_weight(edges, walk) < INFINITY,
        dist.contains_key(from.0),
        dist[from.0] == 0,
        settled_are_final(edges, from, dist, settled),
        settled_edges_relaxed(edges, dist, settled, None),
        forall|k: i32| #[trigger] dist.contains_key(k) ==> settled.contains(k as int),
    ensures
        settled.contains(node_after(edges, walk, from, steps).0 as int),
        dist[node_after(edges, walk, from, steps).0] <= walk_weight(edges, walk.take(steps)),
    decreases steps,
{
    lemma_walk_prefix(edges, walk, from, to, steps);
    if steps == 0 {
        assert(dist.contains_key(from.0));
    } else {
        lemma_light_walk_ends_settled(edges, from, to, dist, settled, walk, steps - 1);
        lemma_walk_prefix(edges, walk, from, to, steps - 1);
        let source = node_after(edges, walk, from, steps - 1);
        let e = walk[steps - 1];
        assert(edges[e].0 == source);
        assert(relaxed(dist, dist[source.0], edges[e].1, edges[e].2));
        assert(dist.contains_key(edges[e].1.0));
    }
}

/// Relaxes every edge that leaves the node of `state`, which has just been
/// settled at the cost of `state`: wherever going through it is cheaper than
/// what is recorded for a neighbour, the neighbour gets the new distance and
/// a place in the queue.
fn relax(
    edges: &Vec<Connection>,
    from: NodeID,
    list: &Vec<(NodeID, u64)>,
    state: State,
    dist: &mut HashMap<i32, u64>,
    queue: &mut MinQueue,
    Ghost(settled): Ghost<Set<int>>,
    Ghost(was_settled): Ghost<bool>,
    Ghost(witness): Ghost<Map<i32, Seq<int>>>,
) -> (new_witness: Ghost<Map<i32, Seq<int>>>)
    requires
        list@ == out_edges(edges@, state.position),
        reached_by_walks(edges@, from, old(dist)@, witness),
        settled_are_final(edges@, from, old(dist)@, settled),
        settled.contains(state.position.0 as int),
        old(dist)@[state.position.0] == state.cost,
        settled_edges_relaxed(edges@, old(dist)@, settled, Some(state.position.0)),
        was_settled ==> settled_edges_relaxed(edges@, old(dist)@, settled, None),
        frontier_covers(old(dist)@, settled, old(queue)@),
        old(queue).well_formed(),
    ensures
        final(queue).well_formed(),
        reached_by_walks(edges@, from, final(dist)@, new_witness@),
        settled_are_final(edges@, from, final(dist)@, settled),
        settled_edges_relaxed(edges@, final(dist)@, settled, None),
        frontier_covers(final(dist)@, settled, final(queue)@),
        was_settled ==> final(queue)@ == old(queue)@,
{
    let ghost mut witness = witness;
    let mut j: usize = 0;
    while j < list.len()
        invariant
            0 <= j <= list.len(),
            list@ == out_edges(edges@, state.position),
            reached_by_walks(edges@, from, dist@, witness),
            settled_are_final(edges@, from, dist@, settled),
            settled.contains(state.position.0 as int),
            dist@[state.position.0] == state.cost,
            settled_edges_relaxed(edges@, dist@, settled, Some(state.position.0)),
            was_settled ==> settled_edges_relaxed(edges@, dist@, settled, None),
            frontier_covers(dist@, settled, queue@),
            queue.well_formed(),
            was_settled ==> queue@ == old(queue)@,
            forall|done: int| 0 <= done < j ==> relaxed(dist@, state.cost, (#[trigger] list@[done]).0, list@[done].1),
        decreases list.len() - j,
    {
        let (target, weight) = list[j];
        let new_cost = state.cost.saturating_add(weight);
        let recorded = match dist.get(&target.0) {
            Some(d) => *d,
            None => INFINITY,
        };
        let ghost e = lemma_out_edge_is_edge(edges@, state.position, j as int);
        if new_cost < recorded {
            let ghost old_dist = dist@;
            let ghost old_queue = queue@;
            let ghost longer = witness[state.position.0].push(e);
            proof {
                lemma_walk_push(edges@, witness[state.position.0], from, state.position, e);
                assert(is_walk(edges@, longer, from, NodeID(target.0)));
                assert(!settled.contains(target.0 as int));
                assert(!was_settled) by {
                    if was_settled {
                        assert(relaxed(old_dist, old_dist[edges@[e].0.0], edges@[e].1, edges@[e].2));
                    }
                }
            }
            dist.insert(target.0, new_cost);
            queue.push(State { cost: new_cost, position: target });
            proof {
                witness = witness.insert(target.0, longer);
                assert forall|e2: int|
                    0 <= e2 < edges@.len() && settled.contains((#[trigger] edges@[e2]).0.0 as int) && Some(
                        state.position.0,
                    ) != Some(edges@[e2].0.0) implies relaxed(
                    dist@,
                    dist@[edges@[e2].0.0],
                    edges@[e2].1,
                    edges@[e2].2,
                ) by {
                    assert(relaxed(old_dist, old_dist[edges@[e2].0.0], edges@[e2].1, edges@[e2].2));
                }
                assert forall|done: int| 0 <= done < j + 1 implies relaxed(
                    dist@,
                    state.cost,
                    (#[trigger] list@[done]).0,
                    list@[done].1,
                ) by {
                    if done < j {
                        assert(relaxed(old_dist, state.cost, list@[done].0, list@[done].1));
                    }
                }
                assert forall|k: i32| #[trigger]
                    dist@.contains_key(k) && !settled.contains(k as int) implies queue@.count(
                    State { cost: dist@[k], position: NodeID(k) },
                ) > 0 by {
                    if k != target.0 {
                        assert(old_dist.contains_key(k));
                    }
                }
                assert forall|other: State| #[trigger] queue@.count(other) > 0 implies dist@.contains_key(
                    other.position.0,
                ) && dist@[other.position.0] <= other.cost by {
                    if other != (State { cost: new_cost, position: target }) {
                        assert(old_queue.count(other) > 0);
                    }
                }
            }
        }
        j += 1;
    }
    proof {
        assert forall|e: int|
            0 <= e < edges@.len() && settled.contains((#[trigger] edges@[e]).0.0 as int) implies relaxed(
            dist@,
            dist@[edges@[e].0.0],
            edges@[e].1,
            edges@[e].2,
        ) by {
            if edges@[e].0.0 == state.position.0 {
                let entry = lemma_edge_is_out_edge(edges@, state.position, e);
                assert(relaxed(dist@, state.cost, list@[entry].0, list@[entry].1));
            }
        }
    }
    Ghost(witness)
}

/// The least total weight of a walk from `from` to `to` over `edges`, found
/// by Dijkstra's search; `INFINITY` where no walk lighter than that exists.
pub fn search(edges: &Vec<Connection>, from: NodeID, to: NodeID) -> (distance: u64)
    ensures
        is_shortest_distance(edges@, from, to, distance),
{
    if from == to {
        proof {
            let stay = Seq::<int>::empty();
            assert(is_walk(edges@, stay, from, to) && walk_weight(edges@, stay) == 0);
        }
        return 0;
    }
    let adjacency = build_adjacency(edges);
    let mut dist: HashMap<i32, u64> = HashMap::new();
    let mut queue = MinQueue::new();
    dist.insert(from.0, 0);
    queue.push(State { cost: 0, position: from });
    let ghost mut settled: Set<int> = Set::empty();
    let ghost mut witness: Map<i32, Seq<int>> = Map::empty().insert(from.0, Seq::empty());
    proof {
        assert(is_walk(edges@, Seq::<int>::empty(), from, from));
    }
    loop
        invariant
            from != to,
            forall|k: i32| #[trigger]
                adjacency@.contains_key(k) <==> out_edges(edges@, NodeID(k)).len() > 0,
            forall|k: i32| #[trigger]
                adjacency@.contains_key(k) ==> adjacency@[k]@ == out_edges(edges@, NodeID(k)),
            reached_by_walks(edges@, from, dist@, witness),
            settled_are_final(edges@, from, dist@, settled),
            settled_edges_relaxed(edges@, dist@, settled, None),
            frontier_covers(dist@, settled, queue@),
            queue.well_formed(),
            !settled.contains(to.0 as int),
        decreases 0x1_0000_0000 - settled.len(), queue@.len(),
    {
        let ghost old_queue = queue@;
        match queue.pop() {
            None => {
                proof {
                    assert forall|k: i32| #[trigger] dist@.contains_key(k) implies settled.contains(
                        k as int,
                    ) by {
                        if !settled.contains(k as int) {
                            assert(queue@.count(State { cost: dist@[k], position: NodeID(k) }) > 0);
                        }
                    }
                    assert forall|walk: Seq<int>| #[trigger]
                        is_walk(edges@, walk, from, to) implies INFINITY <= walk_weight(edges@, walk) by {
                        if walk_weight(edges@, walk) < INFINITY {
                            lemma_light_walk_ends_settled(
                                edges@,
                                from,
                                to,
                                dist@,
                                settled,
                                walk,
                                walk.len() as int,
                            );
                        }
                    }
                }
                return INFINITY;
            },
            Some(state) => {
                assert(queue@.len() == old_queue.len() - 1);
                let ghost old_settled = settled;
                let recorded = match dist.get(&state.position.0) {
                    Some(d) => *d,
                    None => INFINITY,
                };
                if state.cost <= recorded {
                    let ghost was_settled = settled.contains(state.position.0 as int);
                    proof {
                        assert(state.cost == dist@[state.position.0]);
                        if !was_settled {
                            assert forall|k: i32| #[trigger]
                                dist@.contains_key(k) && !settled.contains(k as int) implies state.cost
                                <= dist@[k] by {
                                assert(old_queue.count(State { cost: dist@[k], position: NodeID(k) }) > 0);
                            }
                            assert forall|walk: Seq<int>| #[trigger]
                                is_walk(edges@, walk, from, state.position) implies state.cost
                                <= walk_weight(edges@, walk) by {
                                lemma_frontier_bound(
                                    edges@,
                                    from,
                                    state.position,
                                    dist@,
                                    settled,
                                    state.cost,
                                    walk,
                                    walk.len() as int,
                                );
                            }
                        }
                    }
                    if state.position == to {
                        proof {
                            assert(is_walk(edges@, witness[to.0], from, to));
                        }
                        return state.cost;
                    }
                    proof {
                        vstd::set_lib::lemma_int_range(i32::MIN as int, i32::MAX as int + 1);
                        vstd::set_lib::lemma_len_subset(
                            settled,
                            vstd::set_lib::set_int_range(i32::MIN as int, i32::MAX as int + 1),
                        );
                        settled = settled.insert(state.position.0 as int);
                        vstd::set_lib::lemma_len_subset(
                            settled,
                            vstd::set_lib::set_int_range(i32::MIN as int, i32::MAX as int + 1),
                        );
                        assert(was_settled ==> settled == old_settled);
                        assert(!was_settled ==> settled.len() == old_settled.len() + 1);
                        assert(settled.len() <= 0x1_0000_0000);
                    }
                    match adjacency.get(&state.position.0) {
                        Some(list) => {
                            let fresh = relax(
                                edges,
                                from,
                                list,
                                state,
                                &mut dist,
                                &mut queue,
                                Ghost(settled),
                                Ghost(was_settled),
                                Ghost(witness),
                            );
                            proof {
                                witness = fresh@;
                            }
                        },
                        None => {
                            proof {
                                assert forall|e: int|
                                    0 <= e < edges@.len() && settled.contains(
                                        (#[trigger] edges@[e]).0.0 as int,
                                    ) implies relaxed(
                                    dist@,
                                    dist@[edges@[e].0.0],
                                    edges@[e].1,
                                    edges@[e].2,
                                ) by {
                                    if edges@[e].0.0 == state.position.0 {
                                        let entry = lemma_edge_is_out_edge(edges@, state.position, e);
                                    }
                                }
                            }
                        },
                    }
                }
            },
        }
    }
}

} // verus!
