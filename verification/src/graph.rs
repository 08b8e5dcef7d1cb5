//! The graph engine: node storage, the edge list and identifier allocation.

pub mod dijkstra;
pub mod queue;
pub mod walk;

use std::collections::hash_map::Entry;
use std::collections::HashMap;
use vstd::prelude::*;
use vstd::std_specs::convert::FromSpecImpl;
use vstd::std_specs::hash::*;

verus! {

broadcast use vstd::std_specs::hash::group_hash_axioms;

/// Handle of a node within one graph. Handles are issued in increasing order,
/// starting at zero, and are never reused. The number inside says no more
/// than which handle it is.
#[derive(Debug, PartialEq, Eq, PartialOrd, Ord, Hash, Clone, Copy, Structural)]
pub struct NodeID(pub i32);

impl From<i32> for NodeID {
    fn from(value: i32) -> (id: Self)
        ensures
            id == NodeID(value),
    {
        Self(value)
    }
}

impl FromSpecImpl<i32> for NodeID {
    open spec fn obeys_from_spec() -> bool {
        true
    }

    open spec fn from_spec(value: i32) -> Self {
        NodeID(value)
    }
}

/// A node: exactly one value of the caller's type.
#[derive(Debug)]
pub struct Node<T> {
    /// value of this node
    pub value: T,
}

impl<T> Node<T> {
    /// Wraps whatever converts into `T`.
    pub fn new(value: impl Into<T>) -> (node: Self)
        ensures
            call_ensures(Into::into, (value,), node.value),
    {
        Self { value: value.into() }
    }
}

impl<T: Default> Default for Node<T> {
    fn default() -> (node: Self)
        ensures
            call_ensures(T::default, (), node.value),
    {
        Self { value: Default::default() }
    }
}

impl<T> From<T> for Node<T> {
    fn from(value: T) -> (node: Self)
        ensures
            node.value == value,
    {
        Self { value }
    }
}

impl<T> FromSpecImpl<T> for Node<T> {
    open spec fn obeys_from_spec() -> bool {
        true
    }

    open spec fn from_spec(value: T) -> Self {
        Node { value }
    }
}

/// The weight of one whole unit of distance: weights count millionths.
pub const UNIT: u64 = 1_000_000;

/// The distance between two nodes that no walk connects. Sums of weights
/// stop here instead of growing past it.
pub const INFINITY: u64 = 0xffff_ffff_ffff_ffff;

/// One directed edge: source, destination and weight.
pub type Connection = (NodeID, NodeID, u64);

/// What a graph holds, as mathematics.
pub struct GraphView<T> {
    /// The stored nodes, by handle.
    pub nodes: Map<NodeID, Node<T>>,
    /// The directed edges in the order in which they were added.
    pub connections: Seq<Connection>,
    /// The handle that the next insertion will issue.
    pub next_id: i32,
}

/// A directed multigraph with weighted edges.
#[derive(Debug)]
pub struct Graph<T> {
    nodes: HashMap<i32, Node<T>>,
    connections: Vec<Connection>,
    next_id: i32,
}

impl<T> View for Graph<T> {
    type V = GraphView<T>;

    closed spec fn view(&self) -> GraphView<T> {
        GraphView {
            nodes: Map::new(
                |id: NodeID| self.nodes@.contains_key(id.0),
                |id: NodeID| self.nodes@[id.0],
            ),
            connections: self.connections@,
            next_id: self.next_id,
        }
    }
}

impl<T> GraphView<T> {
    /// The handles issued so far are exactly `0 .. next_id`, and each of them
    /// still has its node.
    pub open spec fn well_formed(self) -> bool {
        &&& 0 <= self.next_id
        &&& forall|id: NodeID| self.nodes.contains_key(id) <==> 0 <= id.0 < self.next_id
    }

    /// The empty graph.
    pub open spec fn empty() -> Self {
        GraphView { nodes: Map::empty(), connections: Seq::empty(), next_id: 0 }
    }

    /// This graph with `node` stored under the next handle.
    pub open spec fn insert(self, node: Node<T>) -> Self {
        GraphView {
            nodes: self.nodes.insert(NodeID(self.next_id), node),
            connections: self.connections,
            next_id: (self.next_id + 1) as i32,
        }
    }

    /// This graph with one more directed edge.
    pub open spec fn connect(self, from_id: NodeID, to_id: NodeID, weight: u64) -> Self {
        GraphView {
            nodes: self.nodes,
            connections: self.connections.push((from_id, to_id, weight)),
            next_id: self.next_id,
        }
    }

    /// This graph with one more edge in each direction between two nodes.
    pub open spec fn connect_bidirectionally(self, from_id: NodeID, to_id: NodeID, weight: u64) -> Self {
        GraphView {
            nodes: self.nodes,
            connections: self.connections.push((from_id, to_id, weight)).push((to_id, from_id, weight)),
            next_id: self.next_id,
        }
    }

    /// The least total weight of a directed walk from `from_id` to `to_id`;
    /// `INFINITY` where there is no walk lighter than that.
    pub open spec fn shortest_distance(self, from_id: NodeID, to_id: NodeID) -> u64 {
        walk::shortest_distance(self.connections, from_id, to_id)
    }

    /// The stored nodes as a set of pairs of handle and node.
    pub open spec fn entries(self) -> Set<(NodeID, Node<T>)> {
        Set::new(
            |entry: (NodeID, Node<T>)| self.nodes.contains_key(entry.0) && self.nodes[entry.0] == entry.1,
        )
    }

    /// Connecting two nodes in both directions is connecting the first to the
    /// second and then the second to the first: the graphs are the same, and
    /// so is every shortest distance in them.
    pub proof fn lemma_bidirectional_is_two_connects(self, from_id: NodeID, to_id: NodeID, weight: u64)
        ensures
            self.connect_bidirectionally(from_id, to_id, weight) == self.connect(
                from_id,
                to_id,
                weight,
            ).connect(to_id, from_id, weight),
            forall|a: NodeID, b: NodeID|
                #![trigger self.connect_bidirectionally(from_id, to_id, weight).shortest_distance(a, b)]
                self.connect_bidirectionally(from_id, to_id, weight).shortest_distance(a, b)
                    == self.connect(from_id, to_id, weight).connect(
                    to_id,
                    from_id,
                    weight,
                ).shortest_distance(a, b),
    {
    }

    /// Two walks over the nodes of one graph, each of which meets every
    /// stored node exactly once, yield the same pairs as often, whatever
    /// their orders.
    pub proof fn lemma_walks_yield_same_entries(
        self,
        first: Seq<(NodeID, Node<T>)>,
        second: Seq<(NodeID, Node<T>)>,
    )
        requires
            first.no_duplicates(),
            first.to_set() == self.entries(),
            second.no_duplicates(),
            second.to_set() == self.entries(),
        ensures
            first.to_set() == second.to_set(),
            first.to_multiset() == second.to_multiset(),
            first.len() == second.len(),
    {
        first.lemma_multiset_has_no_duplicates();
        second.lemma_multiset_has_no_duplicates();
        first.to_multiset_ensures();
        second.to_multiset_ensures();
        assert forall|entry: (NodeID, Node<T>)| first.to_multiset().count(entry) == second.to_multiset().count(
            entry,
        ) by {
            assert(first.contains(entry) <==> first.to_set().contains(entry));
            assert(second.contains(entry) <==> second.to_set().contains(entry));
        }
        assert(first.to_multiset() =~= second.to_multiset());
    }
}

impl<T> Default for Graph<T> {
    fn default() -> (graph: Self)
        ensures
            graph@ == GraphView::<T>::empty(),
            graph@.well_formed(),
    {
        Graph::new()
    }
}

impl<T> Graph<T> {
    /// An empty graph whose first handle will be zero.
    pub fn new() -> (graph: Self)
        ensures
            graph@ == GraphView::<T>::empty(),
            graph@.well_formed(),
    {
        let graph = Self { nodes: HashMap::new(), connections: Vec::new(), next_id: 0 };
        assert(graph@.nodes =~= Map::<NodeID, Node<T>>::empty());
        graph
    }

    /// Issues the next handle.
    fn get_next_id(&mut self) -> (id: NodeID)
        requires
            old(self).next_id < i32::MAX,
        ensures
            id == NodeID(old(self).next_id),
            final(self).next_id == old(self).next_id + 1,
            final(self).nodes == old(self).nodes,
            final(self).connections == old(self).connections,
    {
        let id = self.next_id;
        self.next_id += 1;
        id.into()
    }

    /// Stores `value` under a handle that this graph has not issued before.
    pub fn insert(&mut self, value: Node<T>) -> (id: NodeID)
        requires
            old(self)@.well_formed(),
            old(self)@.next_id < i32::MAX,
        ensures
            id == NodeID(old(self)@.next_id),
            !old(self)@.nodes.contains_key(id),
            final(self)@ == old(self)@.insert(value),
            final(self)@.well_formed(),
    {
        let id = self.get_next_id();
        self.nodes.insert(id.0, value);
        assert(final(self)@.nodes =~= old(self)@.insert(value).nodes);
        return id;
    }

    /// Appends one directed edge. Neither endpoint is looked up. An edge of
    /// weight `INFINITY` is as good as absent.
    pub fn connect(&mut self, from_id: NodeID, to_id: NodeID, weight: u64)
        ensures
            final(self)@ == old(self)@.connect(from_id, to_id, weight),
    {
        self.connections.push((from_id, to_id, weight));
    }

    /// Appends the edge `from_id -> to_id` and then the edge `to_id -> from_id`,
    /// both with the same weight.
    pub fn connect_bidirectionally(&mut self, from_id: NodeID, to_id: NodeID, weight: u64)
        ensures
            final(self)@ == old(self)@.connect_bidirectionally(from_id, to_id, weight),
    {
        self.connect(from_id, to_id, weight);
        self.connect(to_id, from_id, weight);
    }

    /// The least total weight of a directed walk from `from_id` to `to_id`,
    /// by Dijkstra's search. A node is at distance zero from itself, and at
    /// `INFINITY` from a node that no walk reaches.
    pub fn shortest_distance(&self, from_id: NodeID, to_id: NodeID) -> (distance: u64)
        ensures
            distance == self@.shortest_distance(from_id, to_id),
            walk::is_shortest_distance(self@.connections, from_id, to_id, distance),
    {
        let distance = dijkstra::search(&self.connections, from_id, to_id);
        proof {
            walk::lemma_shortest_distance_is(self@.connections, from_id, to_id, distance);
        }
        distance
    }

    /// The node stored under `id`, if this graph issued that handle.
    pub fn get_node(&self, id: &NodeID) -> (node: Option<&Node<T>>)
        ensures
            node == (if self@.nodes.contains_key(*id) {
                Some(&self@.nodes[*id])
            } else {
                None
            }),
    {
        self.nodes.get(&id.0)
    }

    /// Walks every stored node once, in no promised order.
    pub fn iter<'a>(&'a self) -> (entries: Iter<'a, T>)
        requires
            self@.well_formed(),
        ensures
            entries.well_formed(),
            entries.remaining().no_duplicates(),
            entries.remaining().to_set() == self@.entries(),
    {
        let entries = Iter { graph: self, next: 0 };
        proof {
            let seq = entries.remaining();
            assert forall|i: int, j: int| 0 <= i < seq.len() && 0 <= j < seq.len() && i != j implies seq[i]
                != seq[j] by {
                assert(seq[i].0 == NodeID(i as i32));
                assert(seq[j].0 == NodeID(j as i32));
            }
            assert forall|p: (NodeID, Node<T>)| seq.to_set().contains(p) <==> self@.entries().contains(
                p,
            ) by {
                if seq.to_set().contains(p) {
                    let i = choose|i: int| 0 <= i < seq.len() && seq[i] == p;
                    assert(self@.nodes.contains_key(NodeID(i as i32)));
                }
                if self@.entries().contains(p) {
                    assert(seq[p.0.0 as int] == p);
                }
            }
            assert(seq.to_set() =~= self@.entries());
        }
        entries
    }

    /// The node stored under `id`, for changing its value in place.
    pub fn get_node_mut(&mut self, id: &NodeID) -> (node: Option<&mut Node<T>>)
        ensures
            match node {
                Some(n) => {
                    &&& old(self)@.nodes.contains_key(*id)
                    &&& *n == old(self)@.nodes[*id]
                    &&& final(self)@.nodes =~= old(self)@.nodes.insert(*id, *final(n))
                },
                None => {
                    &&& !old(self)@.nodes.contains_key(*id)
                    &&& final(self)@.nodes =~= old(self)@.nodes
                },
            },
            final(self)@.nodes.dom() =~= old(self)@.nodes.dom(),
            final(self)@.connections == old(self)@.connections,
            final(self)@.next_id == old(self)@.next_id,
    {
        match self.nodes.entry(id.0) {
            Entry::Occupied(entry) => {
                Some(entry.into_mut())
            },
            Entry::Vacant(_) => None,
        }
    }
}

/// An iterator of the Nodes of a Graph
pub struct Iter<'a, T> {
    graph: &'a Graph<T>,
    next: i32,
}

impl<'a, T> Iter<'a, T> {
    /// The entries that are still to come, in the order in which `next`
    /// will hand them out.
    pub closed spec fn remaining(&self) -> Seq<(NodeID, Node<T>)> {
        Seq::new(
            (self.graph.next_id - self.next) as nat,
            |i: int| (NodeID((self.next + i) as i32), self.graph.nodes@[(self.next + i) as i32]),
        )
    }

    /// The iterator walks a well-formed graph and has not run past its end.
    pub closed spec fn well_formed(&self) -> bool {
        &&& self.graph@.well_formed()
        &&& 0 <= self.next <= self.graph.next_id
    }

    /// Hands out the next entry, or `None` once every node has been seen.
    pub fn next(&mut self) -> (item: Option<(NodeID, &'a Node<T>)>)
        requires
            old(self).well_formed(),
        ensures
            final(self).well_formed(),
            match item {
                Some((id, node)) => {
                    &&& old(self).remaining().len() > 0
                    &&& (id, *node) == old(self).remaining()[0]
                    &&& final(self).remaining() == old(self).remaining().drop_first()
                },
                None => {
                    &&& old(self).remaining().len() == 0
                    &&& final(self).remaining() == old(self).remaining()
                },
            },
    {
        if self.next >= self.graph.next_id {
            return None;
        }
        let key = self.next;
        assert(self.graph@.nodes.contains_key(NodeID(key)));
        match self.graph.nodes.get(&key) {
            Some(node) => {
                self.next = self.next + 1;
                assert(final(self).remaining() =~= old(self).remaining().drop_first());
                Some((NodeID(key), node))
            },
            None => None,
        }
    }
}

} // verus!
