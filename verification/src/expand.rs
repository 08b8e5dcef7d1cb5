//! From a definition that has been read to a graph: the checks that every
//! definition has to pass, and the construction of the graph.

use crate::ast::{
    connection_views, ConnectionDef, ConnectionDefView, GraphInput, GraphInputView, Ident, IdentView, NodeDef,
};
use crate::error::{GraphError, GraphErrorView};
use crate::graph::{Connection, Graph, GraphView, Node, NodeID, UNIT};
use vstd::prelude::*;

verus! {

/// The largest number of nodes that one graph can hold.
pub const MAX_NODES: usize = 0x7fff_ffff;

/// `names[j]` repeats an earlier name, and no name before it does.
pub open spec fn is_first_repeat(names: Seq<Seq<char>>, j: int) -> bool {
    &&& 0 <= j < names.len()
    &&& names.take(j).no_duplicates()
    &&& names.take(j).contains(names[j])
}

/// The place of the first name that repeats an earlier one, if any name
/// does.
pub open spec fn first_repeat(names: Seq<Seq<char>>) -> Option<int> {
    if exists|j: int| is_first_repeat(names, j) {
        Some(choose|j: int| is_first_repeat(names, j))
    } else {
        None
    }
}

/// The names that the connections use, in the order in which they are
/// written: of each connection its source and then its destination.
pub open spec fn references(connections: Seq<ConnectionDefView>) -> Seq<IdentView> {
    Seq::new(
        2 * connections.len(),
        |r: int|
            if r % 2 == 0 {
                connections[r / 2].from
            } else {
                connections[r / 2].to
            },
    )
}

/// `references[r]` is not among `names`, and every reference before it is.
pub open spec fn is_first_undefined(names: Seq<Seq<char>>, references: Seq<IdentView>, r: int) -> bool {
    &&& 0 <= r < references.len()
    &&& !names.contains(references[r].name)
    &&& forall|earlier: int| 0 <= earlier < r ==> names.contains(#[trigger] references[earlier].name)
}

/// The place of the first reference to a name that is not declared, if
/// there is one.
pub open spec fn first_undefined(names: Seq<Seq<char>>, references: Seq<IdentView>) -> Option<int> {
    if exists|r: int| is_first_undefined(names, references, r) {
        Some(choose|r: int| is_first_undefined(names, references, r))
    } else {
        None
    }
}

/// What is wrong with a definition, if anything: too many nodes; else the
/// first name that is declared twice; else the first connection end that no
/// declaration names.
pub open spec fn defect(input: GraphInputView) -> Option<GraphErrorView> {
    let nodes = input.nodes();
    let names = input.names();
    let references = references(input.connections());
    if nodes.len() > MAX_NODES {
        Some(GraphErrorView::TooManyNodes { at: nodes[MAX_NODES as int].name.at })
    } else if let Some(j) = first_repeat(names) {
        Some(GraphErrorView::DuplicateNode { name: names[j], at: nodes[j].name.at })
    } else if let Some(r) = first_undefined(names, references) {
        Some(GraphErrorView::UndefinedNode { name: references[r].name, at: references[r].at })
    } else {
        None
    }
}

/// At most one place is that of the first repeat.
pub proof fn lemma_first_repeat_unique(names: Seq<Seq<char>>, j: int, k: int)
    requires
        is_first_repeat(names, j),
        is_first_repeat(names, k),
    ensures
        j == k,
{
    if j < k {
        let i = choose|i: int| 0 <= i < names.take(j).len() && names.take(j)[i] == names[j];
        assert(names.take(k)[i] == names.take(k)[j]);
    } else if k < j {
        let i = choose|i: int| 0 <= i < names.take(k).len() && names.take(k)[i] == names[k];
        assert(names.take(j)[i] == names.take(j)[k]);
    }
}

/// At most one place is that of the first undefined reference.
pub proof fn lemma_first_undefined_unique(names: Seq<Seq<char>>, references: Seq<IdentView>, r: int, s: int)
    requires
        is_first_undefined(names, references, r),
        is_first_undefined(names, references, s),
    ensures
        r == s,
{
}

/// The names that `nodes` declare, in order.
pub open spec fn declared_names(nodes: Seq<NodeDef>) -> Seq<Seq<char>> {
    Seq::new(nodes.len(), |i: int| nodes[i].name.name@)
}

/// The place of the first declaration of `name` among `nodes`.
pub fn position_of(nodes: &Vec<NodeDef>, name: &String) -> (found: Option<usize>)
    ensures
        match found {
            Some(i) => {
                &&& i < nodes.len()
                &&& declared_names(nodes@)[i as int] == name@
                &&& !declared_names(nodes@).take(i as int).contains(name@)
            },
            None => !declared_names(nodes@).contains(name@),
        },
{
    let ghost names = declared_names(nodes@);
    let mut i: usize = 0;
    while i < nodes.len()
        invariant
            0 <= i <= nodes.len(),
            names == declared_names(nodes@),
            forall|k: int| 0 <= k < i ==> names[k] != name@,
        decreases nodes.len() - i,
    {
        if nodes[i].name.name == *name {
            return Some(i);
        }
        i = i + 1;
    }
    None
}

/// Looks for a name that is declared twice.
fn check_names(nodes: &Vec<NodeDef>) -> (result: Result<(), GraphError>)
    ensures
        match result {
            Ok(()) => first_repeat(declared_names(nodes@)) is None && declared_names(nodes@).no_duplicates(),
            Err(error) => first_repeat(declared_names(nodes@)) matches Some(j) && error@
                == (GraphErrorView::DuplicateNode {
                name: declared_names(nodes@)[j],
                at: nodes[j].name.at as int,
            }),
        },
{
    let ghost names = declared_names(nodes@);
    let mut j: usize = 0;
    while j < nodes.len()
        invariant
            0 <= j <= nodes.len(),
            names == declared_names(nodes@),
            names.take(j as int).no_duplicates(),
        decreases nodes.len() - j,
    {
        let mut i: usize = 0;
        while i < j
            invariant
                0 <= i <= j < nodes.len(),
                names == declared_names(nodes@),
                names.take(j as int).no_duplicates(),
                forall|k: int| 0 <= k < i ==> names[k] != names[j as int],
            decreases j - i,
        {
            if nodes[i].name.name == nodes[j].name.name {
                proof {
                    assert(names.take(j as int)[i as int] == names[j as int]);
                    assert(is_first_repeat(names, j as int));
                    let first = choose|k: int| is_first_repeat(names, k);
                    lemma_first_repeat_unique(names, j as int, first);
                }
                return Err(
                    GraphError::DuplicateNode { name: nodes[j].name.name.clone(), at: nodes[j].name.at },
                );
            }
            i = i + 1;
        }
        proof {
            let longer = names.take(j + 1);
            assert forall|a: int, b: int| 0 <= a < longer.len() && 0 <= b < longer.len() && a != b implies longer[a]
                != longer[b] by {
                if a < j && b < j {
                    assert(names.take(j as int)[a] != names.take(j as int)[b]);
                }
            }
        }
        j = j + 1;
    }
    proof {
        assert(names.take(nodes.len() as int) =~= names);
        assert forall|k: int| !is_first_repeat(names, k) by {
            if is_first_repeat(names, k) {
                let i = choose|i: int| 0 <= i < names.take(k).len() && names.take(k)[i] == names[k];
                assert(names[i] == names[k]);
            }
        }
    }
    Ok(())
}

/// Looks for a connection end that no declaration names.
fn check_references(nodes: &Vec<NodeDef>, connections: &Vec<ConnectionDef>) -> (result: Result<
    (),
    GraphError,
>)
    ensures
        match result {
            Ok(()) => first_undefined(declared_names(nodes@), references(connection_views(connections@)))
                is None,
            Err(error) => first_undefined(
                declared_names(nodes@),
                references(connection_views(connections@)),
            ) matches Some(r) && error@ == (GraphErrorView::UndefinedNode {
                name: references(connection_views(connections@))[r].name,
                at: references(connection_views(connections@))[r].at,
            }),
        },
{
    let ghost names = declared_names(nodes@);
    let ghost refs = references(connection_views(connections@));
    let mut k: usize = 0;
    while k < connections.len()
        invariant
            0 <= k <= connections.len(),
            names == declared_names(nodes@),
            refs == references(connection_views(connections@)),
            forall|r: int| 0 <= r < 2 * k ==> names.contains(#[trigger] refs[r].name),
        decreases connections.len() - k,
    {
        let source = connections[k].source();
        let target = connections[k].target();
        proof {
            assert(refs[2 * k] == source@);
            assert(refs[2 * k + 1] == target@);
        }
        if position_of(nodes, &source.name).is_none() {
            proof {
                assert(is_first_undefined(names, refs, 2 * k));
                let first = choose|r: int| is_first_undefined(names, refs, r);
                lemma_first_undefined_unique(names, refs, 2 * k, first);
            }
            return Err(GraphError::UndefinedNode { name: source.name.clone(), at: source.at });
        }
        if position_of(nodes, &target.name).is_none() {
            proof {
                assert forall|r: int| 0 <= r < 2 * k + 1 implies names.contains(#[trigger] refs[r].name) by {
                }
                assert(is_first_undefined(names, refs, 2 * k + 1));
                let first = choose|r: int| is_first_undefined(names, refs, r);
                lemma_first_undefined_unique(names, refs, 2 * k + 1, first);
            }
            return Err(GraphError::UndefinedNode { name: target.name.clone(), at: target.at });
        }
        k = k + 1;
    }
    Ok(())
}

/// Checks a definition: it must not declare more nodes than a graph holds nor
/// any name twice, and its connections must use declared names only. The
/// first defect in that order is the one reported.
pub fn validate(input: &GraphInput) -> (result: Result<(), GraphError>)
    ensures
        match result {
            Ok(()) => defect(input@) is None,
            Err(error) => defect(input@) == Some(error@),
        },
{
    match input {
        GraphInput::Empty => {
            proof {
                assert(!exists|j: int| is_first_repeat(input@.names(), j));
                assert(!exists|r: int|
                    is_first_undefined(input@.names(), references(input@.connections()), r));
            }
            Ok(())
        },
        GraphInput::SimpleNodes(nodes) => {
            proof {
                assert(input@.names() =~= declared_names(nodes@));
                assert(!exists|r: int|
                    is_first_undefined(input@.names(), references(input@.connections()), r));
            }
            if nodes.len() > MAX_NODES {
                return Err(GraphError::TooManyNodes { at: nodes[MAX_NODES].name.at });
            }
            check_names(nodes)
        },
        GraphInput::Structured { nodes, connections } => {
            proof {
                assert(input@.names() =~= declared_names(nodes@));
            }
            if nodes.len() > MAX_NODES {
                return Err(GraphError::TooManyNodes { at: nodes[MAX_NODES].name.at });
            }
            check_names(nodes)?;
            check_references(nodes, connections)
        },
    }
}

/// `names[i]` is the first declaration of `name`.
pub open spec fn is_place_of(names: Seq<Seq<char>>, name: Seq<char>, i: int) -> bool {
    &&& 0 <= i < names.len()
    &&& names[i] == name
    &&& !names.take(i).contains(name)
}

/// The handle of the node that `name` declares: handles are issued in the
/// order of the declarations, from zero.
pub open spec fn handle_of(names: Seq<Seq<char>>, name: Seq<char>) -> NodeID {
    NodeID((choose|i: int| is_place_of(names, name, i)) as i32)
}

/// The edges that one connection declaration stands for: one edge, or one
/// in each direction; with the weight one where the declaration gives
/// none.
pub open spec fn edges_of(names: Seq<Seq<char>>, connection: ConnectionDefView) -> Seq<Connection> {
    let from = handle_of(names, connection.from.name);
    let to = handle_of(names, connection.to.name);
    let weight = match connection.weight {
        Some(weight) => weight,
        None => UNIT,
    };
    if connection.undirected {
        seq![(from, to, weight), (to, from, weight)]
    } else {
        seq![(from, to, weight)]
    }
}

/// The edges that the connection declarations stand for, in the order of the
/// declarations.
pub open spec fn emitted_edges(names: Seq<Seq<char>>, connections: Seq<ConnectionDefView>) -> Seq<
    Connection,
>
    decreases connections.len(),
{
    if connections.len() == 0 {
        Seq::empty()
    } else {
        emitted_edges(names, connections.drop_last()) + edges_of(names, connections.last())
    }
}

/// `graph` is the graph that the definition `input` describes: its nodes are
/// the declared values, under handles in the order of the declarations, and
/// its edges are those of the connection declarations, in their order.
pub open spec fn is_graph_of(input: GraphInputView, graph: GraphView<String>) -> bool {
    &&& graph.well_formed()
    &&& graph.next_id == input.nodes().len()
    &&& forall|i: int|
        0 <= i < input.nodes().len() ==> (#[trigger] graph.nodes[NodeID(i as i32)]).value@
            == input.nodes()[i].value
    &&& graph.connections == emitted_edges(input.names(), input.connections())
}

/// `value` is something that `value_of` may return when it is handed
/// `text`.
pub open spec fn is_value_of<T, F: Fn(&str) -> T>(value_of: F, text: Seq<char>, value: T) -> bool {
    exists|written: &str| written@ == text && call_ensures(value_of, (written,), value)
}

/// `graph` is the graph that the definition `input` describes, where
/// `value_of` turns the text of a value into the value that the node holds:
/// its nodes hold what `value_of` makes of the declared values, under
/// handles in the order of the declarations, and its edges are those of the
/// connection declarations, in their order.
pub open spec fn is_graph_with<T, F: Fn(&str) -> T>(
    input: GraphInputView,
    graph: GraphView<T>,
    value_of: F,
) -> bool {
    &&& graph.well_formed()
    &&& graph.next_id == input.nodes().len()
    &&& forall|i: int|
        0 <= i < input.nodes().len() ==> is_value_of(
            value_of,
            input.nodes()[i].value,
            (#[trigger] graph.nodes[NodeID(i as i32)]).value,
        )
    &&& graph.connections == emitted_edges(input.names(), input.connections())
}

/// Inserts the declared values in order.
fn emit_nodes<T, F: Fn(&str) -> T>(graph: &mut Graph<T>, nodes: &Vec<NodeDef>, value_of: &F)
    requires
        old(graph)@ == GraphView::<T>::empty(),
        nodes.len() <= MAX_NODES,
        forall|text: &str| call_requires(*value_of, (text,)),
    ensures
        final(graph)@.well_formed(),
        final(graph)@.next_id == nodes.len(),
        final(graph)@.connections == Seq::<Connection>::empty(),
        forall|i: int|
            0 <= i < nodes.len() ==> is_value_of(
                *value_of,
                nodes[i].value@,
                (#[trigger] final(graph)@.nodes[NodeID(i as i32)]).value,
            ),
{
    let mut i: usize = 0;
    while i < nodes.len()
        invariant
            0 <= i <= nodes.len() <= MAX_NODES,
            graph@.well_formed(),
            graph@.next_id == i,
            graph@.connections == Seq::<Connection>::empty(),
            forall|text: &str| call_requires(*value_of, (text,)),
            forall|k: int|
                0 <= k < i ==> is_value_of(
                    *value_of,
                    nodes[k].value@,
                    (#[trigger] graph@.nodes[NodeID(k as i32)]).value,
                ),
        decreases nodes.len() - i,
    {
        let ghost before = graph@;
        let text = nodes[i].value.as_str();
        let value = value_of(text);
        graph.insert(Node::from(value));
        proof {
            assert(call_ensures(*value_of, (text,), value));
            assert forall|k: int| 0 <= k < i + 1 implies is_value_of(
                *value_of,
                nodes[k].value@,
                (#[trigger] graph@.nodes[NodeID(k as i32)]).value,
            ) by {
                if k < i {
                    assert(graph@.nodes[NodeID(k as i32)] == before.nodes[NodeID(k as i32)]);
                }
            }
        }
        i = i + 1;
    }
}

/// The handle under which the node that `name` declares was inserted.
fn handle(nodes: &Vec<NodeDef>, name: &Ident) -> (id: NodeID)
    requires
        nodes.len() <= MAX_NODES,
        declared_names(nodes@).contains(name@.name),
    ensures
        id == handle_of(declared_names(nodes@), name@.name),
{
    match position_of(nodes, &name.name) {
        Some(i) => {
            proof {
                lemma_place_unique(
                    declared_names(nodes@),
                    name@.name,
                    i as int,
                    choose|k: int| is_place_of(declared_names(nodes@), name@.name, k),
                );
            }
            NodeID(i as i32)
        },
        None => vstd::pervasive::unreached(),
    }
}

/// A name has at most one first declaration.
pub proof fn lemma_place_unique(names: Seq<Seq<char>>, name: Seq<char>, i: int, k: int)
    requires
        is_place_of(names, name, i),
        is_place_of(names, name, k),
    ensures
        i == k,
{
    if i < k {
        assert(names.take(k)[i] == name);
    } else if k < i {
        assert(names.take(i)[k] == name);
    }
}

/// Adds the edges of the connection declarations in order.
fn emit_connections<T>(graph: &mut Graph<T>, nodes: &Vec<NodeDef>, connections: &Vec<ConnectionDef>)
    requires
        old(graph)@.connections == Seq::<Connection>::empty(),
        nodes.len() <= MAX_NODES,
        first_undefined(declared_names(nodes@), references(connection_views(connections@))) is None,
    ensures
        final(graph)@.nodes == old(graph)@.nodes,
        final(graph)@.next_id == old(graph)@.next_id,
        final(graph)@.connections == emitted_edges(declared_names(nodes@), connection_views(connections@)),
{
    let ghost names = declared_names(nodes@);
    let ghost all = connection_views(connections@);
    let ghost refs = references(all);
    let mut k: usize = 0;
    while k < connections.len()
        invariant
            0 <= k <= connections.len(),
            nodes.len() <= MAX_NODES,
            names == declared_names(nodes@),
            all == connection_views(connections@),
            refs == references(all),
            first_undefined(names, refs) is None,
            graph@.nodes == old(graph)@.nodes,
            graph@.next_id == old(graph)@.next_id,
            graph@.connections == emitted_edges(names, all.take(k as int)),
        decreases connections.len() - k,
    {
        let connection = &connections[k];
        let source = connection.source();
        let target = connection.target();
        proof {
            assert(refs[2 * k] == source@);
            assert(refs[2 * k + 1] == target@);
        }
        proof {
            if !names.contains(source@.name) {
                lemma_some_undefined(names, refs, 2 * k);
            }
            if !names.contains(target@.name) {
                lemma_some_undefined(names, refs, 2 * k + 1);
            }
        }
        let from_id = handle(nodes, source);
        let to_id = handle(nodes, target);
        let weight = match connection.weight() {
            Some(weight) => weight,
            None => UNIT,
        };
        graph.connect(from_id, to_id, weight);
        if connection.is_undirected() {
            graph.connect(to_id, from_id, weight);
        }
        proof {
            let longer = all.take(k + 1);
            assert(longer.drop_last() =~= all.take(k as int));
            assert(longer.last() == connection@);
            assert(graph@.connections =~= emitted_edges(names, all.take(k as int)) + edges_of(
                names,
                connection@,
            ));
        }
        k = k + 1;
    }
    proof {
        assert(all.take(connections.len() as int) =~= all);
    }
}

/// Where some reference is undefined, there is a first one.
proof fn lemma_some_undefined(names: Seq<Seq<char>>, references: Seq<IdentView>, r: int)
    requires
        0 <= r < references.len(),
        !names.contains(references[r].name),
    ensures
        first_undefined(names, references) is Some,
    decreases r,
{
    if exists|earlier: int| 0 <= earlier < r && !names.contains(#[trigger] references[earlier].name) {
        let earlier = choose|earlier: int|
            0 <= earlier < r && !names.contains(#[trigger] references[earlier].name);
        lemma_some_undefined(names, references, earlier);
    } else {
        assert(is_first_undefined(names, references, r));
    }
}

/// Builds the graph that a definition without defect describes: every node
/// is inserted in the order of the declarations, with the value that
/// `value_of` makes of the declared text; then every connection is made in
/// the order of the declarations, a two-way one as the edge from its first
/// node to its second and then the edge back.
pub fn emit_with<T, F: Fn(&str) -> T>(input: &GraphInput, value_of: F) -> (graph: Graph<T>)
    requires
        defect(input@) is None,
        forall|text: &str| call_requires(value_of, (text,)),
    ensures
        is_graph_with(input@, graph@, value_of),
{
    let mut graph = Graph::new();
    match input {
        GraphInput::Empty => {},
        GraphInput::SimpleNodes(nodes) => {
            emit_nodes(&mut graph, nodes, &value_of);
        },
        GraphInput::Structured { nodes, connections } => {
            proof {
                assert(input@.names() =~= declared_names(nodes@));
            }
            emit_nodes(&mut graph, nodes, &value_of);
            emit_connections(&mut graph, nodes, connections);
        },
    }
    graph
}

/// Builds the graph that a definition without defect describes, each node
/// holding the text of its value.
pub fn emit(input: &GraphInput) -> (graph: Graph<String>)
    requires
        defect(input@) is None,
    ensures
        is_graph_of(input@, graph@),
{
    let keep = |text: &str| -> (value: String)
        ensures
            value@ == text@,
        { text.to_owned() };
    emit_with(input, keep)
}

/// Turns a definition that has been read into its graph, or reports its
/// first defect; `value_of` makes each node's value of the text that
/// declares it. No graph is built from a definition that has a defect.
pub fn expand<T, F: Fn(&str) -> T>(input: &GraphInput, value_of: F) -> (result: Result<
    Graph<T>,
    GraphError,
>)
    requires
        forall|text: &str| call_requires(value_of, (text,)),
    ensures
        match result {
            Ok(graph) => defect(input@) is None && is_graph_with(input@, graph@, value_of),
            Err(error) => defect(input@) == Some(error@),
        },
{
    match validate(input) {
        Ok(()) => Ok(emit_with(input, value_of)),
        Err(error) => Err(error),
    }
}

/// Turns a definition that has been read into its graph, each node holding
/// the text of its value, or reports its first defect. No graph is built
/// from a definition that has one.
pub fn proc_macro(input: &GraphInput) -> (result: Result<Graph<String>, GraphError>)
    ensures
        match result {
            Ok(graph) => defect(input@) is None && is_graph_of(input@, graph@),
            Err(error) => defect(input@) == Some(error@),
        },
{
    match validate(input) {
        Ok(()) => Ok(emit(input)),
        Err(error) => Err(error),
    }
}

/// Where some name repeats an earlier one, there is a first such name.
pub proof fn lemma_some_repeat(names: Seq<Seq<char>>, i: int, j: int)
    requires
        0 <= i < j < names.len(),
        names[i] == names[j],
    ensures
        first_repeat(names) matches Some(first) && is_first_repeat(names, first) && first <= j,
    decreases j,
{
    if names.take(j).no_duplicates() {
        assert(names.take(j)[i] == names[j]);
        assert(is_first_repeat(names, j));
        lemma_first_repeat_unique(names, j, choose|k: int| is_first_repeat(names, k));
    } else {
        let (a, b) = choose|a: int, b: int|
            0 <= a < names.take(j).len() && 0 <= b < names.take(j).len() && a != b && names.take(j)[a]
                == names.take(j)[b];
        if a < b {
            lemma_some_repeat(names, a, b);
        } else {
            lemma_some_repeat(names, b, a);
        }
    }
}

/// A definition in which a name is declared twice is turned down, wherever
/// in the list the two declarations stand, and the error names the first
/// declaration that repeats an earlier one.
pub proof fn lemma_repeated_name_is_rejected(input: GraphInputView, i: int, j: int)
    requires
        input.nodes().len() <= MAX_NODES,
        0 <= i < j < input.nodes().len(),
        input.nodes()[i].name.name == input.nodes()[j].name.name,
    ensures
        first_repeat(input.names()) matches Some(first) && is_first_repeat(input.names(), first)
            && first <= j && defect(input) == Some(
            GraphErrorView::DuplicateNode {
                name: input.nodes()[first].name.name,
                at: input.nodes()[first].name.at,
            },
        ),
{
    lemma_some_repeat(input.names(), i, j);
}

/// In a definition without defect every connection leaves a declared node
/// and reaches a declared node; and a definition in which some connection
/// does not is turned down. Since `emit` takes only definitions without
/// defect, no graph is ever begun for such a definition.
pub proof fn lemma_undeclared_name_is_rejected(input: GraphInputView)
    ensures
        defect(input) is None ==> forall|k: int|
            0 <= k < input.connections().len() ==> input.names().contains(
                (#[trigger] input.connections()[k]).from.name,
            ) && input.names().contains(input.connections()[k].to.name),
        (exists|k: int|
            0 <= k < input.connections().len() && !(input.names().contains(
                (#[trigger] input.connections()[k]).from.name,
            ) && input.names().contains(input.connections()[k].to.name))) ==> defect(input) is Some,
{
    let names = input.names();
    let all = input.connections();
    let refs = references(all);
    assert forall|k: int|
        0 <= k < all.len() && !(names.contains((#[trigger] all[k]).from.name) && names.contains(
            all[k].to.name,
        )) implies first_undefined(names, refs) is Some by {
        assert(refs[2 * k] == all[k].from);
        assert(refs[2 * k + 1] == all[k].to);
        if !names.contains(all[k].from.name) {
            lemma_some_undefined(names, refs, 2 * k);
        } else {
            lemma_some_undefined(names, refs, 2 * k + 1);
        }
    }
}

} // verus!
