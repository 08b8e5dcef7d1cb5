//! What a definition says, once read: node declarations and connection
//! declarations.

use crate::error::{Expected, GraphError, GraphErrorView};
use crate::host::{is_identifier, rust_identifier};
use crate::text::{
    lemma_skip_spaces, lemma_value_end, lemma_word_end, skip_spaces, trimmed_end, value_end, word_end,
    ParseStream,
};
use crate::weight::{read_weight, weight_at};
use vstd::prelude::*;

verus! {

/// A name as the definition writes it, and where it stands there.
#[derive(Debug, Clone)]
pub struct Ident {
    pub name: String,
    pub at: usize,
}

/// An `Ident` as mathematics.
pub struct IdentView {
    pub name: Seq<char>,
    pub at: int,
}

impl View for Ident {
    type V = IdentView;

    open spec fn view(&self) -> IdentView {
        IdentView { name: self.name@, at: self.at as int }
    }
}

/// `name = value`: the declaration of one node. The value is kept as it is
/// written.
#[derive(Debug, Clone)]
pub struct NodeDef {
    pub name: Ident,
    pub value: String,
}

/// A `NodeDef` as mathematics.
pub struct NodeDefView {
    pub name: IdentView,
    pub value: Seq<char>,
}

impl View for NodeDef {
    type V = NodeDefView;

    open spec fn view(&self) -> NodeDefView {
        NodeDefView { name: self.name@, value: self.value@ }
    }
}

/// The declaration of one connection between two declared nodes.
#[derive(Debug, Clone)]
pub enum ConnectionDef {
    /// `from -> to`, with `: weight` where one is given.
    Directed { from: Ident, to: Ident, weight: Option<u64> },
    /// `from <-> to`, with `: weight` where one is given.
    Undirected { from: Ident, to: Ident, weight: Option<u64> },
}

/// A `ConnectionDef` as mathematics.
pub struct ConnectionDefView {
    pub from: IdentView,
    pub to: IdentView,
    pub weight: Option<u64>,
    pub undirected: bool,
}

impl View for ConnectionDef {
    type V = ConnectionDefView;

    open spec fn view(&self) -> ConnectionDefView {
        match *self {
            ConnectionDef::Directed { from, to, weight } => ConnectionDefView {
                from: from@,
                to: to@,
                weight,
                undirected: false,
            },
            ConnectionDef::Undirected { from, to, weight } => ConnectionDefView {
                from: from@,
                to: to@,
                weight,
                undirected: true,
            },
        }
    }
}

/// A whole definition, in one of its three forms.
#[derive(Debug, Clone)]
pub enum GraphInput {
    /// Nothing at all.
    Empty,
    /// `name = value, name = value, ...`
    SimpleNodes(Vec<NodeDef>),
    /// `nodes: { ... }`, and `connections: { ... }` where there is one.
    Structured { nodes: Vec<NodeDef>, connections: Vec<ConnectionDef> },
}

/// A `GraphInput` as mathematics.
pub enum GraphInputView {
    Empty,
    SimpleNodes(Seq<NodeDefView>),
    Structured { nodes: Seq<NodeDefView>, connections: Seq<ConnectionDefView> },
}

/// The views of the node declarations in `nodes`.
pub open spec fn node_views(nodes: Seq<NodeDef>) -> Seq<NodeDefView> {
    Seq::new(nodes.len(), |i: int| nodes[i]@)
}

/// The views of the connection declarations in `connections`.
pub open spec fn connection_views(connections: Seq<ConnectionDef>) -> Seq<ConnectionDefView> {
    Seq::new(connections.len(), |i: int| connections[i]@)
}

impl View for GraphInput {
    type V = GraphInputView;

    open spec fn view(&self) -> GraphInputView {
        match *self {
            GraphInput::Empty => GraphInputView::Empty,
            GraphInput::SimpleNodes(nodes) => GraphInputView::SimpleNodes(node_views(nodes@)),
            GraphInput::Structured { nodes, connections } => GraphInputView::Structured {
                nodes: node_views(nodes@),
                connections: connection_views(connections@),
            },
        }
    }
}

impl GraphInputView {
    /// The node declarations, in the order of the definition.
    pub open spec fn nodes(self) -> Seq<NodeDefView> {
        match self {
            GraphInputView::Empty => Seq::empty(),
            GraphInputView::SimpleNodes(nodes) => nodes,
            GraphInputView::Structured { nodes, .. } => nodes,
        }
    }

    /// The connection declarations, in the order of the definition.
    pub open spec fn connections(self) -> Seq<ConnectionDefView> {
        match self {
            GraphInputView::Structured { connections, .. } => connections,
            _ => Seq::empty(),
        }
    }

    /// The declared names, in the order of the definition.
    pub open spec fn names(self) -> Seq<Seq<char>> {
        Seq::new(self.nodes().len(), |i: int| self.nodes()[i].name.name)
    }
}

/// The syntax error that reports `expected` at `at`.
pub open spec fn syntax_error(at: int, expected: Expected) -> GraphErrorView {
    GraphErrorView::Syntax { at, expected }
}

/// The name that stands at `at`, after any blanks, and the place where it
/// ends: a word that the host language accepts as an identifier.
pub open spec fn ident_at(text: Seq<char>, at: int) -> Result<(IdentView, int), GraphErrorView> {
    let start = skip_spaces(text, at);
    let end = word_end(text, start);
    if end == start || !rust_identifier(text.subrange(start, end)) {
        Err(syntax_error(start, Expected::Identifier))
    } else {
        Ok((IdentView { name: text.subrange(start, end), at: start }, end))
    }
}

/// The node declaration that stands at `at` and the place where it ends:
/// a name, `=`, and a value, which runs up to the next comma, semicolon or
/// closing bracket outside all brackets and strings.
pub open spec fn node_def_at(text: Seq<char>, at: int) -> Result<(NodeDefView, int), GraphErrorView> {
    match ident_at(text, at) {
        Err(error) => Err(error),
        Ok((name, name_end)) => {
            let equals = skip_spaces(text, name_end);
            if !(equals < text.len() && text[equals] == '=') {
                Err(syntax_error(equals, Expected::Equals))
            } else {
                let start = skip_spaces(text, equals + 1);
                match value_end(text, start, 0, false) {
                    None => Err(syntax_error(text.len() as int, Expected::ClosingDelimiter)),
                    Some(end) => {
                        let cut = trimmed_end(text, start, end);
                        if cut == start {
                            Err(syntax_error(start, Expected::Value))
                        } else {
                            Ok((NodeDefView { name, value: text.subrange(start, cut) }, end))
                        }
                    },
                }
            }
        },
    }
}

/// Whether a list of declarations ends at `at`: at the end of the text or
/// at a closing brace.
pub open spec fn list_ends(text: Seq<char>, at: int) -> bool {
    at >= text.len() || text[at] == '}'
}

/// The node declarations that stand at `at`, with `separator` between them
/// and, if one likes, after the last, and the place where the list ends.
pub open spec fn node_list_at(text: Seq<char>, at: int, separator: char) -> Result<
    (Seq<NodeDefView>, int),
    GraphErrorView,
>
    decreases text.len() - at,
{
    let start = skip_spaces(text, at);
    if at < 0 || list_ends(text, start) {
        Ok((Seq::empty(), start))
    } else {
        match node_def_at(text, start) {
            Err(error) => Err(error),
            Ok((node, node_end)) => {
                let next = skip_spaces(text, node_end);
                if list_ends(text, next) {
                    Ok((seq![node], next))
                } else if text[next] != separator {
                    Err(syntax_error(next, Expected::Separator))
                } else {
                    proof {
                        lemma_node_def_at(text, start);
                        lemma_skip_spaces(text, at);
                        lemma_skip_spaces(text, node_end);
                    }
                    match node_list_at(text, next + 1, separator) {
                        Err(error) => Err(error),
                        Ok((rest, end)) => Ok((seq![node] + rest, end)),
                    }
                }
            },
        }
    }
}

/// A name that is read lies inside the text, after the place where the
/// reading began.
pub proof fn lemma_ident_at(text: Seq<char>, at: int)
    requires
        0 <= at <= text.len(),
    ensures
        ident_at(text, at) matches Ok((name, end)) ==> at <= name.at < end <= text.len(),
        ident_at(text, at) matches Err(error) ==> at <= error.at() <= text.len(),
{
    lemma_skip_spaces(text, at);
    lemma_word_end(text, skip_spaces(text, at));
}

/// A node declaration that is read ends inside the text, after the place
/// where the reading began.
pub proof fn lemma_node_def_at(text: Seq<char>, at: int)
    requires
        0 <= at <= text.len(),
    ensures
        node_def_at(text, at) matches Ok((node, end)) ==> at < end <= text.len() && at <= node.name.at,
        node_def_at(text, at) matches Err(error) ==> at <= error.at() <= text.len(),
{
    lemma_ident_at(text, at);
    if let Ok((name, name_end)) = ident_at(text, at) {
        lemma_skip_spaces(text, name_end);
        let equals = skip_spaces(text, name_end);
        if equals < text.len() && text[equals] == '=' {
            lemma_skip_spaces(text, equals + 1);
            lemma_value_end(text, skip_spaces(text, equals + 1), 0, false);
        }
    }
}

/// Whether `->` stands at `at`.
pub open spec fn arrow_at(text: Seq<char>, at: int) -> bool {
    0 <= at && at + 1 < text.len() && text[at] == '-' && text[at + 1] == '>'
}

/// Whether `<->` stands at `at`.
pub open spec fn double_arrow_at(text: Seq<char>, at: int) -> bool {
    0 <= at && at + 2 < text.len() && text[at] == '<' && text[at + 1] == '-' && text[at + 2] == '>'
}

/// The connection declaration that stands at `at` and the place where it
/// ends: a name, `->` or `<->`, a name and, where a colon follows, a weight.
pub open spec fn connection_def_at(text: Seq<char>, at: int) -> Result<
    (ConnectionDefView, int),
    GraphErrorView,
> {
    match ident_at(text, at) {
        Err(error) => Err(error),
        Ok((from, from_end)) => {
            let arrow = skip_spaces(text, from_end);
            if !arrow_at(text, arrow) && !double_arrow_at(text, arrow) {
                Err(syntax_error(arrow, Expected::Arrow))
            } else {
                let undirected = !arrow_at(text, arrow);
                let after = if undirected {
                    arrow + 3
                } else {
                    arrow + 2
                };
                match ident_at(text, after) {
                    Err(error) => Err(error),
                    Ok((to, to_end)) => {
                        let colon = skip_spaces(text, to_end);
                        if colon < text.len() && text[colon] == ':' {
                            let start = skip_spaces(text, colon + 1);
                            match weight_at(text, start) {
                                None => Err(syntax_error(start, Expected::Weight)),
                                Some((units, end)) => Ok(
                                    (ConnectionDefView { from, to, weight: Some(units), undirected }, end),
                                ),
                            }
                        } else {
                            Ok((ConnectionDefView { from, to, weight: None, undirected }, colon))
                        }
                    },
                }
            }
        },
    }
}

/// The connection declarations that stand at `at`, with a semicolon between
/// them and, if one likes, after the last, and the place where the list
/// ends.
pub open spec fn connection_list_at(text: Seq<char>, at: int) -> Result<
    (Seq<ConnectionDefView>, int),
    GraphErrorView,
>
    decreases text.len() - at,
{
    let start = skip_spaces(text, at);
    if at < 0 || list_ends(text, start) {
        Ok((Seq::empty(), start))
    } else {
        match connection_def_at(text, start) {
            Err(error) => Err(error),
            Ok((connection, connection_end)) => {
                let next = skip_spaces(text, connection_end);
                if list_ends(text, next) {
                    Ok((seq![connection], next))
                } else if text[next] != ';' {
                    Err(syntax_error(next, Expected::Separator))
                } else {
                    proof {
                        lemma_connection_def_at(text, start);
                        lemma_skip_spaces(text, at);
                        lemma_skip_spaces(text, connection_end);
                    }
                    match connection_list_at(text, next + 1) {
                        Err(error) => Err(error),
                        Ok((rest, end)) => Ok((seq![connection] + rest, end)),
                    }
                }
            },
        }
    }
}

/// A connection declaration that is read ends inside the text, after the
/// place where the reading began.
pub proof fn lemma_connection_def_at(text: Seq<char>, at: int)
    requires
        0 <= at <= text.len(),
    ensures
        connection_def_at(text, at) matches Ok((connection, end)) ==> at < end <= text.len(),
{
    lemma_ident_at(text, at);
    if let Ok((from, from_end)) = ident_at(text, at) {
        lemma_skip_spaces(text, from_end);
        let arrow = skip_spaces(text, from_end);
        if arrow_at(text, arrow) || double_arrow_at(text, arrow) {
            let after = if !arrow_at(text, arrow) {
                arrow + 3
            } else {
                arrow + 2
            };
            lemma_ident_at(text, after);
            if let Ok((to, to_end)) = ident_at(text, after) {
                lemma_skip_spaces(text, to_end);
                let colon = skip_spaces(text, to_end);
                if colon < text.len() && text[colon] == ':' {
                    lemma_skip_spaces(text, colon + 1);
                    let start = skip_spaces(text, colon + 1);
                    crate::text::lemma_digits_end(text, start);
                    let point = crate::text::digits_end(text, start);
                    if point < text.len() {
                        crate::text::lemma_digits_end(text, point + 1);
                    }
                }
            }
        }
    }
}

/// The letters of the keyword that opens the block of nodes.
pub open spec fn nodes_keyword() -> Seq<char> {
    seq!['n', 'o', 'd', 'e', 's']
}

/// The letters of the keyword that opens the block of connections.
pub open spec fn connections_keyword() -> Seq<char> {
    seq!['c', 'o', 'n', 'n', 'e', 'c', 't', 'i', 'o', 'n', 's']
}

/// Where the block of nodes begins, if the text at `at` is the word `nodes`,
/// a colon and an opening brace, with or without blanks between them.
pub open spec fn nodes_header_at(text: Seq<char>, at: int) -> Option<int> {
    let end = word_end(text, at);
    let colon = skip_spaces(text, end);
    let brace = skip_spaces(text, colon + 1);
    if text.subrange(at, end) == nodes_keyword() && colon < text.len() && text[colon] == ':' && brace
        < text.len() && text[brace] == '{' {
        Some(brace + 1)
    } else {
        None
    }
}

/// What follows the block of nodes from `at` on: nothing, or the block of
/// connections and then nothing.
pub open spec fn connections_block_at(text: Seq<char>, at: int) -> Result<
    Seq<ConnectionDefView>,
    GraphErrorView,
> {
    let start = skip_spaces(text, at);
    let end = word_end(text, start);
    let colon = skip_spaces(text, end);
    let brace = skip_spaces(text, colon + 1);
    if start >= text.len() {
        Ok(Seq::empty())
    } else if text.subrange(start, end) != connections_keyword() {
        Err(syntax_error(start, Expected::End))
    } else if !(colon < text.len() && text[colon] == ':') {
        Err(syntax_error(colon, Expected::Colon))
    } else if !(brace < text.len() && text[brace] == '{') {
        Err(syntax_error(brace, Expected::OpenBrace))
    } else {
        match connection_list_at(text, brace + 1) {
            Err(error) => Err(error),
            Ok((connections, close)) => {
                if close >= text.len() {
                    Err(syntax_error(close, Expected::CloseBrace))
                } else if skip_spaces(text, close + 1) < text.len() {
                    Err(syntax_error(skip_spaces(text, close + 1), Expected::End))
                } else {
                    Ok(connections)
                }
            },
        }
    }
}

/// What the definition `text` says, read from `at` on. An empty text is the
/// empty definition; a text that begins with `nodes`, a colon and a brace
/// has the structured form; any other text is a list of node declarations
/// with commas between them.
pub open spec fn graph_input_at(text: Seq<char>, at: int) -> Result<GraphInputView, GraphErrorView> {
    let start = skip_spaces(text, at);
    if start >= text.len() {
        Ok(GraphInputView::Empty)
    } else {
        match nodes_header_at(text, start) {
            Some(body) => match node_list_at(text, body, ';') {
                Err(error) => Err(error),
                Ok((nodes, close)) => {
                    if close >= text.len() {
                        Err(syntax_error(close, Expected::CloseBrace))
                    } else {
                        match connections_block_at(text, close + 1) {
                            Err(error) => Err(error),
                            Ok(connections) => Ok(GraphInputView::Structured { nodes, connections }),
                        }
                    }
                },
            },
            None => match node_list_at(text, start, ',') {
                Err(error) => Err(error),
                Ok((nodes, end)) => {
                    if end < text.len() {
                        Err(syntax_error(end, Expected::End))
                    } else {
                        Ok(GraphInputView::SimpleNodes(nodes))
                    }
                },
            },
        }
    }
}

/// What the definition `text` says.
pub open spec fn graph_input_of(text: Seq<char>) -> Result<GraphInputView, GraphErrorView> {
    graph_input_at(text, 0)
}

/// Gives up a reading: the stream goes back to `origin`, where the reading
/// began, and `error` is the result.
fn give_up<T>(input: &mut ParseStream, origin: usize, error: GraphError) -> (result: Result<T, GraphError>)
    requires
        old(input).well_formed(),
        origin <= old(input).text().len(),
    ensures
        final(input).well_formed(),
        final(input).text() == old(input).text(),
        final(input).position() == origin,
        result matches Err(given) && given == error,
{
    input.seek(origin);
    Err(error)
}

impl Ident {
    /// The name `word`, found at `at`, where the host language has accepted
    /// it as an identifier; else the error that asks for an identifier
    /// there.
    pub fn new(word: &str, at: usize, accepted: bool) -> (result: Result<Ident, GraphError>)
        ensures
            match result {
                Ok(name) => accepted && name@ == (IdentView { name: word@, at: at as int }),
                Err(error) => !accepted && error@ == syntax_error(at as int, Expected::Identifier),
            },
    {
        if accepted {
            Ok(Ident { name: word.to_owned(), at })
        } else {
            Err(GraphError::Syntax { at, expected: Expected::Identifier })
        }
    }

    /// Reads the name that comes next. Where none stands there, the reading
    /// stays where it was.
    pub fn parse(input: &mut ParseStream) -> (result: Result<Ident, GraphError>)
        requires
            old(input).well_formed(),
        ensures
            final(input).well_formed(),
            final(input).text() == old(input).text(),
            match result {
                Ok(name) => ident_at(old(input).text(), old(input).position()) == Ok::<_, GraphErrorView>(
                    (name@, final(input).position()),
                ),
                Err(error) => ident_at(old(input).text(), old(input).position()) == Err::<
                    (IdentView, int),
                    _,
                >(error@) && final(input).position() == old(input).position(),
            },
    {
        let origin = input.offset();
        input.skip_spaces();
        let at = input.offset();
        let word = input.word();
        let accepted = input.offset() != at && is_identifier(word);
        match Ident::new(word, at, accepted) {
            Ok(name) => Ok(name),
            Err(error) => give_up(input, origin, error),
        }
    }
}

impl NodeDef {
    /// Reads the node declaration that comes next. Where none stands there,
    /// the reading stays where it was.
    pub fn parse(input: &mut ParseStream) -> (result: Result<NodeDef, GraphError>)
        requires
            old(input).well_formed(),
        ensures
            final(input).well_formed(),
            final(input).text() == old(input).text(),
            match result {
                Ok(node) => node_def_at(old(input).text(), old(input).position()) == Ok::<_, GraphErrorView>(
                    (node@, final(input).position()),
                ),
                Err(error) => node_def_at(old(input).text(), old(input).position()) == Err::<
                    (NodeDefView, int),
                    _,
                >(error@) && final(input).position() == old(input).position(),
            },
    {
        let origin = input.offset();
        let name = match Ident::parse(input) {
            Ok(name) => name,
            Err(error) => {
                return give_up(input, origin, error);
            },
        };
        input.skip_spaces();
        if !input.next_is('=') {
            let error = GraphError::Syntax { at: input.offset(), expected: Expected::Equals };
            return give_up(input, origin, error);
        }
        input.advance(1);
        input.skip_spaces();
        let start = input.offset();
        match input.value() {
            None => {
                let error = GraphError::Syntax { at: input.len(), expected: Expected::ClosingDelimiter };
                give_up(input, origin, error)
            },
            Some(cut) => {
                if cut == start {
                    let error = GraphError::Syntax { at: start, expected: Expected::Value };
                    return give_up(input, origin, error);
                }
                let value = input.slice(start, cut).to_owned();
                Ok(NodeDef { name, value })
            },
        }
    }

    /// Reads the node declarations that come next, with `separator` between
    /// them, up to the end of the text or a closing brace. Where the list
    /// has an error, the reading stays where it was.
    pub fn parse_terminated(input: &mut ParseStream, separator: char) -> (result: Result<
        Vec<NodeDef>,
        GraphError,
    >)
        requires
            old(input).well_formed(),
        ensures
            final(input).well_formed(),
            final(input).text() == old(input).text(),
            match result {
                Ok(nodes) => node_list_at(old(input).text(), old(input).position(), separator) == Ok::<
                    _,
                    GraphErrorView,
                >((node_views(nodes@), final(input).position())) && list_ends(
                    final(input).text(),
                    final(input).position(),
                ),
                Err(error) => node_list_at(old(input).text(), old(input).position(), separator) == Err::<
                    (Seq<NodeDefView>, int),
                    _,
                >(error@) && final(input).position() == old(input).position(),
            },
    {
        let origin = input.offset();
        let ghost text = input.text();
        let ghost whole = node_list_at(text, input.position(), separator);
        let mut nodes: Vec<NodeDef> = Vec::new();
        loop
            invariant
                input.well_formed(),
                input.text() == text,
                text == old(input).text(),
                origin == old(input).position(),
                whole == node_list_at(text, old(input).position(), separator),
                whole == (match node_list_at(text, input.position(), separator) {
                    Ok((rest, end)) => Ok::<_, GraphErrorView>((node_views(nodes@) + rest, end)),
                    Err(error) => Err(error),
                }),
            decreases text.len() - input.position(),
        {
            input.skip_spaces();
            if input.is_empty() || input.next_is('}') {
                proof {
                    assert(node_views(nodes@) + Seq::<NodeDefView>::empty() =~= node_views(nodes@));
                }
                return Ok(nodes);
            }
            let ghost start = input.position();
            let ghost before = node_views(nodes@);
            let node = match NodeDef::parse(input) {
                Ok(node) => node,
                Err(error) => {
                    return give_up(input, origin, error);
                },
            };
            proof {
                lemma_node_def_at(text, start);
            }
            nodes.push(node);
            proof {
                assert(node_views(nodes@) =~= before + seq![node@]);
            }
            input.skip_spaces();
            if input.is_empty() || input.next_is('}') {
                return Ok(nodes);
            }
            if !input.next_is(separator) {
                let error = GraphError::Syntax { at: input.offset(), expected: Expected::Separator };
                return give_up(input, origin, error);
            }
            input.advance(1);
            proof {
                let rest = node_list_at(text, input.position(), separator);
                if let Ok((more, end)) = rest {
                    assert(before + (seq![node@] + more) =~= node_views(nodes@) + more);
                }
            }
        }
    }
}

impl ConnectionDef {
    /// The name of the node that the connection leaves.
    pub fn source(&self) -> (name: &Ident)
        ensures
            name@ == self@.from,
    {
        match self {
            ConnectionDef::Directed { from, .. } => from,
            ConnectionDef::Undirected { from, .. } => from,
        }
    }

    /// The name of the node that the connection reaches.
    pub fn target(&self) -> (name: &Ident)
        ensures
            name@ == self@.to,
    {
        match self {
            ConnectionDef::Directed { to, .. } => to,
            ConnectionDef::Undirected { to, .. } => to,
        }
    }

    /// The weight that the declaration gives, if it gives one.
    pub fn weight(&self) -> (weight: Option<u64>)
        ensures
            weight == self@.weight,
    {
        match self {
            ConnectionDef::Directed { weight, .. } => *weight,
            ConnectionDef::Undirected { weight, .. } => *weight,
        }
    }

    /// Whether the connection runs both ways.
    pub fn is_undirected(&self) -> (undirected: bool)
        ensures
            undirected == self@.undirected,
    {
        match self {
            ConnectionDef::Directed { .. } => false,
            ConnectionDef::Undirected { .. } => true,
        }
    }

    /// Reads the connection declaration that comes next. Where none stands
    /// there, the reading stays where it was.
    pub fn parse(input: &mut ParseStream) -> (result: Result<ConnectionDef, GraphError>)
        requires
            old(input).well_formed(),
        ensures
            final(input).well_formed(),
            final(input).text() == old(input).text(),
            match result {
                Ok(connection) => connection_def_at(old(input).text(), old(input).position()) == Ok::<
                    _,
                    GraphErrorView,
                >((connection@, final(input).position())),
                Err(error) => connection_def_at(old(input).text(), old(input).position()) == Err::<
                    (ConnectionDefView, int),
                    _,
                >(error@) && final(input).position() == old(input).position(),
            },
    {
        let origin = input.offset();
        let from = match Ident::parse(input) {
            Ok(from) => from,
            Err(error) => {
                return give_up(input, origin, error);
            },
        };
        input.skip_spaces();
        let directed = input.ahead_is(0, '-') && input.ahead_is(1, '>');
        let undirected = input.ahead_is(0, '<') && input.ahead_is(1, '-') && input.ahead_is(2, '>');
        if directed {
            input.advance(2);
        } else if undirected {
            input.advance(3);
        } else {
            let error = GraphError::Syntax { at: input.offset(), expected: Expected::Arrow };
            return give_up(input, origin, error);
        }
        let to = match Ident::parse(input) {
            Ok(to) => to,
            Err(error) => {
                return give_up(input, origin, error);
            },
        };
        input.skip_spaces();
        let weight = if input.next_is(':') {
            input.advance(1);
            input.skip_spaces();
            match read_weight(input) {
                None => {
                    let error = GraphError::Syntax { at: input.offset(), expected: Expected::Weight };
                    return give_up(input, origin, error);
                },
                Some(units) => Some(units),
            }
        } else {
            None
        };
        if undirected && !directed {
            Ok(ConnectionDef::Undirected { from, to, weight })
        } else {
            Ok(ConnectionDef::Directed { from, to, weight })
        }
    }

    /// Reads the connection declarations that come next, with semicolons
    /// between them, up to the end of the text or a closing brace. Where
    /// the list has an error, the reading stays where it was.
    pub fn parse_terminated(input: &mut ParseStream) -> (result: Result<Vec<ConnectionDef>, GraphError>)
        requires
            old(input).well_formed(),
        ensures
            final(input).well_formed(),
            final(input).text() == old(input).text(),
            match result {
                Ok(connections) => connection_list_at(old(input).text(), old(input).position()) == Ok::<
                    _,
                    GraphErrorView,
                >((connection_views(connections@), final(input).position())) && list_ends(
                    final(input).text(),
                    final(input).position(),
                ),
                Err(error) => connection_list_at(old(input).text(), old(input).position()) == Err::<
                    (Seq<ConnectionDefView>, int),
                    _,
                >(error@) && final(input).position() == old(input).position(),
            },
    {
        let origin = input.offset();
        let ghost text = input.text();
        let ghost whole = connection_list_at(text, input.position());
        let mut connections: Vec<ConnectionDef> = Vec::new();
        loop
            invariant
                input.well_formed(),
                input.text() == text,
                text == old(input).text(),
                origin == old(input).position(),
                whole == connection_list_at(text, old(input).position()),
                whole == (match connection_list_at(text, input.position()) {
                    Ok((rest, end)) => Ok::<_, GraphErrorView>((connection_views(connections@) + rest, end)),
                    Err(error) => Err(error),
                }),
            decreases text.len() - input.position(),
        {
            input.skip_spaces();
            if input.is_empty() || input.next_is('}') {
                proof {
                    assert(connection_views(connections@) + Seq::<ConnectionDefView>::empty()
                        =~= connection_views(connections@));
                }
                return Ok(connections);
            }
            let ghost start = input.position();
            let ghost before = connection_views(connections@);
            let connection = match ConnectionDef::parse(input) {
                Ok(connection) => connection,
                Err(error) => {
                    return give_up(input, origin, error);
                },
            };
            proof {
                lemma_connection_def_at(text, start);
            }
            connections.push(connection);
            proof {
                assert(connection_views(connections@) =~= before + seq![connection@]);
            }
            input.skip_spaces();
            if input.is_empty() || input.next_is('}') {
                return Ok(connections);
            }
            if !input.next_is(';') {
                let error = GraphError::Syntax { at: input.offset(), expected: Expected::Separator };
                return give_up(input, origin, error);
            }
            input.advance(1);
            proof {
                let rest = connection_list_at(text, input.position());
                if let Ok((more, end)) = rest {
                    assert(before + (seq![connection@] + more) =~= connection_views(connections@) + more);
                }
            }
        }
    }
}

impl GraphInput {
    /// Reads what follows the block of nodes: nothing, or the block of
    /// connections and then nothing.
    fn parse_connections_block(input: &mut ParseStream) -> (result: Result<Vec<ConnectionDef>, GraphError>)
        requires
            old(input).well_formed(),
        ensures
            final(input).well_formed(),
            final(input).text() == old(input).text(),
            match result {
                Ok(connections) => connections_block_at(old(input).text(), old(input).position()) == Ok::<
                    _,
                    GraphErrorView,
                >(connection_views(connections@)) && final(input).position() == final(input).text().len(),
                Err(error) => connections_block_at(old(input).text(), old(input).position()) == Err::<
                    Seq<ConnectionDefView>,
                    _,
                >(error@) && final(input).position() == old(input).position(),
            },
    {
        let origin = input.offset();
        input.skip_spaces();
        if input.is_empty() {
            proof {
                assert(connection_views(Seq::<ConnectionDef>::empty()) =~= Seq::<ConnectionDefView>::empty());
            }
            return Ok(Vec::new());
        }
        let start = input.offset();
        let _ = input.word();
        let keyword = vec!['c', 'o', 'n', 'n', 'e', 'c', 't', 'i', 'o', 'n', 's'];
        assert(keyword@ =~= connections_keyword());
        if !input.spells(start, input.offset(), &keyword) {
            let error = GraphError::Syntax { at: start, expected: Expected::End };
            return give_up(input, origin, error);
        }
        input.skip_spaces();
        if !input.next_is(':') {
            let error = GraphError::Syntax { at: input.offset(), expected: Expected::Colon };
            return give_up(input, origin, error);
        }
        input.advance(1);
        input.skip_spaces();
        if !input.next_is('{') {
            let error = GraphError::Syntax { at: input.offset(), expected: Expected::OpenBrace };
            return give_up(input, origin, error);
        }
        input.advance(1);
        let connections = match ConnectionDef::parse_terminated(input) {
            Ok(connections) => connections,
            Err(error) => {
                return give_up(input, origin, error);
            },
        };
        if input.is_empty() {
            let error = GraphError::Syntax { at: input.offset(), expected: Expected::CloseBrace };
            return give_up(input, origin, error);
        }
        input.advance(1);
        input.skip_spaces();
        if !input.is_empty() {
            let error = GraphError::Syntax { at: input.offset(), expected: Expected::End };
            return give_up(input, origin, error);
        }
        Ok(connections)
    }

    /// Reads a whole definition, to the end of the text. Where the text has
    /// an error, the reading stays where it was.
    pub fn parse(input: &mut ParseStream) -> (result: Result<GraphInput, GraphError>)
        requires
            old(input).well_formed(),
        ensures
            final(input).well_formed(),
            final(input).text() == old(input).text(),
            match result {
                Ok(definition) => graph_input_at(old(input).text(), old(input).position()) == Ok::<
                    _,
                    GraphErrorView,
                >(definition@) && final(input).position() == final(input).text().len(),
                Err(error) => graph_input_at(old(input).text(), old(input).position()) == Err::<
                    GraphInputView,
                    _,
                >(error@) && final(input).position() == old(input).position(),
            },
    {
        let origin = input.offset();
        input.skip_spaces();
        if input.is_empty() {
            return Ok(GraphInput::Empty);
        }
        let start = input.offset();
        let _ = input.word();
        let keyword = vec!['n', 'o', 'd', 'e', 's'];
        assert(keyword@ =~= nodes_keyword());
        let mut structured = input.spells(start, input.offset(), &keyword);
        if structured {
            input.skip_spaces();
            structured = input.next_is(':');
        }
        if structured {
            input.advance(1);
            input.skip_spaces();
            structured = input.next_is('{');
        }
        if structured {
            input.advance(1);
            let nodes = match NodeDef::parse_terminated(input, ';') {
                Ok(nodes) => nodes,
                Err(error) => {
                    return give_up(input, origin, error);
                },
            };
            if input.is_empty() {
                let error = GraphError::Syntax { at: input.offset(), expected: Expected::CloseBrace };
                return give_up(input, origin, error);
            }
            input.advance(1);
            match GraphInput::parse_connections_block(input) {
                Ok(connections) => Ok(GraphInput::Structured { nodes, connections }),
                Err(error) => give_up(input, origin, error),
            }
        } else {
            input.seek(start);
            let nodes = match NodeDef::parse_terminated(input, ',') {
                Ok(nodes) => nodes,
                Err(error) => {
                    return give_up(input, origin, error);
                },
            };
            if !input.is_empty() {
                let error = GraphError::Syntax { at: input.offset(), expected: Expected::End };
                return give_up(input, origin, error);
            }
            Ok(GraphInput::SimpleNodes(nodes))
        }
    }
}

} // verus!
