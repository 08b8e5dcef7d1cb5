//! Weighted directed multigraphs, shortest distances over them, and a small
//! textual notation from which such graphs are built.

pub mod ast;
pub mod error;
pub mod expand;
pub mod graph;
pub mod host;
pub mod lexer;
pub mod text;
pub mod weight;

use crate::ast::{graph_input_of, GraphInput, GraphInputView};
use crate::error::{GraphError, GraphErrorView};
use crate::expand::{defect, expand, is_graph_of, is_graph_with};
use crate::graph::Graph;
use crate::text::ParseStream;
use vstd::prelude::*;

verus! {

/// What comes of reading and checking the definition `text`: what it says,
/// or the first error in it. Errors of form come before duplicate names,
/// and those before names that are not declared.
pub open spec fn checked_input(text: Seq<char>) -> Result<GraphInputView, GraphErrorView> {
    match graph_input_of(text) {
        Err(error) => Err(error),
        Ok(definition) => match defect(definition) {
            Some(error) => Err(error),
            None => Ok(definition),
        },
    }
}

/// Reads the definition `input` and expands what it says.
fn graph_impl<T, F: Fn(&str) -> T>(input: &str, value_of: F) -> (result: Result<Graph<T>, GraphError>)
    requires
        forall|text: &str| call_requires(value_of, (text,)),
    ensures
        match result {
            Ok(graph) => checked_input(input@) matches Ok(definition) && is_graph_with(
                definition,
                graph@,
                value_of,
            ),
            Err(error) => checked_input(input@) == Err::<GraphInputView, _>(error@),
        },
{
    let mut stream = ParseStream::new(input);
    match GraphInput::parse(&mut stream) {
        Ok(definition) => expand(&definition, value_of),
        Err(error) => Err(error),
    }
}

/// Builds the graph that the definition `input` describes, in any of its
/// three forms: nothing; `name = value, ...`; or `nodes: { name = value; ... }`
/// with or without `connections: { a -> b: 2.0; c <-> d; ... }` behind it.
/// Each node holds what `value_of` makes of the text of its value. A
/// definition with an error yields that error and no graph.
pub fn graph_with<T, F: Fn(&str) -> T>(input: &str, value_of: F) -> (result: Result<Graph<T>, GraphError>)
    requires
        forall|text: &str| call_requires(value_of, (text,)),
    ensures
        match result {
            Ok(graph) => checked_input(input@) matches Ok(definition) && is_graph_with(
                definition,
                graph@,
                value_of,
            ),
            Err(error) => checked_input(input@) == Err::<GraphInputView, _>(error@),
        },
{
    graph_impl(input, value_of)
}

/// Builds the graph that the definition `input` describes, each node
/// holding the text of its value as it is written.
pub fn graph(input: &str) -> (result: Result<Graph<String>, GraphError>)
    ensures
        match result {
            Ok(graph) => checked_input(input@) matches Ok(definition) && is_graph_of(definition, graph@),
            Err(error) => checked_input(input@) == Err::<GraphInputView, _>(error@),
        },
{
    let keep = |text: &str| -> (value: String)
        ensures
            value@ == text@,
        { text.to_owned() };
    graph_impl(input, keep)
}

} // verus!
