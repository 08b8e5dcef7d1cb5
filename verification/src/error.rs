//! Why a definition was turned down.

use crate::text::{line_column, line_column_of};
use vstd::prelude::*;
use vstd::string::StringExecFns;

verus! {

/// What the reader of a definition was waiting for when it gave up.
#[derive(Debug, Clone, Copy, PartialEq, Eq, Structural)]
pub enum Expected {
    /// A node name.
    Identifier,
    /// The `=` between a node's name and its value.
    Equals,
    /// The value of a node.
    Value,
    /// The bracket or quote that closes what a value opened.
    ClosingDelimiter,
    /// The `,` or `;` between two declarations.
    Separator,
    /// The `:` after a block's keyword.
    Colon,
    /// The `{` that opens a block.
    OpenBrace,
    /// The `}` that closes a block.
    CloseBrace,
    /// The `->` or `<->` of a connection.
    Arrow,
    /// The weight of a connection, as digits with a decimal point.
    Weight,
    /// The `connections` block or the end of the definition.
    End,
}

/// A definition that cannot be turned into a graph, with the place in its
/// text, counted in characters, at which the defect shows.
#[derive(Debug, Clone)]
pub enum GraphError {
    /// The text has none of the accepted forms.
    Syntax { at: usize, expected: Expected },
    /// A node name is declared a second time.
    DuplicateNode { name: String, at: usize },
    /// A connection names a node that the `nodes` block does not declare.
    UndefinedNode { name: String, at: usize },
    /// The definition declares more nodes than a graph has handles for.
    TooManyNodes { at: usize },
}

/// A `GraphError` as mathematics.
pub enum GraphErrorView {
    Syntax { at: int, expected: Expected },
    DuplicateNode { name: Seq<char>, at: int },
    UndefinedNode { name: Seq<char>, at: int },
    TooManyNodes { at: int },
}

impl View for GraphError {
    type V = GraphErrorView;

    open spec fn view(&self) -> GraphErrorView {
        match *self {
            GraphError::Syntax { at, expected } => GraphErrorView::Syntax { at: at as int, expected },
            GraphError::DuplicateNode { name, at } => GraphErrorView::DuplicateNode {
                name: name@,
                at: at as int,
            },
            GraphError::UndefinedNode { name, at } => GraphErrorView::UndefinedNode {
                name: name@,
                at: at as int,
            },
            GraphError::TooManyNodes { at } => GraphErrorView::TooManyNodes { at: at as int },
        }
    }
}

impl Expected {
    /// The words for what was expected.
    pub open spec fn spec_describe(self) -> Seq<char> {
        match self {
            Expected::Identifier => "expected identifier"@,
            Expected::Equals => "expected `=`"@,
            Expected::Value => "expected a value"@,
            Expected::ClosingDelimiter => "expected a closing delimiter"@,
            Expected::Separator => "expected `,` or `;`"@,
            Expected::Colon => "expected `:`"@,
            Expected::OpenBrace => "expected `{`"@,
            Expected::CloseBrace => "expected `}`"@,
            Expected::Arrow => "expected `->` or `<->` connection"@,
            Expected::Weight => "expected a weight with a decimal point"@,
            Expected::End => "expected `connections` or the end of the definition"@,
        }
    }

    /// The words for what was expected.
    pub fn describe(self) -> (words: &'static str)
        ensures
            words@ == self.spec_describe(),
    {
        match self {
            Expected::Identifier => "expected identifier",
            Expected::Equals => "expected `=`",
            Expected::Value => "expected a value",
            Expected::ClosingDelimiter => "expected a closing delimiter",
            Expected::Separator => "expected `,` or `;`",
            Expected::Colon => "expected `:`",
            Expected::OpenBrace => "expected `{`",
            Expected::CloseBrace => "expected `}`",
            Expected::Arrow => "expected `->` or `<->` connection",
            Expected::Weight => "expected a weight with a decimal point",
            Expected::End => "expected `connections` or the end of the definition",
        }
    }
}

impl GraphErrorView {
    /// Where in the definition the defect shows, in characters from its
    /// start.
    pub open spec fn at(self) -> int {
        match self {
            GraphErrorView::Syntax { at, .. } => at,
            GraphErrorView::DuplicateNode { at, .. } => at,
            GraphErrorView::UndefinedNode { at, .. } => at,
            GraphErrorView::TooManyNodes { at } => at,
        }
    }

    /// The sentence that `GraphError::message` returns.
    pub open spec fn message(self) -> Seq<char> {
        match self {
            GraphErrorView::Syntax { expected, .. } => expected.spec_describe(),
            GraphErrorView::DuplicateNode { name, .. } => "Duplicate node identifier: `"@ + name + "`"@,
            GraphErrorView::UndefinedNode { name, .. } => "Node '"@ + name + "' not defined in `nodes` block."@,
            GraphErrorView::TooManyNodes { .. } => "Too many nodes for one graph."@,
        }
    }
}

impl GraphError {
    /// Where in the definition the defect shows, in characters from its
    /// start.
    pub fn at(&self) -> (at: usize)
        ensures
            at == self@.at(),
    {
        match self {
            GraphError::Syntax { at, .. } => *at,
            GraphError::DuplicateNode { at, .. } => *at,
            GraphError::UndefinedNode { at, .. } => *at,
            GraphError::TooManyNodes { at } => *at,
        }
    }

    /// The line and the column of `text`, both counted from zero, at which
    /// the defect shows, where `text` is the definition that was read.
    pub fn line_column(&self, text: &str) -> (place: (usize, usize))
        ensures
            (place.0 as int, place.1 as int) == line_column_of(text@, self@.at()),
    {
        line_column(text, self.at())
    }

    /// A sentence for the reader of the definition; it names the offending
    /// node where there is one.
    pub fn message(&self) -> (sentence: String)
        ensures
            sentence@ == self@.message(),
    {
        match self {
            GraphError::Syntax { expected, .. } => String::from_str(expected.describe()),
            GraphError::DuplicateNode { name, .. } => {
                let mut sentence = String::from_str("Duplicate node identifier: `");
                sentence.append(name.as_str());
                sentence.append("`");
                sentence
            },
            GraphError::UndefinedNode { name, .. } => {
                let mut sentence = String::from_str("Node '");
                sentence.append(name.as_str());
                sentence.append("' not defined in `nodes` block.");
                sentence
            },
            GraphError::TooManyNodes { .. } => String::from_str("Too many nodes for one graph."),
        }
    }
}

} // verus!
