use vstd::prelude::*;

verus! {

/// Errors reported by the parser. Every detected violation is a hard stop:
/// the parse is aborted and the error is returned as a value.
#[derive(Debug, Clone, PartialEq)]
pub enum FlowParseError {
    /// The line has no separable prefix/contents structure (it contains no
    /// delimiter at all once an optional trailing delimiter is stripped).
    /// Carries the offending line.
    MalformedLine(String),
    /// A prefix is referenced that was never declared in the schema.
    /// Carries the undeclared prefix.
    UnknownPrefix(String),
    /// An incoming prefix cannot be attached under any currently open
    /// ancestor, including the root. Carries the orphaned prefix.
    NoValidParent(String),
}

/// Mathematical model of a `FlowParseError`: the same three kinds, each
/// carrying the view of its datum.
pub enum ParseErrorView {
    MalformedLine(Seq<char>),
    UnknownPrefix(Seq<char>),
    NoValidParent(Seq<char>),
}

impl View for FlowParseError {
    type V = ParseErrorView;

    open spec fn view(&self) -> ParseErrorView {
        match self {
            FlowParseError::MalformedLine(l) => ParseErrorView::MalformedLine(l@),
            FlowParseError::UnknownPrefix(p) => ParseErrorView::UnknownPrefix(p@),
            FlowParseError::NoValidParent(p) => ParseErrorView::NoValidParent(p@),
        }
    }
}

} // verus!
