//! The errors that stop a parse.
use vstd::prelude::*;

verus! {

/// The first problem met in a document; parsing stops there.
#[derive(Debug, PartialEq)]
pub enum ParseError {
    /// A character that cannot stand where it was found inside a tag.
    InvalidSymbol(char),
    /// A `/` inside a tag that is not immediately followed by `>`.
    MalformedSelfClose,
    /// A tag was expected but the text does not start with `<`.
    ExpectedOpenAngle,
    /// A tag whose name is empty.
    EmptyTagName,
    /// A character in a tag name that is not alphabetic.
    InvalidNameCharacter(char),
    /// A closing tag while no element is open.
    UnexpectedClosingTag(String),
    /// A closing tag whose name differs from the innermost open element.
    MismatchedClosingTag { expected: String, found: String },
    /// The input ended with these elements open, innermost first.
    UnclosedTagsAtEof(Vec<String>),
    /// A second top-level element after the root was closed.
    MultipleRootElements,
    /// The input ended inside a tag, or held no tag at all.
    UnexpectedEndOfInput,
}

/// The mathematical value of a [`ParseError`]: its texts as character sequences.
pub enum ErrorView {
    InvalidSymbol(char),
    MalformedSelfClose,
    ExpectedOpenAngle,
    EmptyTagName,
    InvalidNameCharacter(char),
    UnexpectedClosingTag(Seq<char>),
    MismatchedClosingTag { expected: Seq<char>, found: Seq<char> },
    UnclosedTagsAtEof(Seq<Seq<char>>),
    MultipleRootElements,
    UnexpectedEndOfInput,
}

/// The character sequences of a list of strings.
pub open spec fn strings_view(v: Seq<String>) -> Seq<Seq<char>> {
    v.map_values(|s: String| s@)
}

impl View for ParseError {
    type V = ErrorView;

    open spec fn view(&self) -> ErrorView {
        match self {
            ParseError::InvalidSymbol(c) => ErrorView::InvalidSymbol(*c),
            ParseError::MalformedSelfClose => ErrorView::MalformedSelfClose,
            ParseError::ExpectedOpenAngle => ErrorView::ExpectedOpenAngle,
            ParseError::EmptyTagName => ErrorView::EmptyTagName,
            ParseError::InvalidNameCharacter(c) => ErrorView::InvalidNameCharacter(*c),
            ParseError::UnexpectedClosingTag(n) => ErrorView::UnexpectedClosingTag(n@),
            ParseError::MismatchedClosingTag { expected, found } => ErrorView::MismatchedClosingTag {
                expected: expected@,
                found: found@,
            },
            ParseError::UnclosedTagsAtEof(names) => ErrorView::UnclosedTagsAtEof(
                strings_view(names@),
            ),
            ParseError::MultipleRootElements => ErrorView::MultipleRootElements,
            ParseError::UnexpectedEndOfInput => ErrorView::UnexpectedEndOfInput,
        }
    }
}

} // verus!
