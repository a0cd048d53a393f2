use vstd::prelude::*;

use crate::span::Span;

verus! {

/// The kinds of Daihon tokens.
#[derive(Clone, Copy, Debug, PartialEq, Eq)]
pub enum TokenKind {
    EventHeader,
    SceneHeader,
    HeaderName,
    Newline,
    Identifier,
    Number,
    Time,
    Boolean,
    Keyword,
    Operator,
    At,
    Colon,
    Dot,
    ConditionMarker,
    Arrow,
    DialogueOpen,
    DialogueText,
    DialogueClose,
    DialogueEscape,
    FunctionOpen,
    FunctionClose,
}

/// A lexed token: its kind, the source text it covers, its normalized
/// (half-width) form where the lexer gives one, and its span.
#[derive(Clone, Debug, PartialEq, Eq)]
pub struct Token {
    pub kind: TokenKind,
    pub normalized: Option<String>,
    pub original: String,
    pub span: Span,
}

impl Token {
    /// A token with the given parts.
    pub fn new(kind: TokenKind, original: String, normalized: Option<String>, span: Span) -> (t:
        Token)
        ensures
            t.kind == kind,
            t.original == original,
            t.normalized == normalized,
            t.span == span,
    {
        Token { kind, normalized, original, span }
    }
}

} // verus!
