//! Lexical tokens.

use vstd::prelude::*;
use vstd::string::StringSliceAdditionalSpecFns;

verus! {

/// What a token is: one of the six structural marks, a string literal or a
/// number literal.
#[derive(Clone, Copy, Debug, PartialEq, Eq, Structural)]
pub enum TokenKind {
    /// `{`
    BeginObject,
    /// `}`
    EndObject,
    /// `[`
    BeginArray,
    /// `]`
    EndArray,
    /// `:`
    Colon,
    /// `,`
    Comma,
    /// A string literal; the token's text is what stands between the quotes.
    Str,
    /// A number literal; the token's text is the literal as written.
    Num,
}

/// One token of a text. `text` borrows from the scanned text and begins at
/// its byte `offset`; nothing is copied.
#[derive(Clone, Copy, Debug, PartialEq, Eq)]
pub struct Token<'a> {
    pub kind: TokenKind,
    pub text: &'a str,
    pub offset: usize,
}

/// A token as contracts see it: its kind, the bytes of its text and where
/// in the scanned text they begin.
pub struct SpecToken {
    pub kind: TokenKind,
    pub text: Seq<u8>,
    pub offset: int,
}

impl<'a> View for Token<'a> {
    type V = SpecToken;

    open spec fn view(&self) -> SpecToken {
        SpecToken { kind: self.kind, text: self.text.spec_bytes(), offset: self.offset as int }
    }
}

/// The views of a sequence of tokens, in order.
pub open spec fn token_views(tokens: Seq<Token>) -> Seq<SpecToken> {
    tokens.map_values(|t: Token| t@)
}

/// The token of kind `kind` that spans the bytes `start..end` of `s`.
pub open spec fn token_at(s: Seq<u8>, kind: TokenKind, start: int, end: int) -> SpecToken {
    SpecToken { kind, text: s.subrange(start, end), offset: start }
}

} // verus!
