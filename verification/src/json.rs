//! From a text to its value in one call.

use vstd::prelude::*;
use vstd::string::StringSliceAdditionalSpecFns;
use crate::bytes::{is_number_byte, is_number_start};
use crate::lexer::{lemma_number_end, lex, lex_from, number_end, tokenize, LexError};
use crate::number::{is_float_literal, is_json_number, lemma_json_number_is_float_literal};
use crate::parser::{parse, parse_tokens, ParseError, ParseErrorKind};
use crate::token::{SpecToken, TokenKind};
use crate::value::{SpecValue, Value};

verus! {

/// Why a text has no value.
#[derive(Clone, Copy, Debug, PartialEq, Eq, Structural)]
pub enum JsonError {
    /// The text cannot be split into tokens.
    Lex(LexError),
    /// The tokens break the grammar.
    Parse(ParseError),
}

/// The value of the text `s`: that of its tokens, where it has tokens and
/// they begin with a value.
pub open spec fn parse_bytes(s: Seq<u8>) -> Result<SpecValue, JsonError> {
    match lex(s) {
        Err(e) => Err(JsonError::Lex(e)),
        Ok(tokens) => match parse_tokens(tokens) {
            Err(e) => Err(JsonError::Parse(e)),
            Ok(value) => Ok(value),
        },
    }
}

/// Splits `text` into tokens and reads the value that they begin with.
///
/// The value borrows its literals and names from `text`.
pub fn parse_text<'a>(text: &'a str) -> (r: Result<Value<'a>, JsonError>)
    ensures
        parse_bytes(text.spec_bytes()) matches Ok(value) ==> r is Ok && r->Ok_0@ == value
            && r->Ok_0.wf(),
        parse_bytes(text.spec_bytes()) matches Err(e) ==> r == Err::<Value<'a>, JsonError>(e),
{
    match tokenize(text) {
        Err(e) => Err(JsonError::Lex(e)),
        Ok(tokens) => match parse(tokens.as_slice()) {
            Err(e) => Err(JsonError::Parse(e)),
            Ok(value) => Ok(value),
        },
    }
}

/// A text that is one run of number bytes, begun by a digit or a minus
/// sign, is one number token. Its value is the text itself where that is
/// a floating-point literal; else the number is at fault.
pub proof fn lemma_number_text(s: Seq<u8>)
    requires
        s.len() > 0,
        is_number_start(s[0]),
        forall|i: int| 0 <= i < s.len() ==> is_number_byte(#[trigger] s[i]),
    ensures
        lex(s) == Ok::<Seq<SpecToken>, LexError>(
            seq![SpecToken { kind: TokenKind::Num, text: s, offset: 0 }],
        ),
        is_float_literal(s) ==> parse_bytes(s) == Ok::<SpecValue, JsonError>(SpecValue::Num(s)),
        !is_float_literal(s) ==> parse_bytes(s) == Err::<SpecValue, JsonError>(
            JsonError::Parse(ParseError { kind: ParseErrorKind::InvalidNumber, at: 0 }),
        ),
{
    lemma_number_end(s, 0);
    let end = number_end(s, 0);
    if end < s.len() {
        assert(is_number_byte(s[end]));
    }
    assert(s.subrange(0, end) =~= s);
    assert(lex_from(s, end) == Ok::<Seq<SpecToken>, LexError>(Seq::empty()));
    let token = SpecToken { kind: TokenKind::Num, text: s, offset: 0 };
    assert(seq![token] + Seq::<SpecToken>::empty() =~= seq![token]);
}

/// The value of a number as JSON writes it is the number as written: the
/// literal reaches the value byte for byte, and it is a literal that the
/// standard library reads as a 64-bit float.
pub proof fn lemma_json_number_parses(s: Seq<u8>)
    requires
        is_json_number(s),
    ensures
        parse_bytes(s) == Ok::<SpecValue, JsonError>(SpecValue::Num(s)),
        is_float_literal(s),
{
    lemma_json_number_is_float_literal(s);
    lemma_number_text(s);
}

} // verus!
