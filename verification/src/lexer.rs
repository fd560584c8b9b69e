//! The tokenizer: one pass over the text from left to right, one token per
//! step, with a single byte of lookahead.

use vstd::prelude::*;
use vstd::string::StringSliceAdditionalSpecFns;
use vstd::utf8::*;
use crate::bytes::{
    is_number_byte, is_number_start, is_whitespace, number_byte, number_start, whitespace,
    CLOSE_BRACE, CLOSE_BRACKET, COLON, COMMA, OPEN_BRACE, OPEN_BRACKET, QUOTE,
};
use crate::substr::{lemma_boundaries_around_ascii, slice_str};
use crate::token::{token_at, token_views, SpecToken, Token, TokenKind};
use crate::tokenization::{is_tokenization, lemma_lex_from_is_tokenization};

verus! {

/// Why a text could not be split into tokens.
#[derive(Clone, Copy, Debug, PartialEq, Eq, Structural)]
pub enum LexError {
    /// The string literal whose opening quote stands at byte `start` is
    /// never closed.
    UnterminatedString { start: usize },
    /// No token can begin with `byte`, which stands at byte `offset`.
    UnexpectedByte { offset: usize, byte: u8 },
}

/// What scanning yields: the tokens in order, or the first fault.
pub type LexResult = Result<Seq<SpecToken>, LexError>;

/// The structural mark that the byte `b` spells, if it spells one.
pub open spec fn punctuation_kind(b: u8) -> Option<TokenKind> {
    if b == OPEN_BRACE {
        Some(TokenKind::BeginObject)
    } else if b == CLOSE_BRACE {
        Some(TokenKind::EndObject)
    } else if b == OPEN_BRACKET {
        Some(TokenKind::BeginArray)
    } else if b == CLOSE_BRACKET {
        Some(TokenKind::EndArray)
    } else if b == COLON {
        Some(TokenKind::Colon)
    } else if b == COMMA {
        Some(TokenKind::Comma)
    } else {
        None
    }
}

/// The offset of the first quote in `s` at or after `from`, or `s.len()`
/// if there is none. No escape is recognised: a quote after a backslash
/// closes the literal like any other.
pub open spec fn find_quote(s: Seq<u8>, from: int) -> int
    decreases s.len() - from,
{
    if from < 0 || from >= s.len() {
        s.len() as int
    } else if s[from] == QUOTE {
        from
    } else {
        find_quote(s, from + 1)
    }
}

/// The offset at which the run of number bytes that begins at `from` ends:
/// the first offset at or after `from` that holds no number byte, or
/// `s.len()`.
pub open spec fn number_end(s: Seq<u8>, from: int) -> int
    decreases s.len() - from,
{
    if from < 0 || from >= s.len() {
        s.len() as int
    } else if is_number_byte(s[from]) {
        number_end(s, from + 1)
    } else {
        from
    }
}

/// `first` followed by what `rest` holds, or the fault of `rest`.
pub open spec fn prepend(first: SpecToken, rest: LexResult) -> LexResult {
    match rest {
        Ok(tokens) => Ok(seq![first] + tokens),
        Err(e) => Err(e),
    }
}

/// The tokens of `s` from the byte offset `pos` on.
///
/// Blanks are skipped. A structural byte is a token by itself. A quote
/// opens a string literal that runs to the next quote; its token holds
/// what stands between the two. A digit or a minus sign opens a number
/// literal, which takes every number byte that follows, in whatever
/// order. Any other byte is a fault, and so is a string left open.
pub open spec fn lex_from(s: Seq<u8>, pos: int) -> LexResult
    decreases s.len() - pos,
{
    if pos < 0 || pos >= s.len() {
        Ok(Seq::empty())
    } else if is_whitespace(s[pos]) {
        lex_from(s, pos + 1)
    } else if punctuation_kind(s[pos]) is Some {
        prepend(token_at(s, punctuation_kind(s[pos])->Some_0, pos, pos + 1), lex_from(s, pos + 1))
    } else if s[pos] == QUOTE {
        let close = find_quote(s, pos + 1);
        proof {
            lemma_find_quote(s, pos + 1);
        }
        if close < s.len() {
            prepend(token_at(s, TokenKind::Str, pos + 1, close), lex_from(s, close + 1))
        } else {
            Err(LexError::UnterminatedString { start: pos as usize })
        }
    } else if is_number_start(s[pos]) {
        let end = number_end(s, pos);
        proof {
            lemma_number_end(s, pos);
        }
        prepend(token_at(s, TokenKind::Num, pos, end), lex_from(s, end))
    } else {
        Err(LexError::UnexpectedByte { offset: pos as usize, byte: s[pos] })
    }
}

/// The tokens of the whole of `s`.
pub open spec fn lex(s: Seq<u8>) -> LexResult {
    lex_from(s, 0)
}

/// `find_quote` stays within the text, and what it skips holds no quote.
pub proof fn lemma_find_quote(s: Seq<u8>, from: int)
    requires
        0 <= from <= s.len(),
    ensures
        from <= find_quote(s, from) <= s.len(),
        find_quote(s, from) < s.len() ==> s[find_quote(s, from)] == QUOTE,
        forall|i: int| from <= i < find_quote(s, from) ==> s[i] != QUOTE,
    decreases s.len() - from,
{
    if from < s.len() && s[from] != QUOTE {
        lemma_find_quote(s, from + 1);
    }
}

/// `number_end` stays within the text, what it skips are number bytes, and
/// it stops before a byte that is none.
pub proof fn lemma_number_end(s: Seq<u8>, from: int)
    requires
        0 <= from <= s.len(),
    ensures
        from <= number_end(s, from) <= s.len(),
        number_end(s, from) < s.len() ==> !is_number_byte(s[number_end(s, from)]),
        forall|i: int| from <= i < number_end(s, from) ==> is_number_byte(s[i]),
        from < s.len() && is_number_byte(s[from]) ==> from < number_end(s, from),
    decreases s.len() - from,
{
    if from < s.len() && is_number_byte(s[from]) {
        lemma_number_end(s, from + 1);
    }
}

/// Decides [`punctuation_kind`].
pub fn punctuation(b: u8) -> (r: Option<TokenKind>)
    ensures
        r == punctuation_kind(b),
{
    if b == OPEN_BRACE {
        Some(TokenKind::BeginObject)
    } else if b == CLOSE_BRACE {
        Some(TokenKind::EndObject)
    } else if b == OPEN_BRACKET {
        Some(TokenKind::BeginArray)
    } else if b == CLOSE_BRACKET {
        Some(TokenKind::EndArray)
    } else if b == COLON {
        Some(TokenKind::Colon)
    } else if b == COMMA {
        Some(TokenKind::Comma)
    } else {
        None
    }
}

/// Scans the string literal whose opening quote stands at `open`.
///
/// The literal ends at the next quote. The token holds what stands between
/// the two quotes; scanning goes on behind the closing one. A literal that
/// the text's end leaves open is a fault.
pub fn scan_string<'a>(text: &'a str, open: usize) -> (r: Result<Token<'a>, LexError>)
    requires
        open < text.spec_bytes().len(),
        text.spec_bytes()[open as int] == QUOTE,
    ensures
        find_quote(text.spec_bytes(), open + 1) < text.spec_bytes().len() ==> r is Ok
            && r->Ok_0@ == token_at(
            text.spec_bytes(),
            TokenKind::Str,
            open + 1,
            find_quote(text.spec_bytes(), open + 1),
        ),
        find_quote(text.spec_bytes(), open + 1) >= text.spec_bytes().len() ==> r == Err::<
            Token<'a>,
            LexError,
        >(LexError::UnterminatedString { start: open }),
{
    broadcast use encode_utf8_valid_utf8;

    let bytes = text.as_bytes();
    let n = bytes.len();
    let ghost s = text.spec_bytes();
    let mut i = open + 1;
    while i < n && bytes[i] != QUOTE
        invariant
            open < i <= n,
            n == s.len(),
            bytes@ == s,
            find_quote(s, open + 1) == find_quote(s, i as int),
        decreases n - i,
    {
        i += 1;
    }
    if i < n {
        proof {
            lemma_boundaries_around_ascii(s, open as int);
            lemma_boundaries_around_ascii(s, i as int);
        }
        Ok(Token { kind: TokenKind::Str, text: slice_str(text, open + 1, i), offset: open + 1 })
    } else {
        Err(LexError::UnterminatedString { start: open })
    }
}

/// Scans the number literal that begins at `start`.
///
/// The literal takes every number byte that follows, whatever their order:
/// whether they spell a number is decided when the literal is read.
pub fn scan_number<'a>(text: &'a str, start: usize) -> (r: Token<'a>)
    requires
        start < text.spec_bytes().len(),
        is_number_start(text.spec_bytes()[start as int]),
    ensures
        r@ == token_at(
            text.spec_bytes(),
            TokenKind::Num,
            start as int,
            number_end(text.spec_bytes(), start as int),
        ),
{
    broadcast use encode_utf8_valid_utf8;

    let bytes = text.as_bytes();
    let n = bytes.len();
    let ghost s = text.spec_bytes();
    let mut i = start + 1;
    while i < n && number_byte(bytes[i])
        invariant
            start < i <= n,
            n == s.len(),
            bytes@ == s,
            is_number_byte(s[i - 1]),
            number_end(s, start as int) == number_end(s, i as int),
        decreases n - i,
    {
        i += 1;
    }
    proof {
        lemma_boundaries_around_ascii(s, start as int);
        lemma_boundaries_around_ascii(s, i - 1);
    }
    Token { kind: TokenKind::Num, text: slice_str(text, start, i), offset: start }
}

/// `prefix` followed by what `rest` holds, or the fault of `rest`.
spec fn after(prefix: Seq<SpecToken>, rest: LexResult) -> LexResult {
    match rest {
        Ok(tokens) => Ok(prefix + tokens),
        Err(e) => Err(e),
    }
}

/// Splits `text` into its tokens.
///
/// Returns the tokens in the order in which they stand in the text, each
/// borrowing its piece of `text`, or the first fault met: a byte with
/// which no token can begin, or a string literal that is never closed.
/// Where tokens are returned, they account for every byte of the text
/// that is no blank.
pub fn tokenize<'a>(text: &'a str) -> (r: Result<Vec<Token<'a>>, LexError>)
    ensures
        lex(text.spec_bytes()) matches Ok(tokens) ==> r is Ok && token_views(r->Ok_0@) == tokens,
        lex(text.spec_bytes()) matches Err(e) ==> r == Err::<Vec<Token<'a>>, LexError>(e),
        r matches Ok(tokens) ==> is_tokenization(text.spec_bytes(), token_views(tokens@), 0),
{
    broadcast use encode_utf8_valid_utf8;

    let bytes = text.as_bytes();
    let n = bytes.len();
    let ghost s = text.spec_bytes();
    let mut tokens: Vec<Token<'a>> = Vec::new();
    let mut pos: usize = 0;
    assert(token_views(tokens@) =~= Seq::empty());
    assert(after(Seq::empty(), lex_from(s, 0)) == lex_from(s, 0)) by {
        if let Ok(rest) = lex_from(s, 0) {
            assert(Seq::<SpecToken>::empty() + rest =~= rest);
        }
    }
    while pos < n
        invariant
            pos <= n,
            n == s.len(),
            bytes@ == s,
            s == text.spec_bytes(),
            valid_utf8(s),
            lex(s) == after(token_views(tokens@), lex_from(s, pos as int)),
        decreases n - pos,
    {
        let b = bytes[pos];
        let ghost before = tokens@;
        let ghost here = pos as int;
        if whitespace(b) {
            pos += 1;
        } else if let Some(kind) = punctuation(b) {
            proof {
                lemma_boundaries_around_ascii(s, here);
            }
            tokens.push(Token { kind, text: slice_str(text, pos, pos + 1), offset: pos });
            pos += 1;
            proof {
                lemma_after_push(before, tokens@, lex_from(s, pos as int));
            }
        } else if b == QUOTE {
            match scan_string(text, pos) {
                Ok(token) => {
                    proof {
                        lemma_find_quote(s, here + 1);
                    }
                    pos = token.offset + token.text.len() + 1;
                    tokens.push(token);
                    proof {
                        lemma_after_push(before, tokens@, lex_from(s, pos as int));
                    }
                },
                Err(e) => {
                    return Err(e);
                },
            }
        } else if number_start(b) {
            let token = scan_number(text, pos);
            proof {
                lemma_number_end(s, here);
            }
            pos = pos + token.text.len();
            tokens.push(token);
            proof {
                lemma_after_push(before, tokens@, lex_from(s, pos as int));
            }
        } else {
            return Err(LexError::UnexpectedByte { offset: pos, byte: b });
        }
    }
    proof {
        assert(token_views(tokens@) + Seq::<SpecToken>::empty() =~= token_views(tokens@));
        lemma_lex_from_is_tokenization(s, 0);
    }
    Ok(tokens)
}

/// Scanning one more token moves it from the front of what is left to the
/// back of what is done.
proof fn lemma_after_push(before: Seq<Token>, now: Seq<Token>, rest: LexResult)
    requires
        now.len() == before.len() + 1,
        now.drop_last() =~= before,
    ensures
        after(token_views(before), prepend(now.last()@, rest)) == after(token_views(now), rest),
{
    assert(token_views(now) =~= token_views(before).push(now.last()@));
    if let Ok(tokens) = rest {
        assert(token_views(before) + (seq![now.last()@] + tokens) =~= token_views(now) + tokens);
    }
}

} // verus!
