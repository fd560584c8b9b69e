//! What the tokens of a text are, said without reference to the order in
//! which the scanner finds them, and the proof that the scanner finds
//! exactly those.

use vstd::prelude::*;
use crate::bytes::{
    is_lexical, is_number_byte, is_number_start, is_punctuation, is_whitespace, QUOTE,
};
use crate::lexer::{
    find_quote, lemma_find_quote, lemma_number_end, lex, lex_from, number_end, punctuation_kind,
    LexError,
};
use crate::token::{SpecToken, TokenKind};

verus! {

/// The offset behind the last byte of the text of `t`.
pub open spec fn text_end(t: SpecToken) -> int {
    t.offset + t.text.len()
}

/// The offset at which `t` begins in the scanned text: that of its text,
/// or of the opening quote for a string.
pub open spec fn extent_start(t: SpecToken) -> int {
    if t.kind == TokenKind::Str {
        t.offset - 1
    } else {
        t.offset
    }
}

/// The offset behind `t` in the scanned text: behind its text, or behind
/// the closing quote for a string.
pub open spec fn extent_end(t: SpecToken) -> int {
    if t.kind == TokenKind::Str {
        text_end(t) + 1
    } else {
        text_end(t)
    }
}

/// Whether `t` is a token of `s` taken by itself: its text is the piece
/// of `s` at its offset, and the piece is what the kind says.
///
/// A structural token is its one byte. A string token stands between two
/// quotes and holds none. A number token begins with a digit or a minus
/// sign, holds number bytes only, and no number byte follows it.
pub open spec fn is_token_of(s: Seq<u8>, t: SpecToken) -> bool {
    &&& 0 <= t.offset
    &&& text_end(t) <= s.len()
    &&& t.text == s.subrange(t.offset, text_end(t))
    &&& match t.kind {
        TokenKind::Str => {
            &&& 1 <= t.offset
            &&& s[t.offset - 1] == QUOTE
            &&& text_end(t) < s.len()
            &&& s[text_end(t)] == QUOTE
            &&& forall|p: int| t.offset <= p < text_end(t) ==> #[trigger] s[p] != QUOTE
        },
        TokenKind::Num => {
            &&& t.text.len() >= 1
            &&& is_number_start(s[t.offset])
            &&& forall|p: int| t.offset <= p < text_end(t) ==> is_number_byte(#[trigger] s[p])
            &&& text_end(t) < s.len() ==> !is_number_byte(s[text_end(t)])
        },
        _ => t.text.len() == 1 && punctuation_kind(s[t.offset]) == Some(t.kind),
    }
}

/// Whether the byte at `p` belongs to one of `tokens`, quotes included.
pub open spec fn within_token(tokens: Seq<SpecToken>, p: int) -> bool {
    exists|i: int|
        0 <= i < tokens.len() && extent_start(#[trigger] tokens[i]) <= p < extent_end(tokens[i])
}

/// Whether `tokens` are the tokens of `s` from the offset `from` on: each
/// is a token of `s`, they stand in order without overlap, none begins
/// before `from`, and every byte from `from` on that belongs to none of
/// them is a blank.
pub open spec fn is_tokenization(s: Seq<u8>, tokens: Seq<SpecToken>, from: int) -> bool {
    &&& forall|i: int| 0 <= i < tokens.len() ==> is_token_of(s, #[trigger] tokens[i])
    &&& forall|i: int| 0 <= i < tokens.len() ==> from <= extent_start(#[trigger] tokens[i])
    &&& forall|i: int, j: int|
        0 <= i < j < tokens.len() ==> extent_end(#[trigger] tokens[i]) <= extent_start(
            #[trigger] tokens[j],
        )
    &&& forall|p: int|
        from <= p < s.len() ==> is_whitespace(#[trigger] s[p]) || within_token(tokens, p)
}

/// What scanning finds at the offset `pos`, where a token begins: the
/// token and the offset behind it.
spec fn token_from(s: Seq<u8>, pos: int) -> (SpecToken, int) {
    if punctuation_kind(s[pos]) is Some {
        (
            SpecToken {
                kind: punctuation_kind(s[pos])->Some_0,
                text: s.subrange(pos, pos + 1),
                offset: pos,
            },
            pos + 1,
        )
    } else if s[pos] == QUOTE {
        let close = find_quote(s, pos + 1);
        (
            SpecToken { kind: TokenKind::Str, text: s.subrange(pos + 1, close), offset: pos + 1 },
            close + 1,
        )
    } else {
        let end = number_end(s, pos);
        (SpecToken { kind: TokenKind::Num, text: s.subrange(pos, end), offset: pos }, end)
    }
}

/// The tokens that scanning yields are the tokens of the text: nothing
/// of the text is passed over but blanks.
pub proof fn lemma_lex_from_is_tokenization(s: Seq<u8>, pos: int)
    requires
        0 <= pos,
    ensures
        lex_from(s, pos) matches Ok(tokens) ==> is_tokenization(s, tokens, pos),
    decreases s.len() - pos,
{
    if pos < s.len() && is_whitespace(s[pos]) {
        lemma_lex_from_is_tokenization(s, pos + 1);
        if let Ok(tokens) = lex_from(s, pos) {
            assert(is_tokenization(s, tokens, pos));
        }
    } else if pos < s.len() {
        lemma_find_quote(s, pos + 1);
        lemma_number_end(s, pos);
        let (first, next) = token_from(s, pos);
        if let Ok(tokens) = lex_from(s, pos) {
            let rest = lex_from(s, next)->Ok_0;
            lemma_lex_from_is_tokenization(s, next);
            assert(tokens == seq![first] + rest);
            assert(is_token_of(s, first));
            assert(extent_start(first) == pos);
            assert(extent_end(first) == next);
            assert forall|i: int| 0 <= i < tokens.len() implies is_token_of(s, #[trigger] tokens[i])
                && pos <= extent_start(tokens[i]) by {
                if i > 0 {
                    assert(tokens[i] == rest[i - 1]);
                }
            }
            assert forall|i: int, j: int| 0 <= i < j < tokens.len() implies extent_end(
                #[trigger] tokens[i],
            ) <= extent_start(#[trigger] tokens[j]) by {
                assert(tokens[j] == rest[j - 1]);
                if i > 0 {
                    assert(tokens[i] == rest[i - 1]);
                }
            }
            assert forall|p: int| pos <= p < s.len() implies is_whitespace(#[trigger] s[p])
                || within_token(tokens, p) by {
                if p < next {
                    assert(tokens[0] == first);
                    assert(within_token(tokens, p));
                } else if !is_whitespace(s[p]) {
                    assert(within_token(rest, p));
                    let i = choose|i: int|
                        0 <= i < rest.len() && extent_start(#[trigger] rest[i]) <= p < extent_end(
                            rest[i],
                        );
                    assert(tokens[i + 1] == rest[i]);
                    assert(within_token(tokens, p));
                }
            }
        }
    }
}

/// The tokens of a text are those that scanning yields, and no others:
/// a text has at most one tokenization.
pub proof fn lemma_tokenization_is_lex_from(s: Seq<u8>, tokens: Seq<SpecToken>, pos: int)
    requires
        0 <= pos,
        is_tokenization(s, tokens, pos),
    ensures
        lex_from(s, pos) == Ok::<Seq<SpecToken>, LexError>(tokens),
    decreases s.len() - pos,
{
    if pos >= s.len() {
        if tokens.len() > 0 {
            assert(is_token_of(s, tokens[0]));
            assert(pos <= extent_start(tokens[0]));
        }
        assert(tokens =~= Seq::empty());
    } else if is_whitespace(s[pos]) {
        assert forall|i: int| 0 <= i < tokens.len() implies pos + 1 <= extent_start(
            #[trigger] tokens[i],
        ) by {
            assert(is_token_of(s, tokens[i]));
        }
        assert forall|p: int| pos + 1 <= p < s.len() implies is_whitespace(#[trigger] s[p])
            || within_token(tokens, p) by {}
        lemma_tokenization_is_lex_from(s, tokens, pos + 1);
    } else {
        assert(within_token(tokens, pos));
        let i = choose|i: int|
            0 <= i < tokens.len() && extent_start(#[trigger] tokens[i]) <= pos < extent_end(
                tokens[i],
            );
        assert(is_token_of(s, tokens[0]));
        assert(pos <= extent_start(tokens[0]));
        if i > 0 {
            assert(extent_end(tokens[0]) <= extent_start(tokens[i]));
        }
        let first = tokens[0];
        let rest = tokens.skip(1);
        lemma_find_quote(s, pos + 1);
        lemma_number_end(s, pos);
        let (found, next) = token_from(s, pos);
        assert(text_end(found) == text_end(first)) by {
            let a = text_end(found);
            let b = text_end(first);
            if first.kind == TokenKind::Str {
                if a < b {
                    assert(s[a] == QUOTE);
                }
                if b < a {
                    assert(s[b] == QUOTE);
                }
            } else if first.kind == TokenKind::Num {
                if a < b {
                    assert(is_number_byte(s[a]));
                }
                if b < a {
                    assert(is_number_byte(s[b]));
                }
            }
        }
        assert(found == first);
        assert(next == extent_end(first));
        assert forall|j: int| 0 <= j < rest.len() implies is_token_of(s, #[trigger] rest[j]) && next
            <= extent_start(rest[j]) by {
            assert(rest[j] == tokens[j + 1]);
            assert(extent_end(tokens[0]) <= extent_start(tokens[j + 1]));
        }
        assert forall|j: int, k: int| 0 <= j < k < rest.len() implies extent_end(
            #[trigger] rest[j],
        ) <= extent_start(#[trigger] rest[k]) by {
            assert(rest[j] == tokens[j + 1]);
            assert(rest[k] == tokens[k + 1]);
        }
        assert forall|p: int| next <= p < s.len() implies is_whitespace(#[trigger] s[p])
            || within_token(rest, p) by {
            if !is_whitespace(s[p]) {
                assert(within_token(tokens, p));
                let k = choose|k: int|
                    0 <= k < tokens.len() && extent_start(#[trigger] tokens[k]) <= p < extent_end(
                        tokens[k],
                    );
                assert(k > 0);
                assert(rest[k - 1] == tokens[k]);
                assert(within_token(rest, p));
            }
        }
        lemma_tokenization_is_lex_from(s, rest, next);
        assert(seq![first] + rest =~= tokens);
    }
}

/// A text splits into the tokens `tokens` exactly when they are its
/// tokens in the sense of [`is_tokenization`].
pub proof fn lemma_lex_iff_tokenization(s: Seq<u8>, tokens: Seq<SpecToken>)
    ensures
        lex(s) == Ok::<Seq<SpecToken>, LexError>(tokens) <==> is_tokenization(s, tokens, 0),
{
    lemma_lex_from_is_tokenization(s, 0);
    if is_tokenization(s, tokens, 0) {
        lemma_tokenization_is_lex_from(s, tokens, 0);
    }
}

/// A byte outside the alphabet is never passed over: where the text
/// splits into tokens at all, the byte stands inside a string literal.
pub proof fn lemma_unknown_byte_is_inside_string(s: Seq<u8>, p: int)
    requires
        0 <= p < s.len(),
        !is_lexical(s[p]),
    ensures
        lex(s) matches Ok(tokens) ==> exists|i: int|
            0 <= i < tokens.len() && (#[trigger] tokens[i]).kind == TokenKind::Str
                && tokens[i].offset <= p < text_end(tokens[i]),
{
    lemma_lex_from_is_tokenization(s, 0);
    if let Ok(tokens) = lex(s) {
        assert(within_token(tokens, p));
        let i = choose|i: int|
            0 <= i < tokens.len() && extent_start(#[trigger] tokens[i]) <= p < extent_end(
                tokens[i],
            );
        assert(is_token_of(s, tokens[i]));
    }
}

/// A fault names a byte of the text and says truly what is wrong with it:
/// no token can begin with the unexpected byte, which stands at the
/// offset given; behind the quote that opens the unterminated string
/// there is no other quote.
pub proof fn lemma_lex_fault(s: Seq<u8>, pos: int)
    requires
        0 <= pos,
        s.len() <= usize::MAX,
    ensures
        lex_from(s, pos) matches Err(LexError::UnexpectedByte { offset, byte }) ==> {
            &&& pos <= offset < s.len()
            &&& s[offset as int] == byte
            &&& !is_whitespace(byte)
            &&& !is_punctuation(byte)
            &&& byte != QUOTE
            &&& !is_number_start(byte)
        },
        lex_from(s, pos) matches Err(LexError::UnterminatedString { start }) ==> {
            &&& pos <= start < s.len()
            &&& s[start as int] == QUOTE
            &&& forall|p: int| start < p < s.len() ==> #[trigger] s[p] != QUOTE
        },
    decreases s.len() - pos,
{
    if pos < s.len() {
        lemma_find_quote(s, pos + 1);
        lemma_number_end(s, pos);
        if is_whitespace(s[pos]) {
            lemma_lex_fault(s, pos + 1);
        } else if punctuation_kind(s[pos]) is Some || s[pos] == QUOTE || is_number_start(s[pos]) {
            let next = token_from(s, pos).1;
            if next <= s.len() {
                lemma_lex_fault(s, next);
            }
        }
    }
}

/// The first quote in the first `p` bytes of a text is the first quote
/// in the text.
proof fn lemma_find_quote_in_prefix(s: Seq<u8>, p: int, from: int)
    requires
        0 <= from <= p <= s.len(),
        find_quote(s.take(p), from) < p,
    ensures
        find_quote(s, from) == find_quote(s.take(p), from),
    decreases p - from,
{
    if from < p && s.take(p)[from] != QUOTE {
        lemma_find_quote_in_prefix(s, p, from + 1);
    }
}

/// A run of number bytes in the first `p` bytes of a text ends in the
/// text where it ends there, unless a number byte stands at `p`.
proof fn lemma_number_end_in_prefix(s: Seq<u8>, p: int, from: int)
    requires
        0 <= from <= p <= s.len(),
        p < s.len() ==> !is_number_byte(s[p]),
    ensures
        number_end(s, from) == number_end(s.take(p), from),
    decreases p - from,
{
    if from < p && is_number_byte(s.take(p)[from]) {
        lemma_number_end_in_prefix(s, p, from + 1);
    }
}

/// Where the first `p` bytes of a text split into tokens and no number
/// runs on at `p`, a fault at or behind `p` is the fault of the text.
proof fn lemma_fault_behind_prefix(s: Seq<u8>, p: int, pos: int)
    requires
        0 <= pos <= p <= s.len(),
        p < s.len() ==> !is_number_byte(s[p]),
        lex_from(s.take(p), pos) is Ok,
        lex_from(s, p) is Err,
    ensures
        lex_from(s, pos) == lex_from(s, p),
    decreases p - pos,
{
    let head = s.take(p);
    if pos < p {
        assert(head[pos] == s[pos]);
        lemma_find_quote(head, pos + 1);
        lemma_number_end(head, pos);
        if is_whitespace(s[pos]) {
            lemma_fault_behind_prefix(s, p, pos + 1);
        } else if punctuation_kind(s[pos]) is Some {
            lemma_fault_behind_prefix(s, p, pos + 1);
        } else if s[pos] == QUOTE {
            lemma_find_quote_in_prefix(s, p, pos + 1);
            lemma_fault_behind_prefix(s, p, find_quote(head, pos + 1) + 1);
        } else {
            lemma_number_end_in_prefix(s, p, pos);
            lemma_fault_behind_prefix(s, p, number_end(head, pos));
        }
    }
}

/// A byte outside the alphabet that stands where a token would begin is
/// reported, with its offset: what stands before it splits into tokens,
/// and the text does not.
pub proof fn lemma_unknown_byte_is_reported(s: Seq<u8>, p: int)
    requires
        0 <= p < s.len() <= usize::MAX,
        !is_lexical(s[p]),
        lex(s.take(p)) is Ok,
    ensures
        lex(s) == Err::<Seq<SpecToken>, LexError>(
            LexError::UnexpectedByte { offset: p as usize, byte: s[p] },
        ),
{
    lemma_fault_behind_prefix(s, p, 0);
}

/// A quote that no quote follows, standing where a token would begin, is
/// reported as a string that is never closed.
pub proof fn lemma_open_string_is_reported(s: Seq<u8>, p: int)
    requires
        0 <= p < s.len() <= usize::MAX,
        s[p] == QUOTE,
        forall|i: int| p < i < s.len() ==> #[trigger] s[i] != QUOTE,
        lex(s.take(p)) is Ok,
    ensures
        lex(s) == Err::<Seq<SpecToken>, LexError>(
            LexError::UnterminatedString { start: p as usize },
        ),
{
    lemma_find_quote(s, p + 1);
    let close = find_quote(s, p + 1);
    if close < s.len() {
        assert(s[close] == QUOTE);
    }
    lemma_fault_behind_prefix(s, p, 0);
}

} // verus!
