//! The parser: recursive descent over the tokens, one function for each
//! production of the grammar.
//!
//! ```text
//! value  ::= object | array | number
//! object ::= '{' ( member ( ',' member )* )? '}'
//! member ::= string ':' value
//! array  ::= '[' ( value ( ',' value )* )? ']'
//! number ::= a number token whose text is a floating-point literal
//! ```
//!
//! Strings are names of members only: a string is no value, and neither
//! are `true`, `false` and `null`.

use vstd::prelude::*;
use crate::number::{float_literal, is_float_literal};
use crate::token::{token_views, SpecToken, Token, TokenKind};
use crate::value::{
    insert_member, members_map, members_wf, value_views, values_wf, Member, SpecValue, Value,
};

verus! {

/// Which rule of the grammar a sequence of tokens breaks.
#[derive(Clone, Copy, Debug, PartialEq, Eq, Structural)]
pub enum ParseErrorKind {
    /// The tokens end where one more is wanted.
    UnexpectedEnd,
    /// A value is wanted, and the token begins none.
    ExpectedValue,
    /// The name of a member is wanted, and the token is no string.
    ExpectedName,
    /// A colon is wanted behind the name of a member.
    ExpectedColon,
    /// A comma or the end of the object is wanted behind a member.
    ExpectedCommaOrEndObject,
    /// A comma or the end of the array is wanted behind an element.
    ExpectedCommaOrEndArray,
    /// The text of a number token is no floating-point literal.
    InvalidNumber,
}

/// A failed parse: the rule that is broken, and the index of the token
/// that breaks it. Where the tokens end too early, that is their number.
#[derive(Clone, Copy, Debug, PartialEq, Eq, Structural)]
pub struct ParseError {
    pub kind: ParseErrorKind,
    pub at: usize,
}

/// What parsing at some token yields: the value and the index of the
/// token behind it, or the fault.
pub type Parsed = Result<(SpecValue, int), ParseError>;

/// The fault of kind `kind` at the token `at`.
pub open spec fn fault(kind: ParseErrorKind, at: int) -> Parsed {
    Err(ParseError { kind, at: at as usize })
}

/// The number that the token at `pos` spells.
pub open spec fn parse_number_at(tokens: Seq<SpecToken>, pos: int) -> Parsed {
    if pos < 0 || pos >= tokens.len() {
        fault(ParseErrorKind::UnexpectedEnd, tokens.len() as int)
    } else if tokens[pos].kind != TokenKind::Num {
        fault(ParseErrorKind::ExpectedValue, pos)
    } else if is_float_literal(tokens[pos].text) {
        Ok((SpecValue::Num(tokens[pos].text), pos + 1))
    } else {
        fault(ParseErrorKind::InvalidNumber, pos)
    }
}

/// The value that begins at the token `pos`.
pub open spec fn parse_value_at(tokens: Seq<SpecToken>, pos: int) -> Parsed
    decreases tokens.len() - pos, 1nat,
{
    if pos < 0 || pos >= tokens.len() {
        fault(ParseErrorKind::UnexpectedEnd, tokens.len() as int)
    } else {
        match tokens[pos].kind {
            TokenKind::BeginObject => parse_object_at(tokens, pos),
            TokenKind::BeginArray => parse_array_at(tokens, pos),
            TokenKind::Num => parse_number_at(tokens, pos),
            _ => fault(ParseErrorKind::ExpectedValue, pos),
        }
    }
}

/// The array whose opening bracket is the token `pos`.
pub open spec fn parse_array_at(tokens: Seq<SpecToken>, pos: int) -> Parsed
    decreases tokens.len() - pos, 0nat,
{
    if pos < 0 || pos >= tokens.len() {
        fault(ParseErrorKind::UnexpectedEnd, tokens.len() as int)
    } else if tokens[pos].kind != TokenKind::BeginArray {
        fault(ParseErrorKind::ExpectedValue, pos)
    } else if pos + 1 < tokens.len() && tokens[pos + 1].kind == TokenKind::EndArray {
        Ok((SpecValue::Array(Seq::empty()), pos + 2))
    } else {
        parse_elements_at(tokens, pos + 1, Seq::empty())
    }
}

/// The rest of an array of which `done` holds the elements read so far
/// and whose next element begins at the token `pos`.
///
/// An element takes at least one token, so that what follows it stands
/// behind `pos`; the rest is read on from there.
pub open spec fn parse_elements_at(tokens: Seq<SpecToken>, pos: int, done: Seq<SpecValue>) -> Parsed
    decreases tokens.len() - pos, 2nat,
{
    match parse_value_at(tokens, pos) {
        Err(e) => Err(e),
        Ok((element, next)) => {
            let elements = done.push(element);
            if !(pos < next < tokens.len()) {
                fault(ParseErrorKind::UnexpectedEnd, tokens.len() as int)
            } else if tokens[next].kind == TokenKind::Comma {
                parse_elements_at(tokens, next + 1, elements)
            } else if tokens[next].kind == TokenKind::EndArray {
                Ok((SpecValue::Array(elements), next + 1))
            } else {
                fault(ParseErrorKind::ExpectedCommaOrEndArray, next)
            }
        },
    }
}

/// The object whose opening brace is the token `pos`.
pub open spec fn parse_object_at(tokens: Seq<SpecToken>, pos: int) -> Parsed
    decreases tokens.len() - pos, 0nat,
{
    if pos < 0 || pos >= tokens.len() {
        fault(ParseErrorKind::UnexpectedEnd, tokens.len() as int)
    } else if tokens[pos].kind != TokenKind::BeginObject {
        fault(ParseErrorKind::ExpectedValue, pos)
    } else if pos + 1 < tokens.len() && tokens[pos + 1].kind == TokenKind::EndObject {
        Ok((SpecValue::Object(Map::empty()), pos + 2))
    } else {
        parse_members_at(tokens, pos + 1, Map::empty())
    }
}

/// The rest of an object of which `done` holds the members read so far
/// and whose next member begins at the token `pos`. A name that was read
/// before gets the new value.
///
/// A value takes at least one token, so that what follows it stands
/// behind `pos`; the rest is read on from there.
pub open spec fn parse_members_at(
    tokens: Seq<SpecToken>,
    pos: int,
    done: Map<Seq<u8>, SpecValue>,
) -> Parsed
    decreases tokens.len() - pos, 2nat,
{
    if pos < 0 || pos >= tokens.len() {
        fault(ParseErrorKind::UnexpectedEnd, tokens.len() as int)
    } else if tokens[pos].kind != TokenKind::Str {
        fault(ParseErrorKind::ExpectedName, pos)
    } else if pos + 1 >= tokens.len() {
        fault(ParseErrorKind::UnexpectedEnd, tokens.len() as int)
    } else if tokens[pos + 1].kind != TokenKind::Colon {
        fault(ParseErrorKind::ExpectedColon, pos + 1)
    } else {
        match parse_value_at(tokens, pos + 2) {
            Err(e) => Err(e),
            Ok((value, next)) => {
                let members = done.insert(tokens[pos].text, value);
                if !(pos < next < tokens.len()) {
                    fault(ParseErrorKind::UnexpectedEnd, tokens.len() as int)
                } else if tokens[next].kind == TokenKind::Comma {
                    parse_members_at(tokens, next + 1, members)
                } else if tokens[next].kind == TokenKind::EndObject {
                    Ok((SpecValue::Object(members), next + 1))
                } else {
                    fault(ParseErrorKind::ExpectedCommaOrEndObject, next)
                }
            },
        }
    }
}

/// The value that the tokens begin with. What follows it is not read.
pub open spec fn parse_tokens(tokens: Seq<SpecToken>) -> Result<SpecValue, ParseError> {
    match parse_value_at(tokens, 0) {
        Ok((value, _)) => Ok(value),
        Err(e) => Err(e),
    }
}

/// A value that is read takes at least one token and ends within the
/// tokens.
pub proof fn lemma_parse_value_advances(tokens: Seq<SpecToken>, pos: int)
    requires
        0 <= pos,
    ensures
        parse_value_at(tokens, pos) matches Ok((_, next)) ==> pos < next <= tokens.len(),
    decreases tokens.len() - pos, 1nat,
{
    if pos < tokens.len() {
        match tokens[pos].kind {
            TokenKind::BeginObject => {
                if !(pos + 1 < tokens.len() && tokens[pos + 1].kind == TokenKind::EndObject) {
                    lemma_parse_members_advance(tokens, pos + 1, Map::empty());
                }
            },
            TokenKind::BeginArray => {
                if !(pos + 1 < tokens.len() && tokens[pos + 1].kind == TokenKind::EndArray) {
                    lemma_parse_elements_advance(tokens, pos + 1, Seq::empty());
                }
            },
            _ => {},
        }
    }
}

/// The rest of an array that is read ends behind where it begins and
/// within the tokens.
pub proof fn lemma_parse_elements_advance(tokens: Seq<SpecToken>, pos: int, done: Seq<SpecValue>)
    requires
        0 <= pos,
    ensures
        parse_elements_at(tokens, pos, done) matches Ok((_, next)) ==> pos < next <= tokens.len(),
    decreases tokens.len() - pos, 2nat,
{
    lemma_parse_value_advances(tokens, pos);
    if let Ok((element, next)) = parse_value_at(tokens, pos) {
        if pos < next < tokens.len() && tokens[next].kind == TokenKind::Comma {
            lemma_parse_elements_advance(tokens, next + 1, done.push(element));
        }
    }
}

/// The rest of an object that is read ends behind where it begins and
/// within the tokens.
pub proof fn lemma_parse_members_advance(
    tokens: Seq<SpecToken>,
    pos: int,
    done: Map<Seq<u8>, SpecValue>,
)
    requires
        0 <= pos,
    ensures
        parse_members_at(tokens, pos, done) matches Ok((_, next)) ==> pos < next <= tokens.len(),
    decreases tokens.len() - pos, 2nat,
{
    if pos + 1 < tokens.len() && tokens[pos].kind == TokenKind::Str && tokens[pos + 1].kind
        == TokenKind::Colon {
        lemma_parse_value_advances(tokens, pos + 2);
        if let Ok((value, next)) = parse_value_at(tokens, pos + 2) {
            if pos < next < tokens.len() && tokens[next].kind == TokenKind::Comma {
                lemma_parse_members_advance(tokens, next + 1, done.insert(tokens[pos].text, value));
            }
        }
    }
}

/// A fault names a token at or behind the one at which reading began,
/// or the end of the tokens.
pub proof fn lemma_parse_value_fault(tokens: Seq<SpecToken>, pos: int)
    requires
        0 <= pos <= tokens.len() <= usize::MAX,
    ensures
        parse_value_at(tokens, pos) matches Err(e) ==> pos <= e.at <= tokens.len(),
    decreases tokens.len() - pos, 1nat,
{
    if pos < tokens.len() {
        match tokens[pos].kind {
            TokenKind::BeginObject => {
                if !(pos + 1 < tokens.len() && tokens[pos + 1].kind == TokenKind::EndObject) {
                    lemma_parse_members_fault(tokens, pos + 1, Map::empty());
                }
            },
            TokenKind::BeginArray => {
                if !(pos + 1 < tokens.len() && tokens[pos + 1].kind == TokenKind::EndArray) {
                    lemma_parse_elements_fault(tokens, pos + 1, Seq::empty());
                }
            },
            _ => {},
        }
    }
}

/// A fault in the rest of an array names a token at or behind the one at
/// which the rest began, or the end of the tokens.
pub proof fn lemma_parse_elements_fault(tokens: Seq<SpecToken>, pos: int, done: Seq<SpecValue>)
    requires
        0 <= pos <= tokens.len() <= usize::MAX,
    ensures
        parse_elements_at(tokens, pos, done) matches Err(e) ==> pos <= e.at <= tokens.len(),
    decreases tokens.len() - pos, 2nat,
{
    lemma_parse_value_fault(tokens, pos);
    lemma_parse_value_advances(tokens, pos);
    if let Ok((element, next)) = parse_value_at(tokens, pos) {
        if pos < next < tokens.len() && tokens[next].kind == TokenKind::Comma {
            lemma_parse_elements_fault(tokens, next + 1, done.push(element));
        }
    }
}

/// A fault in the rest of an object names a token at or behind the one at
/// which the rest began, or the end of the tokens.
pub proof fn lemma_parse_members_fault(
    tokens: Seq<SpecToken>,
    pos: int,
    done: Map<Seq<u8>, SpecValue>,
)
    requires
        0 <= pos <= tokens.len() <= usize::MAX,
    ensures
        parse_members_at(tokens, pos, done) matches Err(e) ==> pos <= e.at <= tokens.len(),
    decreases tokens.len() - pos, 2nat,
{
    if pos + 1 < tokens.len() && tokens[pos].kind == TokenKind::Str && tokens[pos + 1].kind
        == TokenKind::Colon {
        lemma_parse_value_fault(tokens, pos + 2);
        lemma_parse_value_advances(tokens, pos + 2);
        if let Ok((value, next)) = parse_value_at(tokens, pos + 2) {
            if pos < next < tokens.len() && tokens[next].kind == TokenKind::Comma {
                lemma_parse_members_fault(tokens, next + 1, done.insert(tokens[pos].text, value));
            }
        }
    }
}

/// A read position in a sequence of tokens.
///
/// The position only moves forward, one token at a time, and never past
/// the end: there, every read yields `None`.
pub struct Cursor<'t, 'a> {
    tokens: &'t [Token<'a>],
    pos: usize,
}

impl<'t, 'a> Cursor<'t, 'a> {
    #[verifier::type_invariant]
    spec fn within(self) -> bool {
        self.pos <= self.tokens@.len()
    }

    /// The tokens that the cursor reads.
    pub closed spec fn tokens(&self) -> Seq<Token<'a>> {
        self.tokens@
    }

    /// The views of the tokens that the cursor reads.
    pub open spec fn spec_tokens(&self) -> Seq<SpecToken> {
        token_views(self.tokens())
    }

    /// The index of the token that is read next.
    pub closed spec fn pos(&self) -> int {
        self.pos as int
    }

    /// A cursor at the first of `tokens`.
    pub fn new(tokens: &'t [Token<'a>]) -> (cursor: Self)
        ensures
            cursor.tokens() == tokens@,
            cursor.pos() == 0,
    {
        Cursor { tokens, pos: 0 }
    }

    /// The index of the token that is read next.
    pub fn position(&self) -> (pos: usize)
        ensures
            pos == self.pos(),
            pos <= self.tokens().len(),
    {
        proof {
            use_type_invariant(self);
        }
        self.pos
    }

    /// The token that is read next, which stays where it is; `None` at
    /// the end.
    pub fn peek(&self) -> (r: Option<&'t Token<'a>>)
        ensures
            self.pos() < self.tokens().len() ==> r == Some(&self.tokens()[self.pos()]),
            self.pos() >= self.tokens().len() ==> r is None,
    {
        if self.pos < self.tokens.len() {
            Some(&self.tokens[self.pos])
        } else {
            None
        }
    }

    /// Reads the next token and moves behind it; `None` at the end, where
    /// the cursor stays.
    pub fn next(&mut self) -> (r: Option<&'t Token<'a>>)
        ensures
            final(self).tokens() == old(self).tokens(),
            old(self).pos() < old(self).tokens().len() ==> r == Some(
                &old(self).tokens()[old(self).pos()],
            ) && final(self).pos() == old(self).pos() + 1,
            old(self).pos() >= old(self).tokens().len() ==> r is None && final(self).pos() == old(
                self,
            ).pos(),
    {
        if self.pos < self.tokens.len() {
            let token = &self.tokens[self.pos];
            self.pos = self.pos + 1;
            Some(token)
        } else {
            None
        }
    }
}

/// Whether the outcome `r` of a parse that left the cursor at `end` is the
/// outcome `expected`: the same value, well formed, with the cursor
/// behind it; or the same fault, with the cursor at the token that is at
/// fault.
pub open spec fn agrees(r: Result<Value, ParseError>, end: int, expected: Parsed) -> bool {
    match expected {
        Ok((value, next)) => r is Ok && r->Ok_0@ == value && r->Ok_0.wf() && end == next,
        Err(e) => r == Err::<Value, ParseError>(e) && end == e.at,
    }
}

/// Reads the number at the cursor.
///
/// The token there has to be a number token whose text is a
/// floating-point literal; the value is that literal.
pub fn parse_number<'t, 'a>(cursor: &mut Cursor<'t, 'a>) -> (r: Result<Value<'a>, ParseError>)
    ensures
        final(cursor).tokens() == old(cursor).tokens(),
        old(cursor).pos() <= final(cursor).pos() <= final(cursor).tokens().len(),
        agrees(r, final(cursor).pos(), parse_number_at(old(cursor).spec_tokens(), old(cursor).pos())),
{
    let at = cursor.position();
    match cursor.peek() {
        None => Err(ParseError { kind: ParseErrorKind::UnexpectedEnd, at }),
        Some(token) => {
            if token.kind != TokenKind::Num {
                Err(ParseError { kind: ParseErrorKind::ExpectedValue, at })
            } else if float_literal(token.text) {
                cursor.next();
                Ok(Value::Num(token.text))
            } else {
                Err(ParseError { kind: ParseErrorKind::InvalidNumber, at })
            }
        },
    }
}

/// Reads the value at the cursor: an object, an array or a number.
///
/// A string is no value, and neither is any other token. A value inside
/// a value is read by a call inside the call: the call stack grows with
/// the depth of the nesting.
pub fn parse_value<'t, 'a>(cursor: &mut Cursor<'t, 'a>) -> (r: Result<Value<'a>, ParseError>)
    ensures
        final(cursor).tokens() == old(cursor).tokens(),
        old(cursor).pos() <= final(cursor).pos() <= final(cursor).tokens().len(),
        agrees(r, final(cursor).pos(), parse_value_at(old(cursor).spec_tokens(), old(cursor).pos())),
    decreases old(cursor).tokens().len() - old(cursor).pos(), 1nat,
{
    let at = cursor.position();
    match cursor.peek() {
        None => Err(ParseError { kind: ParseErrorKind::UnexpectedEnd, at }),
        Some(token) => match token.kind {
            TokenKind::BeginObject => parse_object(cursor),
            TokenKind::BeginArray => parse_array(cursor),
            TokenKind::Num => parse_number(cursor),
            _ => Err(ParseError { kind: ParseErrorKind::ExpectedValue, at }),
        },
    }
}

/// Reads the array at the cursor: an opening bracket, then either the
/// closing bracket at once or values with a comma between each two, and
/// the closing bracket.
pub fn parse_array<'t, 'a>(cursor: &mut Cursor<'t, 'a>) -> (r: Result<Value<'a>, ParseError>)
    ensures
        final(cursor).tokens() == old(cursor).tokens(),
        old(cursor).pos() <= final(cursor).pos() <= final(cursor).tokens().len(),
        agrees(r, final(cursor).pos(), parse_array_at(old(cursor).spec_tokens(), old(cursor).pos())),
    decreases old(cursor).tokens().len() - old(cursor).pos(), 0nat,
{
    let ghost tokens = cursor.spec_tokens();
    let ghost start = cursor.pos();
    let at = cursor.position();
    match cursor.peek() {
        None => {
            return Err(ParseError { kind: ParseErrorKind::UnexpectedEnd, at });
        },
        Some(token) => {
            if token.kind != TokenKind::BeginArray {
                return Err(ParseError { kind: ParseErrorKind::ExpectedValue, at });
            }
        },
    }
    cursor.next();
    let mut items: Vec<Value<'a>> = Vec::new();
    if let Some(token) = cursor.peek() {
        if token.kind == TokenKind::EndArray {
            cursor.next();
            assert(value_views(items@) =~= Seq::empty());
            return Ok(Value::Array(items));
        }
    }
    assert(value_views(items@) =~= Seq::empty());
    loop
        invariant
            cursor.tokens() == old(cursor).tokens(),
            tokens == old(cursor).spec_tokens(),
            start == old(cursor).pos(),
            start < cursor.pos(),
            values_wf(items@),
            parse_array_at(tokens, start) == parse_elements_at(
                tokens,
                cursor.pos(),
                value_views(items@),
            ),
        decreases cursor.tokens().len() - cursor.pos(),
    {
        let ghost here = cursor.pos();
        let ghost done = items@;
        proof {
            use_type_invariant(&*cursor);
            lemma_parse_value_advances(tokens, here);
        }
        match parse_value(cursor) {
            Err(e) => {
                return Err(e);
            },
            Ok(value) => {
                items.push(value);
            },
        }
        assert(value_views(items@) =~= value_views(done).push(items@.last()@));
        let at = cursor.position();
        match cursor.peek() {
            None => {
                return Err(ParseError { kind: ParseErrorKind::UnexpectedEnd, at });
            },
            Some(token) => match token.kind {
                TokenKind::Comma => {
                    cursor.next();
                },
                TokenKind::EndArray => {
                    cursor.next();
                    return Ok(Value::Array(items));
                },
                _ => {
                    return Err(ParseError { kind: ParseErrorKind::ExpectedCommaOrEndArray, at });
                },
            },
        }
    }
}

/// Reads the object at the cursor: an opening brace, then either the
/// closing brace at once or members with a comma between each two, and
/// the closing brace. A member is a string, a colon and a value. Where a
/// name comes twice, the later value stands.
pub fn parse_object<'t, 'a>(cursor: &mut Cursor<'t, 'a>) -> (r: Result<Value<'a>, ParseError>)
    ensures
        final(cursor).tokens() == old(cursor).tokens(),
        old(cursor).pos() <= final(cursor).pos() <= final(cursor).tokens().len(),
        agrees(r, final(cursor).pos(), parse_object_at(old(cursor).spec_tokens(), old(cursor).pos())),
    decreases old(cursor).tokens().len() - old(cursor).pos(), 0nat,
{
    let ghost tokens = cursor.spec_tokens();
    let ghost start = cursor.pos();
    let at = cursor.position();
    match cursor.peek() {
        None => {
            return Err(ParseError { kind: ParseErrorKind::UnexpectedEnd, at });
        },
        Some(token) => {
            if token.kind != TokenKind::BeginObject {
                return Err(ParseError { kind: ParseErrorKind::ExpectedValue, at });
            }
        },
    }
    cursor.next();
    let mut members: Vec<Member<'a>> = Vec::new();
    if let Some(token) = cursor.peek() {
        if token.kind == TokenKind::EndObject {
            cursor.next();
            return Ok(Value::Object(members));
        }
    }
    loop
        invariant
            cursor.tokens() == old(cursor).tokens(),
            tokens == old(cursor).spec_tokens(),
            start == old(cursor).pos(),
            start < cursor.pos(),
            members_wf(members@),
            parse_object_at(tokens, start) == parse_members_at(
                tokens,
                cursor.pos(),
                members_map(members@),
            ),
        decreases cursor.tokens().len() - cursor.pos(),
    {
        let ghost here = cursor.pos();
        let at = cursor.position();
        let key = match cursor.peek() {
            None => {
                return Err(ParseError { kind: ParseErrorKind::UnexpectedEnd, at });
            },
            Some(token) => {
                if token.kind != TokenKind::Str {
                    return Err(ParseError { kind: ParseErrorKind::ExpectedName, at });
                }
                token.text
            },
        };
        cursor.next();
        let at = cursor.position();
        match cursor.peek() {
            None => {
                return Err(ParseError { kind: ParseErrorKind::UnexpectedEnd, at });
            },
            Some(token) => {
                if token.kind != TokenKind::Colon {
                    return Err(ParseError { kind: ParseErrorKind::ExpectedColon, at });
                }
            },
        }
        cursor.next();
        proof {
            lemma_parse_value_advances(tokens, here + 2);
        }
        match parse_value(cursor) {
            Err(e) => {
                return Err(e);
            },
            Ok(value) => {
                insert_member(&mut members, key, value);
            },
        }
        let at = cursor.position();
        match cursor.peek() {
            None => {
                return Err(ParseError { kind: ParseErrorKind::UnexpectedEnd, at });
            },
            Some(token) => match token.kind {
                TokenKind::Comma => {
                    cursor.next();
                },
                TokenKind::EndObject => {
                    cursor.next();
                    return Ok(Value::Object(members));
                },
                _ => {
                    return Err(ParseError { kind: ParseErrorKind::ExpectedCommaOrEndObject, at });
                },
            },
        }
    }
}

/// Reads the value that `tokens` begin with. What follows the value is
/// not read.
pub fn parse<'a>(tokens: &[Token<'a>]) -> (r: Result<Value<'a>, ParseError>)
    ensures
        parse_tokens(token_views(tokens@)) matches Ok(value) ==> r is Ok && r->Ok_0@ == value
            && r->Ok_0.wf(),
        parse_tokens(token_views(tokens@)) matches Err(e) ==> r == Err::<Value<'a>, ParseError>(e),
{
    let mut cursor = Cursor::new(tokens);
    parse_value(&mut cursor)
}

} // verus!
