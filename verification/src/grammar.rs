//! The grammar, said over trees: what it is for tokens to spell a value,
//! and the proof that the parser reads exactly what is spelled.
//!
//! A tree holds a value as it is written, with the members of an object
//! in their order and every one of them, also where a name comes twice.

use vstd::prelude::*;
use crate::number::is_float_literal;
use crate::parser::{
    parse_array_at, parse_elements_at, parse_members_at, parse_number_at, parse_object_at,
    parse_value_at, ParseError,
};
use crate::token::{SpecToken, TokenKind};
use crate::value::SpecValue;

verus! {

/// A value as it is written.
pub enum Syntax {
    /// A number: its literal.
    Num(Seq<u8>),
    /// An array: its elements in order.
    Array(Seq<Syntax>),
    /// An object: its members in order.
    Object(Seq<NamedSyntax>),
}

/// A member as it is written: its name and its value.
pub struct NamedSyntax {
    pub name: Seq<u8>,
    pub value: Syntax,
}

/// The number of tokens that spell `tree`.
pub open spec fn width(tree: Syntax) -> nat
    decreases tree,
{
    match tree {
        Syntax::Num(_) => 1,
        Syntax::Array(items) => 2 + elements_width(items),
        Syntax::Object(members) => 2 + members_width(members),
    }
}

/// The number of tokens that spell `items` with a comma between each two.
pub open spec fn elements_width(items: Seq<Syntax>) -> nat
    decreases items,
{
    if items.len() == 0 {
        0
    } else if items.len() == 1 {
        width(items[0])
    } else {
        width(items[0]) + 1 + elements_width(items.skip(1))
    }
}

/// The number of tokens that spell `members` with a comma between each
/// two: for each member its name, a colon and its value.
pub open spec fn members_width(members: Seq<NamedSyntax>) -> nat
    decreases members,
{
    if members.len() == 0 {
        0
    } else if members.len() == 1 {
        2 + width(members[0].value)
    } else {
        2 + width(members[0].value) + 1 + members_width(members.skip(1))
    }
}

/// Whether the token at `pos` is there and of kind `kind`.
pub open spec fn kind_at(tokens: Seq<SpecToken>, pos: int, kind: TokenKind) -> bool {
    0 <= pos < tokens.len() && tokens[pos].kind == kind
}

/// Whether the tokens from `pos` on spell `tree`.
///
/// A number is one number token whose text is a floating-point literal.
/// An array is an opening bracket, its elements and a closing bracket; an
/// object is an opening brace, its members and a closing brace.
pub open spec fn written_at(tokens: Seq<SpecToken>, pos: int, tree: Syntax) -> bool
    decreases tree,
{
    match tree {
        Syntax::Num(literal) => {
            &&& kind_at(tokens, pos, TokenKind::Num)
            &&& tokens[pos].text == literal
            &&& is_float_literal(literal)
        },
        Syntax::Array(items) => {
            &&& kind_at(tokens, pos, TokenKind::BeginArray)
            &&& elements_at(tokens, pos + 1, items)
            &&& kind_at(tokens, pos + 1 + elements_width(items), TokenKind::EndArray)
        },
        Syntax::Object(members) => {
            &&& kind_at(tokens, pos, TokenKind::BeginObject)
            &&& members_at(tokens, pos + 1, members)
            &&& kind_at(tokens, pos + 1 + members_width(members), TokenKind::EndObject)
        },
    }
}

/// Whether the tokens from `pos` on spell `items`, one behind the other
/// with a comma between each two.
pub open spec fn elements_at(tokens: Seq<SpecToken>, pos: int, items: Seq<Syntax>) -> bool
    decreases items,
{
    if items.len() == 0 {
        true
    } else {
        &&& written_at(tokens, pos, items[0])
        &&& items.len() > 1 ==> {
            &&& kind_at(tokens, pos + width(items[0]), TokenKind::Comma)
            &&& elements_at(tokens, pos + width(items[0]) + 1, items.skip(1))
        }
    }
}

/// Whether the tokens from `pos` on spell `members`, one behind the other
/// with a comma between each two: each a string token that holds the
/// name, a colon, and the value.
pub open spec fn members_at(tokens: Seq<SpecToken>, pos: int, members: Seq<NamedSyntax>) -> bool
    decreases members,
{
    if members.len() == 0 {
        true
    } else {
        &&& kind_at(tokens, pos, TokenKind::Str)
        &&& tokens[pos].text == members[0].name
        &&& kind_at(tokens, pos + 1, TokenKind::Colon)
        &&& written_at(tokens, pos + 2, members[0].value)
        &&& members.len() > 1 ==> {
            &&& kind_at(tokens, pos + 2 + width(members[0].value), TokenKind::Comma)
            &&& members_at(tokens, pos + 2 + width(members[0].value) + 1, members.skip(1))
        }
    }
}

/// The value that `tree` stands for. The members of an object are written
/// into a mapping one after the other, so that of two members with one
/// name the later stands.
pub open spec fn value_of(tree: Syntax) -> SpecValue
    decreases tree,
{
    match tree {
        Syntax::Num(literal) => SpecValue::Num(literal),
        Syntax::Array(items) => SpecValue::Array(values_of(items)),
        Syntax::Object(members) => SpecValue::Object(written_into(Map::empty(), members)),
    }
}

/// The values that `items` stand for, in order.
pub open spec fn values_of(items: Seq<Syntax>) -> Seq<SpecValue>
    decreases items,
{
    if items.len() == 0 {
        Seq::empty()
    } else {
        seq![value_of(items[0])] + values_of(items.skip(1))
    }
}

/// The mapping `done` after each of `members` was written into it, in
/// order.
pub open spec fn written_into(
    done: Map<Seq<u8>, SpecValue>,
    members: Seq<NamedSyntax>,
) -> Map<Seq<u8>, SpecValue>
    decreases members,
{
    if members.len() == 0 {
        done
    } else {
        written_into(done.insert(members[0].name, value_of(members[0].value)), members.skip(1))
    }
}

/// Every tree takes at least one token.
pub proof fn lemma_width_positive(tree: Syntax)
    ensures
        width(tree) >= 1,
{
}

/// What tokens spell parses to the value that is spelled, and takes
/// exactly the tokens that spell it.
pub proof fn lemma_written_value_parses(tokens: Seq<SpecToken>, pos: int, tree: Syntax)
    requires
        written_at(tokens, pos, tree),
    ensures
        parse_value_at(tokens, pos) == Ok::<(SpecValue, int), ParseError>(
            (value_of(tree), pos + width(tree)),
        ),
    decreases tree,
{
    match tree {
        Syntax::Num(literal) => {
            assert(parse_value_at(tokens, pos) == parse_number_at(tokens, pos));
        },
        Syntax::Array(items) => {
            assert(parse_value_at(tokens, pos) == parse_array_at(tokens, pos));
            if items.len() == 0 {
                assert(values_of(items) =~= Seq::empty());
            } else {
                assert(written_at(tokens, pos + 1, items[0]));
                assert(tokens[pos + 1].kind != TokenKind::EndArray);
                lemma_written_elements_parse(tokens, pos + 1, items, Seq::empty());
                assert(Seq::<SpecValue>::empty() + values_of(items) =~= values_of(items));
            }
        },
        Syntax::Object(members) => {
            assert(parse_value_at(tokens, pos) == parse_object_at(tokens, pos));
            if members.len() > 0 {
                assert(tokens[pos + 1].kind != TokenKind::EndObject);
                lemma_written_members_parse(tokens, pos + 1, members, Map::empty());
            }
        },
    }
}

/// Elements that are spelled up to the closing bracket parse to the rest
/// of the array.
pub proof fn lemma_written_elements_parse(
    tokens: Seq<SpecToken>,
    pos: int,
    items: Seq<Syntax>,
    done: Seq<SpecValue>,
)
    requires
        items.len() > 0,
        elements_at(tokens, pos, items),
        kind_at(tokens, pos + elements_width(items), TokenKind::EndArray),
    ensures
        parse_elements_at(tokens, pos, done) == Ok::<(SpecValue, int), ParseError>(
            (SpecValue::Array(done + values_of(items)), pos + elements_width(items) + 1),
        ),
    decreases items,
{
    let first = items[0];
    let rest = items.skip(1);
    assert(written_at(tokens, pos, first));
    lemma_written_value_parses(tokens, pos, first);
    lemma_width_positive(first);
    let next = pos + width(first);
    if items.len() == 1 {
        assert(values_of(rest) =~= Seq::empty());
        assert(done.push(value_of(first)) =~= done + values_of(items));
    } else {
        lemma_written_elements_parse(tokens, next + 1, rest, done.push(value_of(first)));
        assert(done.push(value_of(first)) + values_of(rest) =~= done + values_of(items));
    }
}

/// Members that are spelled up to the closing brace parse to the rest of
/// the object.
pub proof fn lemma_written_members_parse(
    tokens: Seq<SpecToken>,
    pos: int,
    members: Seq<NamedSyntax>,
    done: Map<Seq<u8>, SpecValue>,
)
    requires
        members.len() > 0,
        members_at(tokens, pos, members),
        kind_at(tokens, pos + members_width(members), TokenKind::EndObject),
    ensures
        parse_members_at(tokens, pos, done) == Ok::<(SpecValue, int), ParseError>(
            (SpecValue::Object(written_into(done, members)), pos + members_width(members) + 1),
        ),
    decreases members,
{
    let first = members[0];
    let rest = members.skip(1);
    lemma_written_value_parses(tokens, pos + 2, first.value);
    lemma_width_positive(first.value);
    let next = pos + 2 + width(first.value);
    let now = done.insert(first.name, value_of(first.value));
    if members.len() == 1 {
        assert(written_into(now, rest) == now);
    } else {
        lemma_written_members_parse(tokens, next + 1, rest, now);
    }
}

/// What parses is spelled: where a value is read at `pos`, the tokens
/// there spell a tree, which is returned, and the value is that of the
/// tree.
pub proof fn lemma_parsed_value_is_written(tokens: Seq<SpecToken>, pos: int) -> (tree: Syntax)
    requires
        0 <= pos,
        parse_value_at(tokens, pos) is Ok,
    ensures
        written_at(tokens, pos, tree),
        parse_value_at(tokens, pos) == Ok::<(SpecValue, int), ParseError>(
            (value_of(tree), pos + width(tree)),
        ),
    decreases tokens.len() - pos, 1nat,
{
    match tokens[pos].kind {
        TokenKind::BeginObject => {
            assert(parse_value_at(tokens, pos) == parse_object_at(tokens, pos));
            if pos + 1 < tokens.len() && tokens[pos + 1].kind == TokenKind::EndObject {
                Syntax::Object(Seq::empty())
            } else {
                let members = lemma_parsed_members_are_written(tokens, pos + 1, Map::empty());
                Syntax::Object(members)
            }
        },
        TokenKind::BeginArray => {
            assert(parse_value_at(tokens, pos) == parse_array_at(tokens, pos));
            if pos + 1 < tokens.len() && tokens[pos + 1].kind == TokenKind::EndArray {
                assert(values_of(Seq::empty()) =~= Seq::empty());
                Syntax::Array(Seq::empty())
            } else {
                let items = lemma_parsed_elements_are_written(tokens, pos + 1, Seq::empty());
                assert(Seq::<SpecValue>::empty() + values_of(items) =~= values_of(items));
                Syntax::Array(items)
            }
        },
        _ => {
            assert(parse_value_at(tokens, pos) == parse_number_at(tokens, pos));
            Syntax::Num(tokens[pos].text)
        },
    }
}

/// Where the rest of an array is read at `pos`, the tokens there spell
/// elements, which are returned, up to the closing bracket.
pub proof fn lemma_parsed_elements_are_written(
    tokens: Seq<SpecToken>,
    pos: int,
    done: Seq<SpecValue>,
) -> (items: Seq<Syntax>)
    requires
        0 <= pos,
        parse_elements_at(tokens, pos, done) is Ok,
    ensures
        items.len() > 0,
        elements_at(tokens, pos, items),
        kind_at(tokens, pos + elements_width(items), TokenKind::EndArray),
        parse_elements_at(tokens, pos, done) == Ok::<(SpecValue, int), ParseError>(
            (SpecValue::Array(done + values_of(items)), pos + elements_width(items) + 1),
        ),
    decreases tokens.len() - pos, 2nat,
{
    let first = lemma_parsed_value_is_written(tokens, pos);
    lemma_width_positive(first);
    let next = pos + width(first);
    if tokens[next].kind == TokenKind::Comma {
        let rest = lemma_parsed_elements_are_written(tokens, next + 1, done.push(value_of(first)));
        let items = seq![first] + rest;
        assert(items[0] == first);
        assert(items.skip(1) =~= rest);
        assert(done.push(value_of(first)) + values_of(rest) =~= done + values_of(items));
        items
    } else {
        let items = seq![first];
        assert(values_of(items.skip(1)) =~= Seq::empty());
        assert(done.push(value_of(first)) =~= done + values_of(items));
        items
    }
}

/// Where the rest of an object is read at `pos`, the tokens there spell
/// members, which are returned, up to the closing brace.
pub proof fn lemma_parsed_members_are_written(
    tokens: Seq<SpecToken>,
    pos: int,
    done: Map<Seq<u8>, SpecValue>,
) -> (members: Seq<NamedSyntax>)
    requires
        0 <= pos,
        parse_members_at(tokens, pos, done) is Ok,
    ensures
        members.len() > 0,
        members_at(tokens, pos, members),
        kind_at(tokens, pos + members_width(members), TokenKind::EndObject),
        parse_members_at(tokens, pos, done) == Ok::<(SpecValue, int), ParseError>(
            (SpecValue::Object(written_into(done, members)), pos + members_width(members) + 1),
        ),
    decreases tokens.len() - pos, 2nat,
{
    let value = lemma_parsed_value_is_written(tokens, pos + 2);
    lemma_width_positive(value);
    let first = NamedSyntax { name: tokens[pos].text, value };
    let next = pos + 2 + width(value);
    let now = done.insert(first.name, value_of(value));
    if tokens[next].kind == TokenKind::Comma {
        let rest = lemma_parsed_members_are_written(tokens, next + 1, now);
        let members = seq![first] + rest;
        assert(members[0] == first);
        assert(members.skip(1) =~= rest);
        members
    } else {
        let members = seq![first];
        assert(written_into(now, members.skip(1)) == now);
        members
    }
}

/// A value is read at `pos`, up to `next`, exactly where the tokens from
/// `pos` up to `next` spell a tree of which it is the value.
pub proof fn lemma_parse_value_iff_written(
    tokens: Seq<SpecToken>,
    pos: int,
    value: SpecValue,
    next: int,
)
    requires
        0 <= pos,
    ensures
        parse_value_at(tokens, pos) == Ok::<(SpecValue, int), ParseError>((value, next))
            <==> exists|tree: Syntax| #[trigger]
            written_at(tokens, pos, tree) && value_of(tree) == value && pos + width(tree) == next,
{
    if parse_value_at(tokens, pos) == Ok::<(SpecValue, int), ParseError>((value, next)) {
        let tree = lemma_parsed_value_is_written(tokens, pos);
        assert(written_at(tokens, pos, tree) && value_of(tree) == value && pos + width(tree)
            == next);
    }
    if exists|tree: Syntax| #[trigger]
        written_at(tokens, pos, tree) && value_of(tree) == value && pos + width(tree) == next {
        let tree = choose|tree: Syntax| #[trigger]
            written_at(tokens, pos, tree) && value_of(tree) == value && pos + width(tree) == next;
        lemma_written_value_parses(tokens, pos, tree);
    }
}

/// Writing members into a mapping leaves every name that none of them
/// bears as it was.
pub proof fn lemma_written_into_keeps(
    done: Map<Seq<u8>, SpecValue>,
    members: Seq<NamedSyntax>,
    name: Seq<u8>,
)
    requires
        forall|j: int| 0 <= j < members.len() ==> (#[trigger] members[j]).name != name,
    ensures
        written_into(done, members).dom().contains(name) == done.dom().contains(name),
        done.dom().contains(name) ==> written_into(done, members)[name] == done[name],
    decreases members.len(),
{
    if members.len() > 0 {
        let rest = members.skip(1);
        assert forall|j: int| 0 <= j < rest.len() implies (#[trigger] rest[j]).name != name by {
            assert(rest[j] == members[j + 1]);
        }
        assert(members[0].name != name);
        lemma_written_into_keeps(
            done.insert(members[0].name, value_of(members[0].value)),
            rest,
            name,
        );
    }
}

/// Of the members that bear one name the last one stands: the name maps
/// to its value.
pub proof fn lemma_last_member_stands(
    done: Map<Seq<u8>, SpecValue>,
    members: Seq<NamedSyntax>,
    i: int,
)
    requires
        0 <= i < members.len(),
        forall|j: int| i < j < members.len() ==> (#[trigger] members[j]).name != members[i].name,
    ensures
        written_into(done, members).dom().contains(members[i].name),
        written_into(done, members)[members[i].name] == value_of(members[i].value),
    decreases members.len(),
{
    let rest = members.skip(1);
    let now = done.insert(members[0].name, value_of(members[0].value));
    if i == 0 {
        assert forall|j: int| 0 <= j < rest.len() implies (#[trigger] rest[j]).name
            != members[0].name by {
            assert(rest[j] == members[j + 1]);
        }
        lemma_written_into_keeps(now, rest, members[0].name);
    } else {
        assert(rest[i - 1] == members[i]);
        assert forall|j: int| i - 1 < j < rest.len() implies (#[trigger] rest[j]).name != rest[i
            - 1].name by {
            assert(rest[j] == members[j + 1]);
        }
        lemma_last_member_stands(now, rest, i - 1);
    }
}

/// The values of elements are as many as the elements, and each is the
/// value of its element.
pub proof fn lemma_values_of(items: Seq<Syntax>)
    ensures
        values_of(items).len() == items.len(),
        forall|k: int| 0 <= k < items.len() ==> #[trigger] values_of(items)[k] == value_of(items[k]),
    decreases items.len(),
{
    if items.len() > 0 {
        let rest = items.skip(1);
        lemma_values_of(rest);
        assert forall|k: int| 0 <= k < items.len() implies #[trigger] values_of(items)[k]
            == value_of(items[k]) by {
            if k > 0 {
                assert(values_of(items)[k] == values_of(rest)[k - 1]);
                assert(rest[k - 1] == items[k]);
            }
        }
    }
}

} // verus!
