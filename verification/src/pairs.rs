//! The shape of a document of coordinate pairs, and the proof that such a
//! document parses to a value of that shape.
//!
//! ```text
//! {"pairs": [ {"x0": n, "y0": n, "x1": n, "y1": n}, ... ]}
//! ```

use vstd::prelude::*;
use crate::grammar::{
    lemma_values_of, lemma_written_value_parses, value_of, values_of, written_at, written_into,
    NamedSyntax, Syntax,
};
use crate::json::{parse_bytes, JsonError};
use crate::parser::{parse_tokens, ParseError};
use crate::token::SpecToken;
use crate::tokenization::{is_tokenization, lemma_tokenization_is_lex_from};
use crate::value::SpecValue;

verus! {

/// `pairs`
pub open spec fn name_pairs() -> Seq<u8> {
    seq![0x70u8, 0x61, 0x69, 0x72, 0x73]
}

/// `x0`
pub open spec fn name_x0() -> Seq<u8> {
    seq![0x78u8, 0x30]
}

/// `y0`
pub open spec fn name_y0() -> Seq<u8> {
    seq![0x79u8, 0x30]
}

/// `x1`
pub open spec fn name_x1() -> Seq<u8> {
    seq![0x78u8, 0x31]
}

/// `y1`
pub open spec fn name_y1() -> Seq<u8> {
    seq![0x79u8, 0x31]
}

/// Whether `member` is written as the name `name` with a number.
pub open spec fn is_number_member(member: NamedSyntax, name: Seq<u8>) -> bool {
    member.name == name && member.value is Num
}

/// Whether `tree` is written as one pair: an object with the members
/// `x0`, `y0`, `x1` and `y1`, in this order and each a number.
pub open spec fn is_pair_tree(tree: Syntax) -> bool {
    &&& tree matches Syntax::Object(members)
    &&& members.len() == 4
    &&& is_number_member(members[0], name_x0())
    &&& is_number_member(members[1], name_y0())
    &&& is_number_member(members[2], name_x1())
    &&& is_number_member(members[3], name_y1())
}

/// Whether `tree` is written as a document of `n` pairs: an object whose
/// one member, `pairs`, is an array of `n` pairs.
pub open spec fn is_pairs_tree(tree: Syntax, n: nat) -> bool {
    &&& tree matches Syntax::Object(members)
    &&& members.len() == 1
    &&& members[0].name == name_pairs()
    &&& members[0].value matches Syntax::Array(items)
    &&& items.len() == n
    &&& forall|k: int| 0 <= k < n ==> is_pair_tree(#[trigger] items[k])
}

/// Whether `value` is an object with exactly the four names of a pair,
/// each of them a number.
pub open spec fn has_pair_shape(value: SpecValue) -> bool {
    &&& value matches SpecValue::Object(members)
    &&& members.dom() == set![name_x0(), name_y0(), name_x1(), name_y1()]
    &&& members[name_x0()] is Num
    &&& members[name_y0()] is Num
    &&& members[name_x1()] is Num
    &&& members[name_y1()] is Num
}

/// Whether `value` is an object with the one name `pairs`, whose value
/// is an array of `n` elements, each of the shape of a pair.
pub open spec fn has_pairs_shape(value: SpecValue, n: nat) -> bool {
    &&& value matches SpecValue::Object(members)
    &&& members.dom() == set![name_pairs()]
    &&& members[name_pairs()] matches SpecValue::Array(elements)
    &&& elements.len() == n
    &&& forall|k: int| 0 <= k < n ==> has_pair_shape(#[trigger] elements[k])
}

/// The value of what is written as a pair has the shape of a pair.
pub proof fn lemma_pair_value_shape(tree: Syntax)
    requires
        is_pair_tree(tree),
    ensures
        has_pair_shape(value_of(tree)),
{
    let members = tree->Object_0;
    let none = Map::<Seq<u8>, SpecValue>::empty();
    let m1 = none.insert(members[0].name, value_of(members[0].value));
    let m2 = m1.insert(members[1].name, value_of(members[1].value));
    let m3 = m2.insert(members[2].name, value_of(members[2].value));
    let m4 = m3.insert(members[3].name, value_of(members[3].value));
    let r1 = members.skip(1);
    let r2 = r1.skip(1);
    let r3 = r2.skip(1);
    let r4 = r3.skip(1);
    assert(r1[0] == members[1] && r2[0] == members[2] && r3[0] == members[3]);
    assert(written_into(m4, r4) == m4);
    assert(written_into(m3, r3) == m4);
    assert(written_into(m2, r2) == m4);
    assert(written_into(m1, r1) == m4);
    assert(written_into(none, members) == m4);
    assert(name_x0()[0] == 0x78 && name_x0()[1] == 0x30);
    assert(name_y0()[0] == 0x79 && name_y0()[1] == 0x30);
    assert(name_x1()[0] == 0x78 && name_x1()[1] == 0x31);
    assert(name_y1()[0] == 0x79 && name_y1()[1] == 0x31);
    assert(m4.dom() =~= set![name_x0(), name_y0(), name_x1(), name_y1()]);
}

/// The value of what is written as a document of `n` pairs has the shape
/// of such a document.
pub proof fn lemma_pairs_value_shape(tree: Syntax, n: nat)
    requires
        is_pairs_tree(tree, n),
    ensures
        has_pairs_shape(value_of(tree), n),
{
    let members = tree->Object_0;
    let items = members[0].value->Array_0;
    let none = Map::<Seq<u8>, SpecValue>::empty();
    let one = none.insert(members[0].name, value_of(members[0].value));
    assert(written_into(one, members.skip(1)) == one);
    assert(written_into(none, members) == one);
    assert(one.dom() =~= set![name_pairs()]);
    lemma_values_of(items);
    assert forall|k: int| 0 <= k < n implies has_pair_shape(#[trigger] values_of(items)[k]) by {
        assert(is_pair_tree(items[k]));
        lemma_pair_value_shape(items[k]);
    }
}

/// A text that is written as a document of `n` pairs parses to an object
/// with the one name `pairs`, whose value is an array of `n` objects,
/// each with exactly the four names of a pair and a number under each.
///
/// The text is one whose tokens, with blanks between them at will, spell
/// the document.
pub proof fn lemma_pairs_document_parses(
    s: Seq<u8>,
    tokens: Seq<SpecToken>,
    tree: Syntax,
    n: nat,
)
    requires
        is_tokenization(s, tokens, 0),
        written_at(tokens, 0, tree),
        is_pairs_tree(tree, n),
    ensures
        parse_tokens(tokens) == Ok::<SpecValue, ParseError>(value_of(tree)),
        parse_bytes(s) == Ok::<SpecValue, JsonError>(value_of(tree)),
        has_pairs_shape(value_of(tree), n),
{
    lemma_tokenization_is_lex_from(s, tokens, 0);
    lemma_written_value_parses(tokens, 0, tree);
    lemma_pairs_value_shape(tree, n);
}

} // verus!
