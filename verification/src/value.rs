//! Parsed values: numbers, arrays and objects.

use vstd::prelude::*;
use vstd::string::StringSliceAdditionalSpecFns;
use crate::number::is_float_literal;

verus! {

/// A value as contracts see it.
///
/// A number is the bytes of its literal. An array is the sequence of its
/// elements. An object maps each of its names, as bytes, to one value:
/// the order of its members is not kept.
pub enum SpecValue {
    Num(Seq<u8>),
    Array(Seq<SpecValue>),
    Object(Map<Seq<u8>, SpecValue>),
}

/// A member of an object: a name and its value. The name borrows from the
/// parsed text.
#[derive(Debug, PartialEq)]
pub struct Member<'a> {
    pub key: &'a str,
    pub value: Value<'a>,
}

/// A parsed value. Literals and names borrow from the parsed text.
///
/// A number holds its literal as written. In a value that is well formed,
/// as every parsed value is, the literal is a floating-point literal and
/// no object has a name twice.
#[derive(Debug, PartialEq)]
pub enum Value<'a> {
    Num(&'a str),
    Array(Vec<Value<'a>>),
    Object(Vec<Member<'a>>),
}

/// The mapping that a list of members stands for: each name maps to the
/// value of the last member that bears it.
pub open spec fn members_map(members: Seq<Member>) -> Map<Seq<u8>, SpecValue>
    decreases members,
{
    if members.len() == 0 {
        Map::empty()
    } else {
        members_map(members.drop_last()).insert(
            members.last().key.spec_bytes(),
            members.last().value.view(),
        )
    }
}

/// What each of `items` stands for, in order.
pub open spec fn value_views(items: Seq<Value>) -> Seq<SpecValue>
    decreases items,
{
    Seq::new(
        items.len(),
        |i: int|
            if 0 <= i < items.len() {
                items[i].view()
            } else {
                SpecValue::Num(Seq::empty())
            },
    )
}

/// Whether each of `items` is well formed.
pub open spec fn values_wf(items: Seq<Value>) -> bool {
    forall|i: int| 0 <= i < items.len() ==> (#[trigger] items[i]).wf()
}

/// Whether no two members bear the same name.
pub open spec fn distinct_keys(members: Seq<Member>) -> bool {
    forall|i: int, j: int|
        0 <= i < j < members.len() ==> (#[trigger] members[i]).key.spec_bytes() != (
        #[trigger] members[j]).key.spec_bytes()
}

impl<'a> Value<'a> {
    /// What this value stands for.
    pub open spec fn view(&self) -> SpecValue
        decreases self,
    {
        match self {
            Value::Num(literal) => SpecValue::Num(literal.spec_bytes()),
            Value::Array(items) => SpecValue::Array(value_views(items@)),
            Value::Object(members) => SpecValue::Object(members_map(members@)),
        }
    }

    /// Whether this value is well formed: every number in it is a
    /// floating-point literal, and no object in it has a name twice.
    pub open spec fn wf(&self) -> bool
        decreases self,
    {
        match self {
            Value::Num(literal) => is_float_literal(literal.spec_bytes()),
            Value::Array(items) => forall|i: int|
                0 <= i < items@.len() ==> (#[trigger] items@[i]).wf(),
            Value::Object(members) => distinct_keys(members@) && forall|i: int|
                0 <= i < members@.len() ==> (#[trigger] members@[i]).value.wf(),
        }
    }
}

/// Whether `members` may be the members of a well-formed object.
pub open spec fn members_wf(members: Seq<Member>) -> bool {
    distinct_keys(members) && forall|i: int|
        0 <= i < members.len() ==> (#[trigger] members[i]).value.wf()
}

/// Writing a member with a new name behind the others adds it to the mapping.
pub proof fn lemma_members_map_push(members: Seq<Member>, member: Member)
    ensures
        members_map(members.push(member)) == members_map(members).insert(
            member.key.spec_bytes(),
            member.value@,
        ),
{
    assert(members.push(member).drop_last() =~= members);
}

/// Replacing the value of a member, where no name occurs twice, replaces
/// what its name maps to and nothing else.
pub proof fn lemma_members_map_update(members: Seq<Member>, i: int, member: Member)
    requires
        distinct_keys(members),
        0 <= i < members.len(),
        members[i].key.spec_bytes() == member.key.spec_bytes(),
    ensures
        distinct_keys(members.update(i, member)),
        members_map(members.update(i, member)) == members_map(members).insert(
            member.key.spec_bytes(),
            member.value@,
        ),
    decreases members.len(),
{
    let updated = members.update(i, member);
    let front = members.drop_last();
    let last = members.last();
    if i == members.len() - 1 {
        assert(updated.drop_last() =~= front);
        assert(members_map(updated) =~= members_map(members).insert(
            member.key.spec_bytes(),
            member.value@,
        ));
    } else {
        assert(updated.drop_last() =~= front.update(i, member));
        assert(distinct_keys(front));
        lemma_members_map_update(front, i, member);
        assert(last.key.spec_bytes() != members[i].key.spec_bytes());
        assert(members_map(updated) =~= members_map(members).insert(
            member.key.spec_bytes(),
            member.value@,
        ));
    }
}

/// A name that no member bears is not in the mapping.
pub proof fn lemma_members_map_without(members: Seq<Member>, key: Seq<u8>)
    requires
        forall|j: int| 0 <= j < members.len() ==> (#[trigger] members[j]).key.spec_bytes() != key,
    ensures
        !members_map(members).dom().contains(key),
    decreases members.len(),
{
    if members.len() > 0 {
        lemma_members_map_without(members.drop_last(), key);
    }
}

/// A name maps to the value of the last member that bears it.
pub proof fn lemma_members_map_last(members: Seq<Member>, i: int)
    requires
        0 <= i < members.len(),
        forall|j: int|
            i < j < members.len() ==> (#[trigger] members[j]).key.spec_bytes()
                != members[i].key.spec_bytes(),
    ensures
        members_map(members).dom().contains(members[i].key.spec_bytes()),
        members_map(members)[members[i].key.spec_bytes()] == members[i].value@,
    decreases members.len(),
{
    if i < members.len() - 1 {
        lemma_members_map_last(members.drop_last(), i);
    }
}

/// Whether two texts hold the same bytes.
pub fn same_text(a: &str, b: &str) -> (r: bool)
    ensures
        r == (a.spec_bytes() == b.spec_bytes()),
{
    let x = a.as_bytes();
    let y = b.as_bytes();
    if x.len() != y.len() {
        return false;
    }
    let mut i: usize = 0;
    while i < x.len()
        invariant
            i <= x@.len(),
            x@.len() == y@.len(),
            x@ == a.spec_bytes(),
            y@ == b.spec_bytes(),
            forall|j: int| 0 <= j < i ==> x@[j] == y@[j],
        decreases x@.len() - i,
    {
        if x[i] != y[i] {
            return false;
        }
        i += 1;
    }
    assert(x@ =~= y@);
    true
}

/// The index of the last member that bears the name `key`, if any does.
pub fn find_member<'a>(members: &Vec<Member<'a>>, key: &str) -> (r: Option<usize>)
    ensures
        r matches Some(i) ==> i < members@.len() && members@[i as int].key.spec_bytes()
            == key.spec_bytes() && forall|j: int|
            i < j < members@.len() ==> (#[trigger] members@[j]).key.spec_bytes()
                != key.spec_bytes(),
        r is None ==> forall|j: int|
            0 <= j < members@.len() ==> (#[trigger] members@[j]).key.spec_bytes()
                != key.spec_bytes(),
{
    let mut i = members.len();
    while i > 0
        invariant
            i <= members@.len(),
            forall|j: int|
                i <= j < members@.len() ==> (#[trigger] members@[j]).key.spec_bytes()
                    != key.spec_bytes(),
        decreases i,
    {
        i -= 1;
        if same_text(members[i].key, key) {
            return Some(i);
        }
    }
    None
}

/// Writes `value` under the name `key`: in place of the value that the
/// name had, or as a new member.
pub fn insert_member<'a>(members: &mut Vec<Member<'a>>, key: &'a str, value: Value<'a>)
    requires
        members_wf(old(members)@),
        value.wf(),
    ensures
        members_wf(final(members)@),
        members_map(final(members)@) == members_map(old(members)@).insert(
            key.spec_bytes(),
            value@,
        ),
{
    let member = Member { key, value };
    match find_member(members, key) {
        Some(i) => {
            proof {
                lemma_members_map_update(members@, i as int, member);
            }
            members[i] = member;
        },
        None => {
            proof {
                lemma_members_map_push(members@, member);
            }
            members.push(member);
        },
    }
}

impl<'a> Value<'a> {
    /// The value that the name `key` maps to, if this is an object that
    /// has the name.
    pub fn get(&self, key: &str) -> (r: Option<&Value<'a>>)
        ensures
            match self@ {
                SpecValue::Object(map) => if map.dom().contains(key.spec_bytes()) {
                    r is Some && r->Some_0@ == map[key.spec_bytes()]
                } else {
                    r is None
                },
                _ => r is None,
            },
            self.wf() && r is Some ==> r->Some_0.wf(),
    {
        match self {
            Value::Object(members) => match find_member(members, key) {
                Some(i) => {
                    proof {
                        lemma_members_map_last(members@, i as int);
                    }
                    Some(&members[i].value)
                },
                None => {
                    proof {
                        lemma_members_map_without(members@, key.spec_bytes());
                    }
                    None
                },
            },
            _ => None,
        }
    }

    /// The elements, if this is an array.
    pub fn as_array(&self) -> (r: Option<&Vec<Value<'a>>>)
        ensures
            match self {
                Value::Array(items) => r == Some(items),
                _ => r is None,
            },
    {
        match self {
            Value::Array(items) => Some(items),
            _ => None,
        }
    }

    /// The members, if this is an object.
    pub fn as_object(&self) -> (r: Option<&Vec<Member<'a>>>)
        ensures
            match self {
                Value::Object(members) => r == Some(members),
                _ => r is None,
            },
    {
        match self {
            Value::Object(members) => Some(members),
            _ => None,
        }
    }

    /// The literal, if this is a number.
    pub fn as_number(&self) -> (r: Option<&'a str>)
        ensures
            match self {
                Value::Num(literal) => r == Some(*literal),
                _ => r is None,
            },
    {
        match self {
            Value::Num(literal) => Some(*literal),
            _ => None,
        }
    }
}

} // verus!
