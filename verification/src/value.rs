//! The mathematical model of a JSON document.
//!
//! Every contract of this crate speaks of documents through [`JsonValue`]: a
//! tree whose array elements and object members are sequences in sibling
//! order. An object is a sequence of named members, not a map: a name may
//! occur more than once, and a lookup by name finds the first member that
//! carries it.

use vstd::prelude::*;
use crate::number::bits_of_int;
use crate::number::number_eq;

verus! {

/// A JSON document as a mathematical value.
pub enum JsonValue {
    Null,
    Bool(bool),
    /// A number, held as the bit pattern of an IEEE-754 binary64 value.
    Number(u64),
    /// A string, held as its bytes.
    String(Seq<u8>),
    /// The elements of an array, in sibling order.
    Array(Seq<JsonValue>),
    /// The members of an object, in sibling order, each with its name.
    Object(Seq<(Seq<u8>, JsonValue)>),
}

/// An integer as a document: the number nearest to it.
pub open spec fn integer_document(n: int) -> JsonValue {
    JsonValue::Number(bits_of_int(n) as u64)
}

/// The index of the first member of `members` that is named `key`, if any.
pub open spec fn find_member(members: Seq<(Seq<u8>, JsonValue)>, key: Seq<u8>) -> Option<int>
    decreases members.len(),
{
    if members.len() == 0 {
        None
    } else if members[0].0 == key {
        Some(0)
    } else {
        match find_member(members.drop_first(), key) {
            Some(i) => Some(i + 1),
            None => None,
        }
    }
}

/// What `find_member` finds: the least index whose member is named `key`,
/// and nothing exactly when no member carries that name.
pub proof fn lemma_find_member(members: Seq<(Seq<u8>, JsonValue)>, key: Seq<u8>)
    ensures
        match find_member(members, key) {
            Some(i) => {
                &&& 0 <= i < members.len()
                &&& members[i].0 == key
                &&& forall|j: int| 0 <= j < i ==> (#[trigger] members[j]).0 != key
            },
            None => forall|j: int| 0 <= j < members.len() ==> (#[trigger] members[j]).0 != key,
        },
    decreases members.len(),
{
    if members.len() > 0 && members[0].0 != key {
        let rest = members.drop_first();
        lemma_find_member(rest, key);
        assert(forall|j: int| 0 < j < members.len() ==> members[j] == rest[j - 1]);
    }
}

/// An index whose member is named `key`, with no such member before it, is
/// the one that `find_member` finds.
pub proof fn lemma_find_member_at(members: Seq<(Seq<u8>, JsonValue)>, key: Seq<u8>, index: int)
    requires
        0 <= index < members.len(),
        members[index].0 == key,
        forall|j: int| 0 <= j < index ==> (#[trigger] members[j]).0 != key,
    ensures
        find_member(members, key) == Some(index),
{
    lemma_find_member(members, key);
}

/// Where no member is named `key`, `find_member` finds nothing.
pub proof fn lemma_find_member_none(members: Seq<(Seq<u8>, JsonValue)>, key: Seq<u8>)
    requires
        forall|j: int| 0 <= j < members.len() ==> (#[trigger] members[j]).0 != key,
    ensures
        find_member(members, key) is None,
{
    lemma_find_member(members, key);
}

/// The members of an object after `value` has been inserted under `key`:
/// the first member named `key`, if there is one, has left, and the new
/// member stands behind the last.
pub open spec fn members_after_insert(
    members: Seq<(Seq<u8>, JsonValue)>,
    key: Seq<u8>,
    value: JsonValue,
) -> Seq<(Seq<u8>, JsonValue)> {
    match find_member(members, key) {
        Some(i) => members.remove(i).push((key, value)),
        None => members.push((key, value)),
    }
}

impl JsonValue {
    /// The values that hang below this node, in sibling order: the elements
    /// of an array, the member values of an object, nothing for a scalar.
    pub open spec fn children(self) -> Seq<JsonValue> {
        match self {
            JsonValue::Array(items) => items,
            JsonValue::Object(members) => Seq::new(members.len(), |i: int| members[i].1),
            _ => Seq::empty(),
        }
    }

    /// The names of the members of an object, in sibling order.
    pub open spec fn names(self) -> Seq<Seq<u8>> {
        match self {
            JsonValue::Object(members) => Seq::new(members.len(), |i: int| members[i].0),
            _ => Seq::empty(),
        }
    }

    /// The members of an object; nothing for any other node.
    pub open spec fn members(self) -> Seq<(Seq<u8>, JsonValue)> {
        match self {
            JsonValue::Object(members) => members,
            _ => Seq::empty(),
        }
    }

    /// The value of the first member named `key`.
    pub open spec fn get(self, key: Seq<u8>) -> Option<JsonValue> {
        match find_member(self.members(), key) {
            Some(i) => Some(self.members()[i].1),
            None => None,
        }
    }

    /// This node with the value of its child at `index` replaced by `child`.
    /// The child keeps its place and, in an object, its name.
    pub open spec fn with_child(self, index: int, child: JsonValue) -> JsonValue {
        match self {
            JsonValue::Array(items) => JsonValue::Array(items.update(index, child)),
            JsonValue::Object(members) => JsonValue::Object(
                members.update(index, (members[index].0, child)),
            ),
            _ => self,
        }
    }

    /// This node without its child at `index`; the children after it move
    /// one place towards the front.
    pub open spec fn without_child(self, index: int) -> JsonValue {
        match self {
            JsonValue::Array(items) => JsonValue::Array(items.remove(index)),
            JsonValue::Object(members) => JsonValue::Object(members.remove(index)),
            _ => self,
        }
    }

    /// Deep equality of two documents.
    ///
    /// Scalars are equal when their kinds and payloads agree, numbers by
    /// numeric value. Arrays are equal when they have the same length and
    /// equal elements at each position. Objects are compared by name, in
    /// both directions and without regard to order: each member of one must
    /// find, under its name, an equal first member of the other. Names
    /// are compared byte for byte.
    pub open spec fn deep_eq(self, other: JsonValue) -> bool
        decreases self,
    {
        match (self, other) {
            (JsonValue::Null, JsonValue::Null) => true,
            (JsonValue::Bool(a), JsonValue::Bool(b)) => a == b,
            (JsonValue::Number(a), JsonValue::Number(b)) => number_eq(a, b),
            (JsonValue::String(a), JsonValue::String(b)) => a == b,
            (JsonValue::Array(a), JsonValue::Array(b)) => {
                &&& a.len() == b.len()
                &&& forall|i: int| 0 <= i < a.len() ==> (#[trigger] a[i]).deep_eq(b[i])
            },
            (JsonValue::Object(a), JsonValue::Object(b)) => {
                &&& forall|i: int|
                    #![trigger find_member(b, a[i].0)]
                    0 <= i < a.len() ==> {
                        let found = find_member(b, a[i].0);
                        found is Some && 0 <= found->0 < b.len() && a[i].1.deep_eq(b[found->0].1)
                    }
                &&& forall|j: int|
                    #![trigger find_member(a, b[j].0)]
                    0 <= j < b.len() ==> {
                        let found = find_member(a, b[j].0);
                        found is Some && 0 <= found->0 < a.len() && a[found->0].1.deep_eq(b[j].1)
                    }
            },
            _ => false,
        }
    }
}

} // verus!
