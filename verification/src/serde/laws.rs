//! What holds between the two directions of the conversion.

use vstd::prelude::*;
use crate::laws::distinct_names;
use crate::serde::c_string::c_string_spec;
use crate::serde::c_string::first_nul;
use crate::serde::c_string::lemma_first_nul;
use crate::serde::de::entry_stands_for;
use crate::serde::de::stands_for;
use crate::serde::error::ErrorView;
use crate::serde::ser::array_document;
use crate::serde::ser::document_of;
use crate::serde::ser::key_of;
use crate::serde::ser::map_document;
use crate::serde::value::Value;
use crate::value::JsonValue;
use crate::value::lemma_find_member_none;
use crate::value::members_after_insert;

verus! {

/// Whether no byte of `bytes` is zero.
pub open spec fn zero_free(bytes: Seq<u8>) -> bool {
    forall|i: int| 0 <= i < bytes.len() ==> #[trigger] bytes[i] != 0
}

/// Whether `document` can come of a typed value as it is: no string and no
/// name holds a zero byte, and no name stands twice in one object.
pub open spec fn faithful(document: JsonValue) -> bool
    decreases document,
{
    match document {
        JsonValue::String(bytes) => zero_free(bytes),
        JsonValue::Array(items) => forall|i: int|
            0 <= i < items.len() ==> faithful(#[trigger] items[i]),
        JsonValue::Object(members) => distinct_names(members) && forall|i: int|
            0 <= i < members.len() ==> zero_free((#[trigger] members[i]).0) && faithful(
                members[i].1,
            ),
        _ => true,
    }
}

/// Bytes without a zero byte are a string of a document as they are.
proof fn lemma_c_string_of_zero_free(bytes: Seq<u8>)
    requires
        zero_free(bytes),
    ensures
        c_string_spec(bytes) == Ok::<Seq<u8>, ErrorView>(bytes),
{
    lemma_first_nul(bytes);
    if first_nul(bytes) is Some {
        assert(bytes[first_nul(bytes)->0] == 0);
    }
}

/// The typed value that stands for a document becomes that document again,
/// provided that no string and no name of the document holds a zero byte
/// and that no name stands twice in one object.
pub proof fn law_value_becomes_its_document(value: Value, document: JsonValue)
    requires
        stands_for(value, document),
        faithful(document),
    ensures
        document_of(value) == Ok::<JsonValue, ErrorView>(document),
    decreases document, 1nat,
{
    match document {
        JsonValue::String(bytes) => {
            lemma_c_string_of_zero_free(bytes);
        },
        JsonValue::Array(items) => {
            let values = value->Sequence_0@;
            lemma_items_become(values, items, 0);
            assert(values.skip(0) =~= values);
            assert(items.take(0) =~= Seq::<JsonValue>::empty());
        },
        JsonValue::Object(members) => {
            let entries = value->Mapping_0@;
            lemma_entries_become(entries, members, 0);
            assert(entries.skip(0) =~= entries);
            assert(members.take(0) =~= Seq::<(Seq<u8>, JsonValue)>::empty());
        },
        _ => {},
    }
}

/// The values from the `k`-th on become the elements from the `k`-th on,
/// behind the elements before them.
proof fn lemma_items_become(values: Seq<Value>, items: Seq<JsonValue>, k: int)
    requires
        0 <= k <= items.len(),
        values.len() == items.len(),
        forall|i: int| 0 <= i < items.len() ==> stands_for(values[i], #[trigger] items[i]),
        forall|i: int| 0 <= i < items.len() ==> faithful(#[trigger] items[i]),
    ensures
        array_document(values.skip(k), items.take(k)) == Ok::<JsonValue, ErrorView>(
            JsonValue::Array(items),
        ),
    decreases items, 0nat, items.len() - k,
{
    let rest = values.skip(k);
    if k == items.len() {
        assert(items.take(k) =~= items);
    } else {
        assert(rest.first() == values[k]);
        assert(stands_for(values[k], items[k]));
        assert(faithful(items[k]));
        law_value_becomes_its_document(values[k], items[k]);
        assert(rest.drop_first() =~= values.skip(k + 1));
        assert(items.take(k).push(items[k]) =~= items.take(k + 1));
        lemma_items_become(values, items, k + 1);
    }
}

/// The entries from the `k`-th on become the members from the `k`-th on,
/// behind the members before them.
proof fn lemma_entries_become(
    entries: Seq<(Value, Value)>,
    members: Seq<(Seq<u8>, JsonValue)>,
    k: int,
)
    requires
        0 <= k <= members.len(),
        entries.len() == members.len(),
        distinct_names(members),
        forall|i: int|
            0 <= i < members.len() ==> entry_stands_for(entries[i], #[trigger] members[i]),
        forall|i: int|
            0 <= i < members.len() ==> zero_free((#[trigger] members[i]).0) && faithful(
                members[i].1,
            ),
    ensures
        map_document(entries.skip(k), members.take(k)) == Ok::<JsonValue, ErrorView>(
            JsonValue::Object(members),
        ),
    decreases members, 0nat, members.len() - k,
{
    let rest = entries.skip(k);
    if k == members.len() {
        assert(members.take(k) =~= members);
    } else {
        let done = members.take(k);
        assert(rest.first() == entries[k]);
        assert(entry_stands_for(entries[k], members[k]));
        assert(zero_free(members[k].0) && faithful(members[k].1));
        lemma_c_string_of_zero_free(members[k].0);
        assert(key_of(entries[k].0) == Ok::<Seq<u8>, ErrorView>(members[k].0));
        law_value_becomes_its_document(entries[k].1, members[k].1);
        assert forall|j: int| 0 <= j < done.len() implies (#[trigger] done[j]).0 != members[k].0 by {
            assert(done[j] == members[j]);
            assert(members[j].0 != members[k].0);
        }
        lemma_find_member_none(done, members[k].0);
        assert(members_after_insert(done, members[k].0, members[k].1) == done.push(members[k]));
        assert(rest.drop_first() =~= entries.skip(k + 1));
        assert(done.push(members[k]) =~= members.take(k + 1));
        lemma_entries_become(entries, members, k + 1);
    }
}

} // verus!
