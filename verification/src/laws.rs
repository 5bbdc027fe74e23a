//! What holds of documents across several operations.
//!
//! Each statement here is over the models that the contracts of the
//! operations use, so it applies to whatever those operations return.

use vstd::prelude::*;
use crate::number::is_nan_spec;
use crate::value::JsonValue;
use crate::value::find_member;
use crate::value::lemma_find_member;
use crate::value::members_after_insert;

verus! {

/// Deep equality is transitive.
pub proof fn lemma_deep_eq_transitive(a: JsonValue, b: JsonValue, c: JsonValue)
    requires
        a.deep_eq(b),
        b.deep_eq(c),
    ensures
        a.deep_eq(c),
    decreases a,
{
    match (a, b, c) {
        (JsonValue::Array(x), JsonValue::Array(y), JsonValue::Array(z)) => {
            assert forall|i: int| 0 <= i < x.len() implies (#[trigger] x[i]).deep_eq(z[i]) by {
                assert(x[i].deep_eq(y[i]));
                assert(y[i].deep_eq(z[i]));
                lemma_deep_eq_transitive(x[i], y[i], z[i]);
            }
        },
        (JsonValue::Object(x), JsonValue::Object(y), JsonValue::Object(z)) => {
            assert forall|i: int|
                #![trigger find_member(z, x[i].0)]
                0 <= i < x.len() implies {
                let found = find_member(z, x[i].0);
                found is Some && 0 <= found->0 < z.len() && x[i].1.deep_eq(z[found->0].1)
            } by {
                let in_y = find_member(y, x[i].0);
                lemma_find_member(y, x[i].0);
                assert(in_y is Some);
                let f = in_y->0;
                assert(y[f].0 == x[i].0);
                let in_z = find_member(z, y[f].0);
                assert(in_z is Some && y[f].1.deep_eq(z[in_z->0].1));
                lemma_deep_eq_transitive(x[i].1, y[f].1, z[in_z->0].1);
            }
            assert forall|j: int|
                #![trigger find_member(x, z[j].0)]
                0 <= j < z.len() implies {
                let found = find_member(x, z[j].0);
                found is Some && 0 <= found->0 < x.len() && x[found->0].1.deep_eq(z[j].1)
            } by {
                let in_y = find_member(y, z[j].0);
                lemma_find_member(y, z[j].0);
                assert(in_y is Some);
                let g = in_y->0;
                assert(y[g].0 == z[j].0);
                let in_x = find_member(x, y[g].0);
                assert(in_x is Some && x[in_x->0].1.deep_eq(y[g].1));
                lemma_deep_eq_transitive(x[in_x->0].1, y[g].1, z[j].1);
            }
        },
        _ => {},
    }
}

/// Whether the names of `members` differ from one another.
pub open spec fn distinct_names(members: Seq<(Seq<u8>, JsonValue)>) -> bool {
    forall|i: int, j: int|
        0 <= i < j < members.len() ==> (#[trigger] members[i]).0 != (#[trigger] members[j]).0
}

/// Whether `value` holds no NaN, and no object in which a name stands
/// twice.
pub open spec fn plain(value: JsonValue) -> bool
    decreases value,
{
    match value {
        JsonValue::Number(bits) => !is_nan_spec(bits),
        JsonValue::Array(items) => forall|i: int| 0 <= i < items.len() ==> plain(#[trigger] items[i]),
        JsonValue::Object(members) => distinct_names(members) && forall|i: int|
            0 <= i < members.len() ==> plain((#[trigger] members[i]).1),
        _ => true,
    }
}

/// A document without a NaN and without a name that stands twice in one
/// object equals itself deeply.
pub proof fn lemma_deep_eq_reflexive(value: JsonValue)
    requires
        plain(value),
    ensures
        value.deep_eq(value),
    decreases value,
{
    match value {
        JsonValue::Array(items) => {
            assert forall|i: int| 0 <= i < items.len() implies (#[trigger] items[i]).deep_eq(
                items[i],
            ) by {
                lemma_deep_eq_reflexive(items[i]);
            }
        },
        JsonValue::Object(members) => {
            assert forall|i: int|
                #![trigger find_member(members, members[i].0)]
                0 <= i < members.len() implies {
                let found = find_member(members, members[i].0);
                found == Some(i) && members[i].1.deep_eq(members[i].1)
            } by {
                lemma_find_member(members, members[i].0);
                let found = find_member(members, members[i].0)->0;
                assert(found == i) by {
                    if found < i {
                        assert(members[found].0 != members[i].0);
                    }
                }
                assert(plain(members[i].1));
                lemma_deep_eq_reflexive(members[i].1);
            }
        },
        _ => {},
    }
}

/// Deep equality is symmetric.
pub proof fn lemma_deep_eq_symmetric(a: JsonValue, b: JsonValue)
    requires
        a.deep_eq(b),
    ensures
        b.deep_eq(a),
    decreases a,
{
    match (a, b) {
        (JsonValue::Array(x), JsonValue::Array(y)) => {
            assert forall|i: int| 0 <= i < y.len() implies (#[trigger] y[i]).deep_eq(x[i]) by {
                assert(x[i].deep_eq(y[i]));
                lemma_deep_eq_symmetric(x[i], y[i]);
            }
        },
        (JsonValue::Object(x), JsonValue::Object(y)) => {
            assert forall|i: int|
                #![trigger find_member(x, y[i].0)]
                0 <= i < y.len() implies {
                let found = find_member(x, y[i].0);
                found is Some && 0 <= found->0 < x.len() && y[i].1.deep_eq(x[found->0].1)
            } by {
                let found = find_member(x, y[i].0);
                assert(found is Some && x[found->0].1.deep_eq(y[i].1));
                lemma_deep_eq_symmetric(x[found->0].1, y[i].1);
            }
            assert forall|j: int|
                #![trigger find_member(y, x[j].0)]
                0 <= j < x.len() implies {
                let found = find_member(y, x[j].0);
                found is Some && 0 <= found->0 < y.len() && y[found->0].1.deep_eq(x[j].1)
            } by {
                let found = find_member(y, x[j].0);
                assert(found is Some && x[j].1.deep_eq(y[found->0].1));
                lemma_deep_eq_symmetric(x[j].1, y[found->0].1);
            }
        },
        _ => {},
    }
}

/// Inserting a value under a name hands back what a lookup of that name
/// found before, and nothing where the lookup found nothing. Afterwards the
/// new member stands behind all others, and the object has one member more
/// than before unless a member left.
pub proof fn law_insert_replaces(members: Seq<(Seq<u8>, JsonValue)>, key: Seq<u8>, value: JsonValue)
    ensures
        ({
            let after = members_after_insert(members, key, value);
            let before = JsonValue::Object(members).get(key);
            &&& before is Some <==> find_member(members, key) is Some
            &&& before is Some ==> before == Some(members[find_member(members, key)->0].1)
            &&& after.len() >= 1
            &&& after.last() == (key, value)
            &&& before is Some ==> after.len() == members.len()
            &&& before is None ==> after == members.push((key, value))
            &&& find_member(after, key) is Some
        }),
{
    let after = members_after_insert(members, key, value);
    lemma_find_member(members, key);
    lemma_find_member(after, key);
    assert(after[after.len() - 1].0 == key);
}

/// Taking the element at `index` out of an array and inserting it again at
/// `index` gives back the array as it was: the same elements in the same
/// places.
pub proof fn law_array_remove_then_insert(items: Seq<JsonValue>, index: int)
    requires
        0 <= index < items.len(),
    ensures
        ({
            let shorter = items.remove(index);
            let place = if index < shorter.len() {
                index
            } else {
                shorter.len() as int
            };
            shorter.insert(place, items[index]) == items
        }),
{
    let shorter = items.remove(index);
    assert(shorter.insert(index, items[index]) =~= items);
}

/// Taking the first member named `key` out of an object and inserting its
/// value again under `key` gives an object that is deeply equal to the one
/// before, provided that one is deeply equal to itself. The member may have
/// moved behind the others: deep equality of objects does not look at the
/// order.
pub proof fn law_object_remove_then_insert(members: Seq<(Seq<u8>, JsonValue)>, key: Seq<u8>)
    requires
        find_member(members, key) is Some,
        JsonValue::Object(members).deep_eq(JsonValue::Object(members)),
    ensures
        ({
            let index = find_member(members, key)->0;
            let shorter = members.remove(index);
            let restored = members_after_insert(shorter, key, members[index].1);
            JsonValue::Object(restored).deep_eq(JsonValue::Object(members))
        }),
{
    let index = find_member(members, key)->0;
    lemma_find_member(members, key);
    let value = members[index].1;
    let shorter = members.remove(index);
    let restored = members_after_insert(shorter, key, value);
    lemma_find_member(shorter, key);
    // Every member of `restored` is a member of `members`.
    assert forall|r: int| 0 <= r < restored.len() implies exists|m: int|
        0 <= m < members.len() && members[m] == #[trigger] restored[r] by {
        match find_member(shorter, key) {
            Some(second) => {
                let rest = shorter.remove(second);
                if r < rest.len() {
                    let s = if r < second {
                        r
                    } else {
                        r + 1
                    };
                    assert(rest[r] == shorter[s]);
                    let m = if s < index {
                        s
                    } else {
                        s + 1
                    };
                    assert(shorter[s] == members[m]);
                } else {
                    assert(restored[r] == members[index]);
                }
            },
            None => {
                if r < shorter.len() {
                    let m = if r < index {
                        r
                    } else {
                        r + 1
                    };
                    assert(shorter[r] == members[m]);
                } else {
                    assert(restored[r] == members[index]);
                }
            },
        }
    }
    assert forall|r: int|
        #![trigger find_member(members, restored[r].0)]
        0 <= r < restored.len() implies {
        let found = find_member(members, restored[r].0);
        found is Some && 0 <= found->0 < members.len() && restored[r].1.deep_eq(
            members[found->0].1,
        )
    } by {
        let m = choose|m: int| 0 <= m < members.len() && members[m] == restored[r];
        assert(find_member(members, members[m].0) is Some);
    }
    assert forall|m: int|
        #![trigger find_member(restored, members[m].0)]
        0 <= m < members.len() implies {
        let found = find_member(restored, members[m].0);
        found is Some && 0 <= found->0 < restored.len() && restored[found->0].1.deep_eq(
            members[m].1,
        )
    } by {
        let name = members[m].0;
        lemma_find_member(restored, name);
        lemma_find_member(members, name);
        let first = find_member(members, name)->0;
        assert(find_member(members, members[m].0) is Some);
        assert(members[first].1.deep_eq(members[m].1));
        // The name occurs in `restored`: at the end for `key`, and where the
        // first member of that name went for any other name.
        if name == key {
            assert(restored[restored.len() - 1].0 == name);
        } else {
            let s = if first < index {
                first
            } else {
                first - 1
            };
            assert(shorter[s] == members[first]);
            match find_member(shorter, key) {
                Some(second) => {
                    let rest = shorter.remove(second);
                    let r = if s < second {
                        s
                    } else {
                        s - 1
                    };
                    assert(rest[r] == shorter[s]);
                    assert(restored[r].0 == name);
                },
                None => {
                    assert(restored[s].0 == name);
                },
            }
        }
        let found = find_member(restored, name);
        assert(found is Some);
        let back = choose|b: int| 0 <= b < members.len() && members[b] == restored[found->0];
        // `members[back]` carries `name`, so it equals the first member of
        // that name, which in turn equals `members[m]`.
        assert(find_member(members, members[back].0) is Some);
        assert(members[back].1.deep_eq(members[first].1));
        lemma_deep_eq_transitive(members[back].1, members[first].1, members[m].1);
    }
}

/// What is left of a sequence of children after a walk has handed out
/// `steps` of them, one at a time from the front.
pub open spec fn after_steps(children: Seq<JsonValue>, steps: nat) -> Seq<JsonValue>
    decreases steps,
{
    if steps == 0 || children.len() == 0 {
        children
    } else {
        after_steps(children.drop_first(), (steps - 1) as nat)
    }
}

/// A walk hands out the children in sibling order: after `steps` children
/// have been handed out, the next one is the child at index `steps`, which
/// is the one that a lookup by that index finds; and the walk ends exactly
/// when every child has been handed out.
pub proof fn law_iteration_order(children: Seq<JsonValue>, steps: nat)
    ensures
        steps < children.len() ==> after_steps(children, steps).len() > 0 && after_steps(
            children,
            steps,
        )[0] == children[steps as int],
        steps >= children.len() ==> after_steps(children, steps).len() == 0,
    decreases steps,
{
    if steps > 0 && children.len() > 0 {
        law_iteration_order(children.drop_first(), (steps - 1) as nat);
    }
}

} // verus!
