//! The guard that gives a node the operations of an object.

use vstd::prelude::*;
use crate::cjsonref::AsCJsonRef;
use crate::cjson::CJson;
use crate::cjsonref::CJsonIter;
use crate::cjsonref::CJsonRef;
use crate::cjsonref::Text;
use crate::error::Error;
use crate::value::JsonValue;
use crate::value::find_member;
use crate::value::lemma_find_member;
use crate::value::members_after_insert;

verus! {

/// A node that is known to be an object, with the operations of a list of
/// named members.
///
/// The guard wraps a handle, a view or an accessor, and works the same way
/// on each. A lookup by name walks the members in sibling order and stops at
/// the first whose name has the same bytes.
#[derive(Debug, Clone, Copy)]
pub struct CJsonObject<R> {
    pub inner: R,
}

impl<'json, R: AsCJsonRef<'json>> CJsonObject<R> {
    /// Whether the wrapped node is an object, as every operation of the
    /// guard expects.
    pub open spec fn wf(&self) -> bool {
        self.inner.node() is Object
    }

    /// The members of the object, in sibling order.
    pub open spec fn members(&self) -> Seq<(Seq<u8>, JsonValue)> {
        self.inner.node().members()
    }

    /// Wraps a node that the caller knows to be an object.
    pub fn from_raw_parts(inner: R) -> (r: Self)
        requires
            inner.node() is Object,
        ensures
            r.inner == inner,
            r.wf(),
    {
        CJsonObject { inner }
    }

    /// The value of the first member named `key`.
    pub fn get(&self, key: &[u8]) -> (r: Option<&CJsonRef<'json>>)
        requires
            self.wf(),
        ensures
            match find_member(self.members(), key@) {
                Some(i) => r matches Some(value) && value@ == self.members()[i].1,
                None => r is None,
            },
    {
        let node = self.inner.as_cjson_ref();
        proof {
            lemma_find_member(self.members(), key@);
        }
        match node.find(key) {
            Some(index) => node.child(index),
            None => None,
        }
    }

    /// The number of members.
    pub fn len(&self) -> (n: usize)
        requires
            self.wf(),
        ensures
            n == self.members().len(),
    {
        self.inner.as_cjson_ref().len()
    }

    /// Whether the object has no members.
    pub fn is_empty(&self) -> (r: bool)
        requires
            self.wf(),
        ensures
            r == (self.members().len() == 0),
    {
        self.len() == 0
    }

    /// The members as pairs of name and value, in sibling order.
    pub fn iter<'a>(&'a self) -> (r: Vec<(&'a [u8], &'a CJsonRef<'json>)>) where 'json: 'a
        requires
            self.wf(),
        ensures
            r@.len() == self.members().len(),
            forall|i: int|
                0 <= i < r@.len() ==> (#[trigger] r@[i]).0@ == self.members()[i].0 && r@[i].1@
                    == self.members()[i].1,
    {
        let node = self.inner.as_cjson_ref();
        let count = node.len();
        let mut pairs: Vec<(&'a [u8], &'a CJsonRef<'json>)> = Vec::new();
        let mut i: usize = 0;
        while i < count
            invariant
                node@ == self.inner.node(),
                node@ is Object,
                count == node@.members().len(),
                0 <= i <= count,
                pairs@.len() == i,
                forall|k: int|
                    0 <= k < i ==> (#[trigger] pairs@[k]).0@ == node@.members()[k].0 && pairs@[k].1@
                        == node@.members()[k].1,
            decreases count - i,
        {
            match node.name(i) {
                Some(name) => match node.child(i) {
                    Some(value) => {
                        pairs.push((name, value));
                    },
                    None => {},
                },
                None => {},
            }
            i += 1;
        }
        pairs
    }

    /// The names of the members, in sibling order.
    pub fn keys<'a>(&'a self) -> (r: Vec<&'a [u8]>) where 'json: 'a
        requires
            self.wf(),
        ensures
            r@.len() == self.members().len(),
            forall|i: int| 0 <= i < r@.len() ==> (#[trigger] r@[i])@ == self.members()[i].0,
    {
        let node = self.inner.as_cjson_ref();
        let count = node.len();
        let mut names: Vec<&'a [u8]> = Vec::new();
        let mut i: usize = 0;
        while i < count
            invariant
                node@ == self.inner.node(),
                node@ is Object,
                count == node@.members().len(),
                0 <= i <= count,
                names@.len() == i,
                forall|k: int| 0 <= k < i ==> (#[trigger] names@[k])@ == node@.members()[k].0,
            decreases count - i,
        {
            match node.name(i) {
                Some(name) => {
                    names.push(name);
                },
                None => {},
            }
            i += 1;
        }
        names
    }

    /// A walk over the values of the members, from the first to the last.
    pub fn values<'a>(&'a self) -> (r: CJsonIter<'a, 'json>) where 'json: 'a
        requires
            self.wf(),
        ensures
            r.remaining() == self.inner.node().children(),
            r.hint() == self.members().len(),
    {
        self.inner.as_cjson_ref().iter()
    }
}

impl<'json> CJsonObject<CJson<'json>> {
    /// The document `value` as an object. Fails with `TypeError` where it
    /// is none.
    pub fn try_from(value: CJson<'json>) -> (r: Result<Self, Error>)
        ensures
            match r {
                Ok(object) => value@ is Object && object.inner@ == value@,
                Err(e) => !(value@ is Object) && e == Error::TypeError,
            },
    {
        match value.into_object() {
            Some(object) => Ok(object),
            None => Err(Error::TypeError),
        }
    }

    /// A new object without members, under a handle of its own.
    pub fn new() -> (r: Result<Self, Error>)
        ensures
            r matches Ok(object) && object.wf() && object.members() == Seq::<
                (Seq<u8>, JsonValue),
            >::empty(),
    {
        match CJson::object() {
            Ok(value) => Ok(CJsonObject { inner: value }),
            Err(e) => Err(e),
        }
    }

    /// The one accessor of the value of the first member named `key`. What
    /// is done through it shows in the object when the accessor is given up.
    pub fn get_mut(&mut self, key: &[u8]) -> (r: Option<&mut CJsonRef<'json>>)
        requires
            old(self).wf(),
        ensures
            match find_member(old(self).members(), key@) {
                Some(i) => {
                    &&& r matches Some(value)
                    &&& value@ == old(self).members()[i].1
                    &&& final(self).wf()
                    &&& final(self).members() == old(self).members().update(
                        i,
                        (old(self).members()[i].0, final(value)@),
                    )
                },
                None => r is None && final(self).inner@ == old(self).inner@,
            },
    {
        get_member_mut(self.inner.as_mut(), key)
    }

    /// Takes the first member named `key` out of the object and hands its
    /// value over as a document of its own; the members after it close the
    /// gap. Nothing happens where no member has that name.
    pub fn remove(&mut self, key: &[u8]) -> (r: Option<CJson<'json>>)
        requires
            old(self).wf(),
        ensures
            match find_member(old(self).members(), key@) {
                Some(i) => {
                    &&& r matches Some(value)
                    &&& value@ == old(self).members()[i].1
                    &&& final(self).wf()
                    &&& final(self).members() == old(self).members().remove(i)
                },
                None => r is None && final(self).inner@ == old(self).inner@,
            },
    {
        remove_member(self.inner.as_mut(), key)
    }

    /// Moves `value` into the object under a copy of `key`. Where a member
    /// named `key` exists, the first such member leaves the object and its
    /// value is handed back; the new member stands behind the last.
    pub fn insert(&mut self, key: &[u8], value: CJson<'json>) -> (r: Option<CJson<'json>>)
        requires
            old(self).wf(),
        ensures
            match find_member(old(self).members(), key@) {
                Some(i) => r matches Some(previous) && previous@ == old(self).members()[i].1,
                None => r is None,
            },
            final(self).wf(),
            final(self).members() == members_after_insert(old(self).members(), key@, value@),
    {
        let name = Text::Owned(vstd::slice::slice_to_vec(key));
        insert_member(self.inner.as_mut(), name, value)
    }

    /// Moves `value` into the object under `key`, which the object borrows
    /// instead of copying: the bytes of `key` must live as long as the
    /// document. Where a member named `key` exists, the first such member
    /// leaves the object and its value is handed back; the new member stands
    /// behind the last.
    pub fn insert_key_reference(&mut self, key: &'json [u8], value: CJson<'json>) -> (r: Option<
        CJson<'json>,
    >)
        requires
            old(self).wf(),
        ensures
            match find_member(old(self).members(), key@) {
                Some(i) => r matches Some(previous) && previous@ == old(self).members()[i].1,
                None => r is None,
            },
            final(self).wf(),
            final(self).members() == members_after_insert(old(self).members(), key@, value@),
    {
        insert_member(self.inner.as_mut(), Text::Reference(key), value)
    }
}

impl<'a, 'json> CJsonObject<&'a mut CJsonRef<'json>> {
    /// The one accessor of the value of the first member named `key`. What
    /// is done through it shows in the object when the accessor is given up.
    pub fn get_mut(&mut self, key: &[u8]) -> (r: Option<&mut CJsonRef<'json>>)
        requires
            old(self).wf(),
        ensures
            match find_member(old(self).members(), key@) {
                Some(i) => {
                    &&& r matches Some(value)
                    &&& value@ == old(self).members()[i].1
                    &&& final(self).wf()
                    &&& final(self).members() == old(self).members().update(
                        i,
                        (old(self).members()[i].0, final(value)@),
                    )
                },
                None => r is None && final(self).inner@ == old(self).inner@,
            },
            *final(final(self).inner) == *final(old(self).inner),
    {
        get_member_mut(&mut *self.inner, key)
    }

    /// Takes the first member named `key` out of the object and hands its
    /// value over as a document of its own; the members after it close the
    /// gap. Nothing happens where no member has that name.
    pub fn remove(&mut self, key: &[u8]) -> (r: Option<CJson<'json>>)
        requires
            old(self).wf(),
        ensures
            match find_member(old(self).members(), key@) {
                Some(i) => {
                    &&& r matches Some(value)
                    &&& value@ == old(self).members()[i].1
                    &&& final(self).wf()
                    &&& final(self).members() == old(self).members().remove(i)
                },
                None => r is None && final(self).inner@ == old(self).inner@,
            },
            *final(final(self).inner) == *final(old(self).inner),
    {
        remove_member(&mut *self.inner, key)
    }

    /// Moves `value` into the object under a copy of `key`. Where a member
    /// named `key` exists, the first such member leaves the object and its
    /// value is handed back; the new member stands behind the last.
    pub fn insert(&mut self, key: &[u8], value: CJson<'json>) -> (r: Option<CJson<'json>>)
        requires
            old(self).wf(),
        ensures
            match find_member(old(self).members(), key@) {
                Some(i) => r matches Some(previous) && previous@ == old(self).members()[i].1,
                None => r is None,
            },
            final(self).wf(),
            final(self).members() == members_after_insert(old(self).members(), key@, value@),
            *final(final(self).inner) == *final(old(self).inner),
    {
        let name = Text::Owned(vstd::slice::slice_to_vec(key));
        insert_member(&mut *self.inner, name, value)
    }

    /// Moves `value` into the object under `key`, which the object borrows
    /// instead of copying: the bytes of `key` must live as long as the
    /// document. Where a member named `key` exists, the first such member
    /// leaves the object and its value is handed back; the new member stands
    /// behind the last.
    pub fn insert_key_reference(&mut self, key: &'json [u8], value: CJson<'json>) -> (r: Option<
        CJson<'json>,
    >)
        requires
            old(self).wf(),
        ensures
            match find_member(old(self).members(), key@) {
                Some(i) => r matches Some(previous) && previous@ == old(self).members()[i].1,
                None => r is None,
            },
            final(self).wf(),
            final(self).members() == members_after_insert(old(self).members(), key@, value@),
            *final(final(self).inner) == *final(old(self).inner),
    {
        insert_member(&mut *self.inner, Text::Reference(key), value)
    }
}

impl<'json> From<CJsonObject<CJson<'json>>> for CJson<'json> {
    /// The document that the guard wraps.
    fn from(value: CJsonObject<CJson<'json>>) -> (r: Self) {
        value.inner
    }
}

impl<'json> vstd::std_specs::convert::FromSpecImpl<CJsonObject<CJson<'json>>> for CJson<'json> {
    open spec fn obeys_from_spec() -> bool {
        true
    }

    open spec fn from_spec(value: CJsonObject<CJson<'json>>) -> Self {
        value.inner
    }
}

impl<'k, 'json> core::ops::Index<&'k [u8]> for CJsonObject<CJson<'json>> {
    type Output = CJsonRef<'json>;

    /// The value of the first member named `key`, which the object must
    /// have.
    fn index(&self, key: &'k [u8]) -> (r: &CJsonRef<'json>)
        ensures
            Some(r@) == self.inner@.get(key@),
    {
        match self.get(key) {
            Some(value) => value,
            None => vstd::pervasive::unreached(),
        }
    }
}

impl<'k, 'json> vstd::std_specs::core::IndexSpecImpl<&'k [u8]> for CJsonObject<CJson<'json>> {
    open spec fn index_req(&self, key: &&'k [u8]) -> bool {
        self.wf() && find_member(self.members(), (*key)@) is Some
    }
}

impl<'k, 'a, 'json> core::ops::Index<&'k [u8]> for CJsonObject<&'a CJsonRef<'json>> {
    type Output = CJsonRef<'json>;

    /// The value of the first member named `key`, which the object must
    /// have.
    fn index(&self, key: &'k [u8]) -> (r: &CJsonRef<'json>)
        ensures
            Some(r@) == self.inner@.get(key@),
    {
        match self.get(key) {
            Some(value) => value,
            None => vstd::pervasive::unreached(),
        }
    }
}

impl<'k, 'a, 'json> vstd::std_specs::core::IndexSpecImpl<&'k [u8]> for CJsonObject<&'a CJsonRef<'json>> {
    open spec fn index_req(&self, key: &&'k [u8]) -> bool {
        self.wf() && find_member(self.members(), (*key)@) is Some
    }
}

impl<'json, R: AsCJsonRef<'json>> PartialEq for CJsonObject<R> {
    /// Deep equality of the wrapped nodes.
    fn eq(&self, other: &Self) -> (r: bool) {
        self.inner.as_cjson_ref().deep_eq(other.inner.as_cjson_ref())
    }
}

impl<'json, R: AsCJsonRef<'json>> vstd::std_specs::cmp::PartialEqSpecImpl for CJsonObject<R> {
    open spec fn obeys_eq_spec() -> bool {
        true
    }

    open spec fn eq_spec(&self, other: &Self) -> bool {
        self.inner.node().deep_eq(other.inner.node())
    }
}

/// The accessor of the value of the first member of `node` named `key`.
fn get_member_mut<'n, 'json>(node: &'n mut CJsonRef<'json>, key: &[u8]) -> (r: Option<
    &'n mut CJsonRef<'json>,
>)
    requires
        old(node)@ is Object,
    ensures
        match find_member(old(node)@.members(), key@) {
            Some(i) => {
                &&& r matches Some(value)
                &&& value@ == old(node)@.members()[i].1
                &&& final(node)@ == JsonValue::Object(
                    old(node)@.members().update(i, (old(node)@.members()[i].0, final(value)@)),
                )
            },
            None => r is None && final(node)@ == old(node)@,
        },
{
    proof {
        lemma_find_member(node@.members(), key@);
    }
    match node.find(key) {
        Some(index) => node.child_mut(index),
        None => None,
    }
}

/// Takes the first member of `node` named `key` out of it.
fn remove_member<'json>(node: &mut CJsonRef<'json>, key: &[u8]) -> (r: Option<CJson<'json>>)
    requires
        old(node)@ is Object,
    ensures
        match find_member(old(node)@.members(), key@) {
            Some(i) => {
                &&& r matches Some(value)
                &&& value@ == old(node)@.members()[i].1
                &&& final(node)@ == JsonValue::Object(old(node)@.members().remove(i))
            },
            None => r is None && final(node)@ == old(node)@,
        },
{
    proof {
        lemma_find_member(node@.members(), key@);
    }
    match node.find(key) {
        Some(index) => match node.detach(index) {
            Some(value) => Some(CJson::from_raw_parts(value)),
            None => None,
        },
        None => None,
    }
}

/// Detaches the first member of `node` that has the bytes of `name` for its
/// name, if there is one, then hangs `value` behind the last member under
/// `name`.
fn insert_member<'json>(node: &mut CJsonRef<'json>, name: Text<'json>, value: CJson<'json>) -> (r:
    Option<CJson<'json>>)
    requires
        old(node)@ is Object,
    ensures
        match find_member(old(node)@.members(), name.bytes()) {
            Some(i) => r matches Some(previous) && previous@ == old(node)@.members()[i].1,
            None => r is None,
        },
        final(node)@ == JsonValue::Object(
            members_after_insert(old(node)@.members(), name.bytes(), value@),
        ),
{
    let previous = remove_member(node, name.as_slice());
    node.append_member(name, value.into_raw_parts());
    previous
}

} // verus!
