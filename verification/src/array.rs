//! The guard that gives a node the operations of an array.

use vstd::prelude::*;
use crate::cjson::CJson;
use crate::cjsonref::AsCJsonRef;
use crate::cjsonref::CJsonIter;
use crate::cjsonref::CJsonRef;
use crate::error::Error;
use crate::value::JsonValue;

verus! {

/// A node that is known to be an array, with the operations of a list.
///
/// The guard wraps a handle, a view or an accessor, and works the same way
/// on each.
#[derive(Debug, Clone, Copy)]
pub struct CJsonArray<R> {
    pub inner: R,
}

impl<'json, R: AsCJsonRef<'json>> CJsonArray<R> {
    /// Whether the wrapped node is an array, as every operation of the guard
    /// expects.
    pub open spec fn wf(&self) -> bool {
        self.inner.node() is Array
    }

    /// The elements of the array, in sibling order.
    pub open spec fn items(&self) -> Seq<JsonValue> {
        self.inner.node().children()
    }

    /// Wraps a node that the caller knows to be an array.
    pub fn from_raw_parts(inner: R) -> (r: Self)
        requires
            inner.node() is Array,
        ensures
            r.inner == inner,
            r.wf(),
    {
        CJsonArray { inner }
    }

    /// The element at `index`, counted from zero.
    pub fn get(&self, index: u32) -> (r: Option<&CJsonRef<'json>>)
        requires
            self.wf(),
        ensures
            match r {
                Some(item) => index < self.items().len() && item@ == self.items()[index as int],
                None => index >= self.items().len(),
            },
    {
        self.inner.as_cjson_ref().child(index as usize)
    }

    /// The number of elements.
    pub fn len(&self) -> (n: usize)
        requires
            self.wf(),
        ensures
            n == self.items().len(),
    {
        self.inner.as_cjson_ref().len()
    }

    /// Whether the array has no elements.
    pub fn is_empty(&self) -> (r: bool)
        requires
            self.wf(),
        ensures
            r == (self.items().len() == 0),
    {
        self.inner.as_cjson_ref().is_empty()
    }

    /// A walk over the elements, from the first to the last.
    pub fn iter<'a>(&'a self) -> (r: CJsonIter<'a, 'json>) where 'json: 'a
        requires
            self.wf(),
        ensures
            r.remaining() == self.items(),
            r.hint() == self.items().len(),
    {
        self.inner.as_cjson_ref().iter()
    }
}

impl<'json> CJsonArray<CJson<'json>> {
    /// The document `value` as an array. Fails with `TypeError` where it is
    /// none.
    pub fn try_from(value: CJson<'json>) -> (r: Result<Self, Error>)
        ensures
            match r {
                Ok(array) => value@ is Array && array.inner@ == value@,
                Err(e) => !(value@ is Array) && e == Error::TypeError,
            },
    {
        match value.into_array() {
            Some(array) => Ok(array),
            None => Err(Error::TypeError),
        }
    }

    /// A new array without elements, under a handle of its own.
    pub fn new() -> (r: Result<Self, Error>)
        ensures
            r matches Ok(array) && array.wf() && array.items() == Seq::<JsonValue>::empty(),
    {
        match CJson::array() {
            Ok(value) => Ok(CJsonArray { inner: value }),
            Err(e) => Err(e),
        }
    }

    /// The one accessor of the element at `index`. What is done through it
    /// shows in the array when the accessor is given up.
    pub fn get_mut(&mut self, index: u32) -> (r: Option<&mut CJsonRef<'json>>)
        requires
            old(self).wf(),
        ensures
            match r {
                Some(item) => {
                    &&& index < old(self).items().len()
                    &&& item@ == old(self).items()[index as int]
                    &&& final(self).wf()
                    &&& final(self).items() == old(self).items().update(index as int, final(item)@)
                },
                None => index >= old(self).items().len() && final(self).inner@ == old(self).inner@,
            },
    {
        self.inner.as_mut().child_mut(index as usize)
    }

    /// Takes the element at `index` out of the array and hands it over as a
    /// document of its own; the elements after it close the gap. Nothing
    /// happens where the array has no such element.
    pub fn remove(&mut self, index: u32) -> (r: Option<CJson<'json>>)
        requires
            old(self).wf(),
        ensures
            match r {
                Some(item) => {
                    &&& index < old(self).items().len()
                    &&& item@ == old(self).items()[index as int]
                    &&& final(self).wf()
                    &&& final(self).items() == old(self).items().remove(index as int)
                },
                None => index >= old(self).items().len() && final(self).inner@ == old(self).inner@,
            },
    {
        match self.inner.as_mut().detach(index as usize) {
            Some(node) => Some(CJson::from_raw_parts(node)),
            None => None,
        }
    }

    /// Moves `value` into the array, behind the last element.
    pub fn push(&mut self, value: CJson<'json>)
        requires
            old(self).wf(),
        ensures
            final(self).wf(),
            final(self).items() == old(self).items().push(value@),
    {
        self.inner.as_mut().append(value.into_raw_parts());
    }

    /// Moves `value` into the array at `index`; the elements from `index` on
    /// move one place towards the back. Where the array is shorter than
    /// `index`, `value` goes behind the last element.
    pub fn insert(&mut self, index: u32, value: CJson<'json>)
        requires
            old(self).wf(),
            index <= i32::MAX,
        ensures
            final(self).wf(),
            final(self).items() == old(self).items().insert(
                if index < old(self).items().len() {
                    index as int
                } else {
                    old(self).items().len() as int
                },
                value@,
            ),
    {
        self.inner.as_mut().insert_at(index as usize, value.into_raw_parts());
    }
}

impl<'a, 'json> CJsonArray<&'a mut CJsonRef<'json>> {
    /// The one accessor of the element at `index`. What is done through it
    /// shows in the array when the accessor is given up.
    pub fn get_mut(&mut self, index: u32) -> (r: Option<&mut CJsonRef<'json>>)
        requires
            old(self).wf(),
        ensures
            match r {
                Some(item) => {
                    &&& index < old(self).items().len()
                    &&& item@ == old(self).items()[index as int]
                    &&& final(self).wf()
                    &&& final(self).items() == old(self).items().update(index as int, final(item)@)
                },
                None => index >= old(self).items().len() && final(self).inner@ == old(self).inner@,
            },
            *final(final(self).inner) == *final(old(self).inner),
    {
        self.inner.child_mut(index as usize)
    }

    /// Takes the element at `index` out of the array and hands it over as a
    /// document of its own; the elements after it close the gap. Nothing
    /// happens where the array has no such element.
    pub fn remove(&mut self, index: u32) -> (r: Option<CJson<'json>>)
        requires
            old(self).wf(),
        ensures
            match r {
                Some(item) => {
                    &&& index < old(self).items().len()
                    &&& item@ == old(self).items()[index as int]
                    &&& final(self).wf()
                    &&& final(self).items() == old(self).items().remove(index as int)
                },
                None => index >= old(self).items().len() && final(self).inner@ == old(self).inner@,
            },
            *final(final(self).inner) == *final(old(self).inner),
    {
        match self.inner.detach(index as usize) {
            Some(node) => Some(CJson::from_raw_parts(node)),
            None => None,
        }
    }

    /// Moves `value` into the array, behind the last element.
    pub fn push(&mut self, value: CJson<'json>)
        requires
            old(self).wf(),
        ensures
            final(self).wf(),
            final(self).items() == old(self).items().push(value@),
            *final(final(self).inner) == *final(old(self).inner),
    {
        self.inner.append(value.into_raw_parts());
    }

    /// Moves `value` into the array at `index`; the elements from `index` on
    /// move one place towards the back. Where the array is shorter than
    /// `index`, `value` goes behind the last element.
    pub fn insert(&mut self, index: u32, value: CJson<'json>)
        requires
            old(self).wf(),
            index <= i32::MAX,
        ensures
            final(self).wf(),
            final(self).items() == old(self).items().insert(
                if index < old(self).items().len() {
                    index as int
                } else {
                    old(self).items().len() as int
                },
                value@,
            ),
            *final(final(self).inner) == *final(old(self).inner),
    {
        self.inner.insert_at(index as usize, value.into_raw_parts());
    }
}

impl<'json> From<CJsonArray<CJson<'json>>> for CJson<'json> {
    /// The document that the guard wraps.
    fn from(value: CJsonArray<CJson<'json>>) -> (r: Self) {
        value.inner
    }
}

impl<'json> vstd::std_specs::convert::FromSpecImpl<CJsonArray<CJson<'json>>> for CJson<'json> {
    open spec fn obeys_from_spec() -> bool {
        true
    }

    open spec fn from_spec(value: CJsonArray<CJson<'json>>) -> Self {
        value.inner
    }
}

impl<'json> core::ops::Index<u32> for CJsonArray<CJson<'json>> {
    type Output = CJsonRef<'json>;

    /// The element at `index`, which the array must have.
    fn index(&self, index: u32) -> (r: &CJsonRef<'json>)
        ensures
            r@ == self.items()[index as int],
    {
        match self.get(index) {
            Some(item) => item,
            None => vstd::pervasive::unreached(),
        }
    }
}

impl<'json> vstd::std_specs::core::IndexSpecImpl<u32> for CJsonArray<CJson<'json>> {
    open spec fn index_req(&self, index: &u32) -> bool {
        self.wf() && *index < self.items().len()
    }
}

impl<'a, 'json> core::ops::Index<u32> for CJsonArray<&'a CJsonRef<'json>> {
    type Output = CJsonRef<'json>;

    /// The element at `index`, which the array must have.
    fn index(&self, index: u32) -> (r: &CJsonRef<'json>)
        ensures
            r@ == self.items()[index as int],
    {
        match self.get(index) {
            Some(item) => item,
            None => vstd::pervasive::unreached(),
        }
    }
}

impl<'a, 'json> vstd::std_specs::core::IndexSpecImpl<u32> for CJsonArray<&'a CJsonRef<'json>> {
    open spec fn index_req(&self, index: &u32) -> bool {
        self.wf() && *index < self.items().len()
    }
}

impl<'json, R: AsCJsonRef<'json>> PartialEq for CJsonArray<R> {
    /// Deep equality of the wrapped nodes.
    fn eq(&self, other: &Self) -> (r: bool) {
        self.inner.as_cjson_ref().deep_eq(other.inner.as_cjson_ref())
    }
}

impl<'json, R: AsCJsonRef<'json>> vstd::std_specs::cmp::PartialEqSpecImpl for CJsonArray<R> {
    open spec fn obeys_eq_spec() -> bool {
        true
    }

    open spec fn eq_spec(&self, other: &Self) -> bool {
        self.inner.node().deep_eq(other.inner.node())
    }
}

} // verus!
