//! The node of a document, seen through a borrow.

use vstd::prelude::*;
use vstd::slice::slice_to_vec;
use crate::array::CJsonArray;
use crate::cjson::CJson;
use crate::error::Error;
use crate::number::equal;
use crate::object::CJsonObject;
use crate::string::CJsonString;
use crate::text::laws::lemma_text_no_nul;
use crate::text::print::collect_numbers;
use crate::text::print::print_document;
use crate::text::print::unprinted;
use crate::text::print::value_text;
use crate::text::table::NumberTable;
use crate::value::JsonValue;
use crate::value::find_member;
use crate::value::lemma_find_member;
use crate::value::lemma_find_member_at;
use crate::value::lemma_find_member_none;

verus! {

/// Whether two byte strings hold the same bytes.
pub fn bytes_eq(a: &[u8], b: &[u8]) -> (r: bool)
    ensures
        r == (a@ == b@),
{
    if a.len() != b.len() {
        return false;
    }
    let mut i: usize = 0;
    while i < a.len()
        invariant
            a.len() == b.len(),
            0 <= i <= a.len(),
            forall|j: int| 0 <= j < i ==> a@[j] == b@[j],
        decreases a.len() - i,
    {
        if a[i] != b[i] {
            return false;
        }
        i += 1;
    }
    assert(a@ =~= b@);
    true
}

/// The bytes of a string or of a member's name: the node's own copy, or
/// bytes that the caller keeps alive for as long as the document lives.
#[derive(Debug)]
pub enum Text<'json> {
    Owned(Vec<u8>),
    Reference(&'json [u8]),
}

impl<'json> Text<'json> {
    /// The bytes, whoever owns them.
    pub open spec fn bytes(&self) -> Seq<u8> {
        match self {
            Text::Owned(bytes) => bytes@,
            Text::Reference(bytes) => bytes@,
        }
    }

    /// The bytes as a slice.
    pub fn as_slice(&self) -> (r: &[u8])
        ensures
            r@ == self.bytes(),
    {
        match self {
            Text::Owned(bytes) => bytes.as_slice(),
            Text::Reference(bytes) => bytes,
        }
    }
}

/// One member of an object: a name and the value that hangs under it.
#[derive(Debug)]
struct Member<'json> {
    name: Text<'json>,
    value: CJsonRef<'json>,
}

#[derive(Debug)]
enum Payload<'json> {
    Null,
    Bool(bool),
    Number(u64),
    String(Text<'json>),
    Array(Vec<CJsonRef<'json>>),
    Object(Vec<Member<'json>>),
}

/// A node of a document.
///
/// A `&CJsonRef` is a view of a node inside a tree that somebody else owns;
/// a `&mut CJsonRef` is the one accessor through which that node and what
/// hangs below it can be changed. A `CJsonRef` held by value is a detached
/// tree without its handle.
#[derive(Debug)]
pub struct CJsonRef<'json> {
    payload: Payload<'json>,
}

/// Whether all of `items` hold their own bytes, built from the last one down.
spec fn items_own<'json>(items: Seq<CJsonRef<'json>>) -> bool
    decreases items,
{
    items.len() == 0 || (items_own(items.drop_last()) && items.last().owns_bytes())
}

/// Whether all of `members` hold their own bytes, names included.
spec fn members_own<'json>(members: Seq<Member<'json>>) -> bool
    decreases members,
{
    members.len() == 0 || (members_own(members.drop_last()) && members.last().name is Owned
        && members.last().value.owns_bytes())
}

/// The models of the elements of an array.
spec fn item_views<'json>(items: Seq<CJsonRef<'json>>) -> Seq<JsonValue> {
    Seq::new(items.len(), |i: int| items[i]@)
}

/// The models of the members of an object.
spec fn member_views<'json>(members: Seq<Member<'json>>) -> Seq<(Seq<u8>, JsonValue)> {
    Seq::new(members.len(), |i: int| (members[i].name.bytes(), members[i].value@))
}

/// The models of the elements of an array, built from the last one down.
spec fn fold_items<'json>(items: Seq<CJsonRef<'json>>) -> Seq<JsonValue>
    decreases items,
{
    if items.len() == 0 {
        Seq::empty()
    } else {
        fold_items(items.drop_last()).push(items.last().view())
    }
}

/// The models of the members of an object, built from the last one down.
spec fn fold_members<'json>(members: Seq<Member<'json>>) -> Seq<(Seq<u8>, JsonValue)>
    decreases members,
{
    if members.len() == 0 {
        Seq::empty()
    } else {
        fold_members(members.drop_last()).push(
            (members.last().name.bytes(), members.last().value.view()),
        )
    }
}

impl<'json> View for CJsonRef<'json> {
    type V = JsonValue;

    closed spec fn view(&self) -> JsonValue
        decreases self,
    {
        match self.payload {
            Payload::Null => JsonValue::Null,
            Payload::Bool(b) => JsonValue::Bool(b),
            Payload::Number(bits) => JsonValue::Number(bits),
            Payload::String(text) => JsonValue::String(text.bytes()),
            Payload::Array(items) => JsonValue::Array(fold_items(items@)),
            Payload::Object(members) => JsonValue::Object(fold_members(members@)),
        }
    }
}

proof fn lemma_fold_items<'json>(items: Seq<CJsonRef<'json>>)
    ensures
        fold_items(items) == item_views(items),
    decreases items.len(),
{
    if items.len() > 0 {
        let front = items.drop_last();
        lemma_fold_items(front);
        assert(fold_items(items) == fold_items(front).push(items.last()@));
        assert forall|i: int| 0 <= i < items.len() implies fold_items(items)[i] == item_views(
            items,
        )[i] by {
            if i < front.len() {
                assert(front[i] == items[i]);
            }
        }
    }
    assert(fold_items(items) =~= item_views(items));
}

proof fn lemma_fold_members<'json>(members: Seq<Member<'json>>)
    ensures
        fold_members(members) == member_views(members),
    decreases members.len(),
{
    if members.len() > 0 {
        let front = members.drop_last();
        lemma_fold_members(front);
        assert(fold_members(members) == fold_members(front).push(
            (members.last().name.bytes(), members.last().value@),
        ));
        assert forall|i: int| 0 <= i < members.len() implies fold_members(members)[i]
            == member_views(members)[i] by {
            if i < front.len() {
                assert(front[i] == members[i]);
            }
        }
    }
    assert(fold_members(members) =~= member_views(members));
}

/// How the models of a list of elements follow the list through an update,
/// a push, an insertion and a removal.
proof fn lemma_item_views<'json>()
    ensures
        forall|s: Seq<CJsonRef<'json>>, i: int, c: CJsonRef<'json>|
            0 <= i < s.len() ==> #[trigger] item_views(s.update(i, c)) == item_views(s).update(
                i,
                c@,
            ),
        forall|s: Seq<CJsonRef<'json>>, c: CJsonRef<'json>| #[trigger]
            item_views(s.push(c)) == item_views(s).push(c@),
        forall|s: Seq<CJsonRef<'json>>, i: int, c: CJsonRef<'json>|
            0 <= i <= s.len() ==> #[trigger] item_views(s.insert(i, c)) == item_views(s).insert(
                i,
                c@,
            ),
        forall|s: Seq<CJsonRef<'json>>, i: int|
            0 <= i < s.len() ==> #[trigger] item_views(s.remove(i)) == item_views(s).remove(i),
{
    assert forall|s: Seq<CJsonRef<'json>>, i: int, c: CJsonRef<'json>|
        0 <= i < s.len() implies #[trigger] item_views(s.update(i, c)) == item_views(s).update(
        i,
        c@,
    ) by {
        assert(item_views(s.update(i, c)) =~= item_views(s).update(i, c@));
    }
    assert forall|s: Seq<CJsonRef<'json>>, c: CJsonRef<'json>| #[trigger]
        item_views(s.push(c)) == item_views(s).push(c@) by {
        assert(item_views(s.push(c)) =~= item_views(s).push(c@));
    }
    assert forall|s: Seq<CJsonRef<'json>>, i: int, c: CJsonRef<'json>|
        0 <= i <= s.len() implies #[trigger] item_views(s.insert(i, c)) == item_views(s).insert(
        i,
        c@,
    ) by {
        assert(item_views(s.insert(i, c)) =~= item_views(s).insert(i, c@));
    }
    assert forall|s: Seq<CJsonRef<'json>>, i: int| 0 <= i < s.len() implies #[trigger] item_views(
        s.remove(i),
    ) == item_views(s).remove(i) by {
        assert(item_views(s.remove(i)) =~= item_views(s).remove(i));
    }
}

/// How the models of a list of members follow the list through an update of
/// one member's value, a push and a removal.
proof fn lemma_member_views<'json>()
    ensures
        forall|s: Seq<Member<'json>>, i: int, m: Member<'json>|
            0 <= i < s.len() && m.name == s[i].name ==> #[trigger] member_views(s.update(i, m))
                == member_views(s).update(i, (member_views(s)[i].0, m.value@)),
        forall|s: Seq<Member<'json>>, m: Member<'json>| #[trigger]
            member_views(s.push(m)) == member_views(s).push((m.name.bytes(), m.value@)),
        forall|s: Seq<Member<'json>>, i: int|
            0 <= i < s.len() ==> #[trigger] member_views(s.remove(i)) == member_views(s).remove(
                i,
            ),
{
    assert forall|s: Seq<Member<'json>>, i: int, m: Member<'json>|
        0 <= i < s.len() && m.name == s[i].name implies #[trigger] member_views(s.update(i, m))
        == member_views(s).update(i, (member_views(s)[i].0, m.value@)) by {
        assert(member_views(s.update(i, m)) =~= member_views(s).update(
            i,
            (member_views(s)[i].0, m.value@),
        ));
    }
    assert forall|s: Seq<Member<'json>>, m: Member<'json>| #[trigger]
        member_views(s.push(m)) == member_views(s).push((m.name.bytes(), m.value@)) by {
        assert(member_views(s.push(m)) =~= member_views(s).push((m.name.bytes(), m.value@)));
    }
    assert forall|s: Seq<Member<'json>>, i: int| 0 <= i < s.len() implies #[trigger] member_views(
        s.remove(i),
    ) == member_views(s).remove(i) by {
        assert(member_views(s.remove(i)) =~= member_views(s).remove(i));
    }
}

/// The model of every array node is the array of its elements' models, and
/// the model of every object node is the object of its members' models.
proof fn lemma_views<'json>()
    ensures
        forall|node: CJsonRef<'json>|
            node.payload is Array ==> #[trigger] node.view() == JsonValue::Array(
                item_views(node.payload->Array_0@),
            ),
        forall|node: CJsonRef<'json>|
            node.payload is Object ==> #[trigger] node.view() == JsonValue::Object(
                member_views(node.payload->Object_0@),
            ),
{
    assert forall|node: CJsonRef<'json>| node.payload is Array implies #[trigger] node.view()
        == JsonValue::Array(item_views(node.payload->Array_0@)) by {
        node.lemma_view_array();
    }
    assert forall|node: CJsonRef<'json>| node.payload is Object implies #[trigger] node.view()
        == JsonValue::Object(member_views(node.payload->Object_0@)) by {
        node.lemma_view_array();
    }
}

impl<'json> CJsonRef<'json> {
    /// The model of an array node is the array of its elements' models.
    proof fn lemma_view_array(self)
        ensures
            self.payload matches Payload::Array(items) ==> self@ == JsonValue::Array(
                item_views(items@),
            ),
            self.payload matches Payload::Object(members) ==> self@ == JsonValue::Object(
                member_views(members@),
            ),
    {
        match self.payload {
            Payload::Array(items) => {
                lemma_fold_items(items@);
            },
            Payload::Object(members) => {
                lemma_fold_members(members@);
            },
            _ => {},
        }
    }

    /// A new null node.
    pub fn new_null() -> (r: Self)
        ensures
            r@ == JsonValue::Null,
            r.owns_bytes(),
    {
        CJsonRef { payload: Payload::Null }
    }

    /// A new boolean node.
    pub fn new_bool(b: bool) -> (r: Self)
        ensures
            r@ == JsonValue::Bool(b),
            r.owns_bytes(),
    {
        CJsonRef { payload: Payload::Bool(b) }
    }

    /// A new number node that holds the binary64 bit pattern `bits`.
    pub fn new_number(bits: u64) -> (r: Self)
        ensures
            r@ == JsonValue::Number(bits),
            r.owns_bytes(),
    {
        CJsonRef { payload: Payload::Number(bits) }
    }

    /// A new string node that holds its own copy of `s`.
    pub fn new_string(s: &[u8]) -> (r: Self)
        ensures
            r@ == JsonValue::String(s@),
            !r.is_reference(),
            r.owns_bytes(),
    {
        CJsonRef { payload: Payload::String(Text::Owned(slice_to_vec(s))) }
    }

    /// A new string node that borrows the bytes of `s`.
    pub fn new_string_reference(s: &'json [u8]) -> (r: Self)
        ensures
            r@ == JsonValue::String(s@),
            r.is_reference(),
            !r.owns_bytes(),
    {
        CJsonRef { payload: Payload::String(Text::Reference(s)) }
    }

    /// A new array node without elements.
    pub fn new_array() -> (r: Self)
        ensures
            r@ == JsonValue::Array(Seq::empty()),
    {
        let r = CJsonRef { payload: Payload::Array(Vec::new()) };
        proof {
            r.lemma_view_array();
            assert(item_views(Seq::<CJsonRef<'json>>::empty()) =~= Seq::empty());
        }
        r
    }

    /// A new object node without members.
    pub fn new_object() -> (r: Self)
        ensures
            r@ == JsonValue::Object(Seq::empty()),
    {
        let r = CJsonRef { payload: Payload::Object(Vec::new()) };
        proof {
            r.lemma_view_array();
            assert(member_views(Seq::<Member<'json>>::empty()) =~= Seq::empty());
        }
        r
    }

    /// Whether this node and all that hangs below it hold their own bytes:
    /// no string and no name borrows the bytes of a caller.
    pub closed spec fn owns_bytes(&self) -> bool
        decreases self,
    {
        match self.payload {
            Payload::String(text) => text is Owned,
            Payload::Array(items) => items_own(items@),
            Payload::Object(members) => members_own(members@),
            _ => true,
        }
    }

    /// Whether this is a string node that borrows its bytes instead of
    /// holding a copy.
    pub closed spec fn is_reference(&self) -> bool {
        self.payload matches Payload::String(Text::Reference(_))
    }

    /// Whether this node is a null.
    pub fn is_null(&self) -> (r: bool)
        ensures
            r == (self@ is Null),
    {
        match &self.payload {
            Payload::Null => true,
            _ => false,
        }
    }

    /// Whether this node is a boolean.
    pub fn is_bool(&self) -> (r: bool)
        ensures
            r == (self@ is Bool),
    {
        match &self.payload {
            Payload::Bool(_) => true,
            _ => false,
        }
    }

    /// Whether this node is a number.
    pub fn is_number(&self) -> (r: bool)
        ensures
            r == (self@ is Number),
    {
        match &self.payload {
            Payload::Number(_) => true,
            _ => false,
        }
    }

    /// Whether this node is a string.
    pub fn is_string(&self) -> (r: bool)
        ensures
            r == (self@ is String),
    {
        match &self.payload {
            Payload::String(_) => true,
            _ => false,
        }
    }

    /// Whether this node is an array.
    pub fn is_array(&self) -> (r: bool)
        ensures
            r == (self@ is Array),
    {
        match &self.payload {
            Payload::Array(_) => true,
            _ => false,
        }
    }

    /// Whether this node is an object.
    pub fn is_object(&self) -> (r: bool)
        ensures
            r == (self@ is Object),
    {
        match &self.payload {
            Payload::Object(_) => true,
            _ => false,
        }
    }

    /// The boolean that this node holds, if it is a boolean.
    pub fn as_bool(&self) -> (r: Option<bool>)
        ensures
            r == (match self@ {
                JsonValue::Bool(b) => Some(b),
                _ => None,
            }),
    {
        match &self.payload {
            Payload::Bool(b) => Some(*b),
            _ => None,
        }
    }

    /// The binary64 bit pattern of the number that this node holds, if it is
    /// a number.
    pub fn as_number(&self) -> (r: Option<u64>)
        ensures
            r == (match self@ {
                JsonValue::Number(bits) => Some(bits),
                _ => None,
            }),
    {
        match &self.payload {
            Payload::Number(bits) => Some(*bits),
            _ => None,
        }
    }

    /// The bytes of the string that this node holds, if it is a string. For
    /// a node that borrows its bytes these are the borrowed bytes themselves.
    pub fn as_c_string(&self) -> (r: Option<&[u8]>)
        ensures
            match self@ {
                JsonValue::String(bytes) => r matches Some(s) && s@ == bytes,
                _ => r is None,
            },
    {
        match &self.payload {
            Payload::String(text) => Some(text.as_slice()),
            _ => None,
        }
    }

    /// This node as an array, where it is one.
    pub fn as_array(&self) -> (r: Option<CJsonArray<&Self>>)
        ensures
            match r {
                Some(array) => self@ is Array && *array.inner == *self,
                None => !(self@ is Array),
            },
    {
        if self.is_array() {
            Some(CJsonArray { inner: self })
        } else {
            None
        }
    }

    /// This node as an array that can be changed, where it is one. What is
    /// done through the guard shows in this node when the guard is given up.
    pub fn as_mut_array(&mut self) -> (r: Option<CJsonArray<&mut Self>>)
        ensures
            match r {
                Some(array) => {
                    &&& old(self)@ is Array
                    &&& *array.inner == *old(self)
                    &&& *final(array.inner) == *final(self)
                },
                None => !(old(self)@ is Array) && *final(self) == *old(self),
            },
    {
        if self.is_array() {
            Some(CJsonArray { inner: self })
        } else {
            None
        }
    }

    /// This node as an object, where it is one.
    pub fn as_object(&self) -> (r: Option<CJsonObject<&Self>>)
        ensures
            match r {
                Some(object) => self@ is Object && *object.inner == *self,
                None => !(self@ is Object),
            },
    {
        if self.is_object() {
            Some(CJsonObject { inner: self })
        } else {
            None
        }
    }

    /// This node as an object that can be changed, where it is one. What is
    /// done through the guard shows in this node when the guard is given up.
    pub fn as_mut_object(&mut self) -> (r: Option<CJsonObject<&mut Self>>)
        ensures
            match r {
                Some(object) => {
                    &&& old(self)@ is Object
                    &&& *object.inner == *old(self)
                    &&& *final(object.inner) == *final(self)
                },
                None => !(old(self)@ is Object) && *final(self) == *old(self),
            },
    {
        if self.is_object() {
            Some(CJsonObject { inner: self })
        } else {
            None
        }
    }

    /// The numbers of this node and of what hangs below it for which
    /// printing needs a text from a table, in the order in which they are
    /// printed: those that are finite and whose value is no integer of up to
    /// thirty-two bits.
    pub fn pending_numbers(&self) -> (r: Vec<u64>)
        ensures
            r@ == unprinted(self@, Seq::empty()),
    {
        let mut out: Vec<u64> = Vec::new();
        collect_numbers(self, &mut out);
        out
    }

    /// This node and what hangs below it as compact JSON text. `numbers`
    /// supplies the text of each number that is neither an integer of up to
    /// thirty-two bits nor an infinity or a NaN; where it lacks one, the
    /// text cannot be made.
    pub fn to_c_string(&self, numbers: &NumberTable) -> (r: Result<CJsonString, Error>)
        ensures
            match value_text(self@, numbers@, false, 0) {
                Some(text) => r matches Ok(printed) && printed@ == text,
                None => r matches Err(e) && e == Error::Allocation,
            },
    {
        match print_document(self, numbers, false) {
            Some(mut bytes) => {
                let ghost text = bytes@;
                bytes.push(0);
                proof {
                    lemma_text_no_nul(self@, numbers@, false, 0);
                    assert(bytes@.drop_last() =~= text);
                    assert forall|i: int| 0 <= i < bytes@.len() - 1 implies bytes@[i] != 0 by {
                        assert(bytes@[i] == text[i]);
                    }
                }
                Ok(CJsonString::from_raw_parts(bytes))
            },
            None => Err(Error::Allocation),
        }
    }

    /// This node and what hangs below it as JSON text laid out over several
    /// lines. `numbers` is used as in `to_c_string`.
    pub fn to_c_string_pretty(&self, numbers: &NumberTable) -> (r: Result<CJsonString, Error>)
        ensures
            match value_text(self@, numbers@, true, 0) {
                Some(text) => r matches Ok(printed) && printed@ == text,
                None => r matches Err(e) && e == Error::Allocation,
            },
    {
        match print_document(self, numbers, true) {
            Some(mut bytes) => {
                let ghost text = bytes@;
                bytes.push(0);
                proof {
                    lemma_text_no_nul(self@, numbers@, true, 0);
                    assert(bytes@.drop_last() =~= text);
                    assert forall|i: int| 0 <= i < bytes@.len() - 1 implies bytes@[i] != 0 by {
                        assert(bytes@[i] == text[i]);
                    }
                }
                Ok(CJsonString::from_raw_parts(bytes))
            },
            None => Err(Error::Allocation),
        }
    }

    /// The number of elements of an array or of members of an object; zero
    /// for any other node.
    pub fn len(&self) -> (n: usize)
        ensures
            n == self@.children().len(),
    {
        proof {
            self.lemma_view_array();
        }
        match &self.payload {
            Payload::Array(items) => items.len(),
            Payload::Object(members) => members.len(),
            _ => 0,
        }
    }

    /// Whether `len` is zero.
    pub fn is_empty(&self) -> (r: bool)
        ensures
            r == (self@.children().len() == 0),
    {
        self.len() == 0
    }

    /// The child at `index`, counted from zero in sibling order.
    pub fn child(&self, index: usize) -> (r: Option<&CJsonRef<'json>>)
        ensures
            match r {
                Some(child) => index < self@.children().len() && child@ == self@.children()[
                    index as int],
                None => index >= self@.children().len(),
            },
    {
        proof {
            self.lemma_view_array();
        }
        match &self.payload {
            Payload::Array(items) => {
                if index < items.len() {
                    Some(&items[index])
                } else {
                    None
                }
            },
            Payload::Object(members) => {
                if index < members.len() {
                    Some(&members[index].value)
                } else {
                    None
                }
            },
            _ => None,
        }
    }

    /// The name of the member at `index` of an object.
    pub fn name(&self, index: usize) -> (r: Option<&[u8]>)
        ensures
            match r {
                Some(name) => index < self@.names().len() && name@ == self@.names()[index as int],
                None => index >= self@.names().len(),
            },
    {
        proof {
            self.lemma_view_array();
        }
        match &self.payload {
            Payload::Object(members) => {
                if index < members.len() {
                    Some(members[index].name.as_slice())
                } else {
                    None
                }
            },
            _ => None,
        }
    }

    /// The place of the first member named `key`, found by walking the
    /// members in sibling order and comparing names byte for byte.
    pub fn find(&self, key: &[u8]) -> (r: Option<usize>)
        ensures
            match r {
                Some(index) => find_member(self@.members(), key@) == Some(index as int),
                None => find_member(self@.members(), key@) is None,
            },
    {
        proof {
            self.lemma_view_array();
        }
        match &self.payload {
            Payload::Object(members) => {
                let mut i: usize = 0;
                while i < members.len()
                    invariant
                        0 <= i <= members.len(),
                        self@.members() == member_views(members@),
                        forall|j: int| 0 <= j < i ==> (#[trigger] self@.members()[j]).0 != key@,
                    decreases members.len() - i,
                {
                    if bytes_eq(members[i].name.as_slice(), key) {
                        proof {
                            lemma_find_member_at(self@.members(), key@, i as int);
                        }
                        return Some(i);
                    }
                    i += 1;
                }
                proof {
                    lemma_find_member_none(self@.members(), key@);
                }
                None
            },
            _ => {
                None
            },
        }
    }

    /// The one accessor of the child at `index`. What is done through it
    /// shows in this node when the accessor is given up.
    pub fn child_mut(&mut self, index: usize) -> (r: Option<&mut CJsonRef<'json>>)
        ensures
            match r {
                Some(child) => {
                    &&& index < old(self)@.children().len()
                    &&& child@ == old(self)@.children()[index as int]
                    &&& final(self)@ == old(self)@.with_child(index as int, final(child)@)
                },
                None => index >= old(self)@.children().len() && final(self)@ == old(self)@,
            },
    {
        proof {
            lemma_views();
            lemma_item_views();
            lemma_member_views();
        }
        match &mut self.payload {
            Payload::Array(items) => {
                if index < items.len() {
                    Some(&mut items[index])
                } else {
                    None
                }
            },
            Payload::Object(members) => {
                if index < members.len() {
                    Some(&mut members[index].value)
                } else {
                    None
                }
            },
            _ => None,
        }
    }

    /// Takes the child at `index` out of this node and hands it over as a
    /// tree of its own. The children after it close the gap.
    pub fn detach(&mut self, index: usize) -> (r: Option<CJsonRef<'json>>)
        ensures
            match r {
                Some(child) => {
                    &&& index < old(self)@.children().len()
                    &&& child@ == old(self)@.children()[index as int]
                    &&& final(self)@ == old(self)@.without_child(index as int)
                },
                None => index >= old(self)@.children().len() && final(self)@ == old(self)@,
            },
    {
        proof {
            lemma_views();
            lemma_item_views();
            lemma_member_views();
        }
        match &mut self.payload {
            Payload::Array(items) => {
                if index < items.len() {
                    Some(items.remove(index))
                } else {
                    None
                }
            },
            Payload::Object(members) => {
                if index < members.len() {
                    let member = members.remove(index);
                    Some(member.value)
                } else {
                    None
                }
            },
            _ => None,
        }
    }

    /// Hangs `value` behind the last element of this array.
    pub fn append(&mut self, value: CJsonRef<'json>)
        requires
            old(self)@ is Array,
        ensures
            final(self)@ == JsonValue::Array(old(self)@.children().push(value@)),
    {
        proof {
            lemma_views();
            lemma_item_views();
        }
        match &mut self.payload {
            Payload::Array(items) => {
                items.push(value);
            },
            _ => {},
        }
    }

    /// Hangs `value` into this array at `index`, or behind the last element
    /// where the array has no such place. The elements from `index` on move
    /// one place towards the back.
    pub fn insert_at(&mut self, index: usize, value: CJsonRef<'json>)
        requires
            old(self)@ is Array,
        ensures
            final(self)@ == JsonValue::Array(
                old(self)@.children().insert(
                    if index < old(self)@.children().len() {
                        index as int
                    } else {
                        old(self)@.children().len() as int
                    },
                    value@,
                ),
            ),
    {
        proof {
            lemma_views();
            lemma_item_views();
        }
        match &mut self.payload {
            Payload::Array(items) => {
                if index < items.len() {
                    items.insert(index, value);
                } else {
                    let end = items.len();
                    items.insert(end, value);
                }
            },
            _ => {},
        }
    }

    /// Hangs `value` behind the last member of this object, under `name`.
    pub fn append_member(&mut self, name: Text<'json>, value: CJsonRef<'json>)
        requires
            old(self)@ is Object,
        ensures
            final(self)@ == JsonValue::Object(old(self)@.members().push((name.bytes(), value@))),
    {
        proof {
            lemma_views();
            lemma_member_views();
        }
        match &mut self.payload {
            Payload::Object(members) => {
                members.push(Member { name, value });
            },
            _ => {},
        }
    }

    /// A copy of this node and of all that hangs below it. The copy holds
    /// its own bytes for every string and every name.
    pub fn duplicate_node(&self) -> (r: CJsonRef<'json>)
        ensures
            r@ == self@,
            r.owns_bytes(),
        decreases self,
    {
        proof {
            lemma_views();
            lemma_item_views();
            lemma_member_views();
        }
        match &self.payload {
            Payload::Null => CJsonRef::new_null(),
            Payload::Bool(b) => CJsonRef::new_bool(*b),
            Payload::Number(bits) => CJsonRef::new_number(*bits),
            Payload::String(text) => CJsonRef::new_string(text.as_slice()),
            Payload::Array(items) => {
                let mut copies: Vec<CJsonRef<'json>> = Vec::new();
                let mut i: usize = 0;
                while i < items.len()
                    invariant
                        self.payload is Array,
                        self.payload->Array_0 == *items,
                        0 <= i <= items.len(),
                        item_views(copies@) == item_views(items@).take(i as int),
                        items_own(copies@),
                    decreases items.len() - i,
                {
                    let copy = items[i].duplicate_node();
                    let ghost before = copies@;
                    copies.push(copy);
                    proof {
                        assert(copies@.drop_last() =~= before);
                        assert(item_views(items@).take(i + 1) =~= item_views(items@).take(
                            i as int,
                        ).push(copy@));
                    }
                    i += 1;
                }
                proof {
                    assert(item_views(items@).take(i as int) =~= item_views(items@));
                }
                CJsonRef { payload: Payload::Array(copies) }
            },
            Payload::Object(members) => {
                let mut copies: Vec<Member<'json>> = Vec::new();
                let mut i: usize = 0;
                while i < members.len()
                    invariant
                        self.payload is Object,
                        self.payload->Object_0 == *members,
                        0 <= i <= members.len(),
                        member_views(copies@) == member_views(members@).take(i as int),
                        members_own(copies@),
                    decreases members.len() - i,
                {
                    let name = Text::Owned(slice_to_vec(members[i].name.as_slice()));
                    let value = members[i].value.duplicate_node();
                    let copy = Member { name, value };
                    let ghost before = copies@;
                    copies.push(copy);
                    proof {
                        assert(copies@.drop_last() =~= before);
                        assert(member_views(members@).take(i + 1) =~= member_views(members@).take(
                            i as int,
                        ).push((copy.name.bytes(), copy.value@)));
                    }
                    i += 1;
                }
                proof {
                    assert(member_views(members@).take(i as int) =~= member_views(members@));
                }
                CJsonRef { payload: Payload::Object(copies) }
            },
        }
    }

    /// A deep copy of this node under a handle of its own. The copy shares
    /// nothing with the tree it was made from.
    pub fn duplicate(&self) -> (r: Result<CJson<'json>, Error>)
        ensures
            r matches Ok(copy) && copy@ == self@ && copy.owns_bytes(),
    {
        Ok(CJson::from_raw_parts(self.duplicate_node()))
    }

    /// Whether this node and `other` are deeply equal.
    pub fn deep_eq(&self, other: &CJsonRef<'json>) -> (r: bool)
        ensures
            r == self@.deep_eq(other@),
        decreases self,
    {
        proof {
            lemma_views();
        }
        match &self.payload {
            Payload::Null => other.is_null(),
            Payload::Bool(a) => match &other.payload {
                Payload::Bool(b) => *a == *b,
                _ => false,
            },
            Payload::Number(a) => match &other.payload {
                Payload::Number(b) => equal(*a, *b),
                _ => false,
            },
            Payload::String(a) => match &other.payload {
                Payload::String(b) => bytes_eq(a.as_slice(), b.as_slice()),
                _ => false,
            },
            Payload::Array(a) => match &other.payload {
                Payload::Array(b) => {
                    if a.len() != b.len() {
                        return false;
                    }
                    let mut i: usize = 0;
                    while i < a.len()
                        invariant
                            self.payload is Array,
                            self.payload->Array_0 == *a,
                            a.len() == b.len(),
                            self@ == JsonValue::Array(item_views(a@)),
                            other@ == JsonValue::Array(item_views(b@)),
                            0 <= i <= a.len(),
                            forall|k: int|
                                0 <= k < i ==> (#[trigger] item_views(a@)[k]).deep_eq(
                                    item_views(b@)[k],
                                ),
                        decreases a.len() - i,
                    {
                        if !a[i].deep_eq(&b[i]) {
                            assert(!item_views(a@)[i as int].deep_eq(item_views(b@)[i as int]));
                            return false;
                        }
                        i += 1;
                    }
                    true
                },
                _ => false,
            },
            Payload::Object(a) => match &other.payload {
                Payload::Object(b) => {
                    let ghost left = member_views(a@);
                    let ghost right = member_views(b@);
                    let mut i: usize = 0;
                    while i < a.len()
                        invariant
                            self.payload is Object,
                            self.payload->Object_0 == *a,
                            other.payload is Object,
                            other.payload->Object_0 == *b,
                            left == member_views(a@),
                            right == member_views(b@),
                            other@ == JsonValue::Object(right),
                            0 <= i <= a.len(),
                            self@ == JsonValue::Object(left),
                            forall|k: int|
                                #![trigger find_member(right, left[k].0)]
                                0 <= k < i ==> {
                                    let found = find_member(right, left[k].0);
                                    found is Some && 0 <= found->0 < right.len() && left[k].1.deep_eq(
                                        right[found->0].1,
                                    )
                                },
                        decreases a.len() - i,
                    {
                        proof {
                            lemma_find_member(right, left[i as int].0);
                        }
                        match other.find(a[i].name.as_slice()) {
                            None => {
                                assert(find_member(right, left[i as int].0) is None);
                                return false;
                            },
                            Some(j) => {
                                if !a[i].value.deep_eq(&b[j].value) {
                                    assert(!left[i as int].1.deep_eq(right[j as int].1));
                                    return false;
                                }
                            },
                        }
                        i += 1;
                    }
                    let mut j: usize = 0;
                    while j < b.len()
                        invariant
                            self.payload is Object,
                            self.payload->Object_0 == *a,
                            other.payload is Object,
                            other.payload->Object_0 == *b,
                            left == member_views(a@),
                            right == member_views(b@),
                            self@ == JsonValue::Object(left),
                            0 <= j <= b.len(),
                            other@ == JsonValue::Object(right),
                            forall|k: int|
                                #![trigger find_member(right, left[k].0)]
                                0 <= k < left.len() ==> {
                                    let found = find_member(right, left[k].0);
                                    found is Some && 0 <= found->0 < right.len() && left[k].1.deep_eq(
                                        right[found->0].1,
                                    )
                                },
                            forall|k: int|
                                #![trigger find_member(left, right[k].0)]
                                0 <= k < j ==> {
                                    let found = find_member(left, right[k].0);
                                    found is Some && 0 <= found->0 < left.len() && left[found->0].1.deep_eq(
                                        right[k].1,
                                    )
                                },
                        decreases b.len() - j,
                    {
                        proof {
                            lemma_find_member(left, right[j as int].0);
                        }
                        match self.find(b[j].name.as_slice()) {
                            None => {
                                assert(find_member(left, right[j as int].0) is None);
                                return false;
                            },
                            Some(i) => {
                                if !a[i].value.deep_eq(&b[j].value) {
                                    assert(!left[i as int].1.deep_eq(right[j as int].1));
                                    return false;
                                }
                            },
                        }
                        j += 1;
                    }
                    true
                },
                _ => false,
            },
        }
    }

    /// The children of this node, one after the other in sibling order.
    pub fn iter<'r>(&'r self) -> (r: CJsonIter<'r, 'json>)
        ensures
            r.remaining() == self@.children(),
            r.hint() == self@.children().len(),
    {
        let len = self.len();
        let r = CJsonIter { node: self, position: 0, len };
        proof {
            assert(self@.children().skip(0) =~= self@.children());
        }
        r
    }
}

impl<'json> PartialEq for CJsonRef<'json> {
    /// Deep equality.
    fn eq(&self, other: &Self) -> (r: bool) {
        self.deep_eq(other)
    }
}

impl<'json> vstd::std_specs::cmp::PartialEqSpecImpl for CJsonRef<'json> {
    open spec fn obeys_eq_spec() -> bool {
        true
    }

    open spec fn eq_spec(&self, other: &Self) -> bool {
        self@.deep_eq(other@)
    }
}

/// Something that holds a node or borrows one: a handle, a view or an
/// accessor.
pub trait AsCJsonRef<'json> {
    /// The model of the node that is held or borrowed.
    spec fn node(&self) -> JsonValue;

    /// The node that is held or borrowed.
    fn as_cjson_ref(&self) -> (r: &CJsonRef<'json>)
        ensures
            r@ == self.node(),
    ;
}

impl<'json> AsCJsonRef<'json> for CJson<'json> {
    open spec fn node(&self) -> JsonValue {
        self@
    }

    fn as_cjson_ref(&self) -> (r: &CJsonRef<'json>) {
        self.as_ref()
    }
}

impl<'a, 'json> AsCJsonRef<'json> for &'a CJsonRef<'json> {
    open spec fn node(&self) -> JsonValue {
        (**self)@
    }

    fn as_cjson_ref(&self) -> (r: &CJsonRef<'json>) {
        *self
    }
}

impl<'a, 'json> AsCJsonRef<'json> for &'a mut CJsonRef<'json> {
    open spec fn node(&self) -> JsonValue {
        (**self)@
    }

    fn as_cjson_ref(&self) -> (r: &CJsonRef<'json>) {
        &**self
    }
}

/// A walk over the children of one node, from the first to the last.
///
/// The walk borrows the node, so the node cannot change while the walk
/// lasts.
#[derive(Debug)]
pub struct CJsonIter<'r, 'json> {
    node: &'r CJsonRef<'json>,
    position: usize,
    len: usize,
}

impl<'r, 'json> CJsonIter<'r, 'json> {
    /// The children that the walk has not handed out yet, in the order in
    /// which it will hand them out.
    pub closed spec fn remaining(&self) -> Seq<JsonValue> {
        if self.position <= self.node@.children().len() {
            self.node@.children().skip(self.position as int)
        } else {
            Seq::empty()
        }
    }

    /// The number of children that the node had when the walk began.
    pub closed spec fn hint(&self) -> nat {
        self.len as nat
    }

    /// Hands out the next child, or nothing once the last one has been
    /// handed out.
    pub fn next(&mut self) -> (r: Option<&'r CJsonRef<'json>>)
        ensures
            match r {
                Some(child) => {
                    &&& old(self).remaining().len() > 0
                    &&& child@ == old(self).remaining()[0]
                    &&& final(self).remaining() == old(self).remaining().drop_first()
                },
                None => old(self).remaining().len() == 0 && final(self).remaining().len() == 0,
            },
            final(self).hint() == old(self).hint(),
    {
        let node = self.node;
        if self.position < node.len() {
            let child = node.child(self.position);
            self.position = self.position + 1;
            proof {
                assert(self.remaining() =~= old(self).remaining().drop_first());
            }
            child
        } else {
            None
        }
    }

    /// The bounds on the number of children still to come: nothing once the
    /// walk is over, and before that the number of children that the node
    /// had when the walk began.
    pub fn size_hint(&self) -> (r: (usize, Option<usize>))
        ensures
            self.remaining().len() == 0 ==> r == (0usize, Some(0usize)),
            self.remaining().len() > 0 ==> r == (self.hint() as usize, Some(self.hint() as usize)),
    {
        if self.position >= self.node.len() {
            (0, Some(0))
        } else {
            (self.len, Some(self.len))
        }
    }
}

} // verus!
