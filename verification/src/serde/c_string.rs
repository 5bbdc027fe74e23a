//! Texts as strings and names of a document, which hold no zero byte.

use vstd::prelude::*;
use vstd::slice::slice_to_vec;
use vstd::utf8::encode_scalar;
use vstd::utf8::encode_utf8;
use crate::serde::error::Error;
use crate::serde::error::ErrorView;

verus! {

/// The index of the first zero byte of `bytes`, if it holds one.
pub open spec fn first_nul(bytes: Seq<u8>) -> Option<int>
    decreases bytes.len(),
{
    if bytes.len() == 0 {
        None
    } else if bytes[0] == 0 {
        Some(0)
    } else {
        match first_nul(bytes.drop_first()) {
            Some(i) => Some(i + 1),
            None => None,
        }
    }
}

/// What `first_nul` finds: the least index that holds a zero byte, and
/// nothing exactly when no byte is zero.
pub proof fn lemma_first_nul(bytes: Seq<u8>)
    ensures
        match first_nul(bytes) {
            Some(i) => {
                &&& 0 <= i < bytes.len()
                &&& bytes[i] == 0
                &&& forall|j: int| 0 <= j < i ==> bytes[j] != 0
            },
            None => forall|j: int| 0 <= j < bytes.len() ==> bytes[j] != 0,
        },
    decreases bytes.len(),
{
    if bytes.len() > 0 && bytes[0] != 0 {
        let rest = bytes.drop_first();
        lemma_first_nul(rest);
        assert(forall|j: int| 0 < j < bytes.len() ==> bytes[j] == rest[j - 1]);
    }
}

/// The bytes of a text as a string of a document: the bytes themselves,
/// unless one of them is zero.
pub open spec fn c_string_spec(bytes: Seq<u8>) -> Result<Seq<u8>, ErrorView> {
    match first_nul(bytes) {
        Some(i) => Err(ErrorView::CString(i)),
        None => Ok(bytes),
    }
}

/// A copy of `bytes` for a string or a name of a document. Fails at the
/// first zero byte.
pub fn c_string(bytes: &[u8]) -> (r: Result<Vec<u8>, Error>)
    ensures
        match r {
            Ok(copy) => c_string_spec(bytes@) == Ok::<Seq<u8>, ErrorView>(copy@),
            Err(e) => c_string_spec(bytes@) == Err::<Seq<u8>, ErrorView>(e@),
        },
{
    proof {
        lemma_first_nul(bytes@);
    }
    let mut i: usize = 0;
    while i < bytes.len()
        invariant
            0 <= i <= bytes.len(),
            forall|j: int| 0 <= j < i ==> bytes@[j] != 0,
        decreases bytes.len() - i,
    {
        if bytes[i] == 0 {
            proof {
                lemma_first_nul(bytes@);
            }
            return Err(Error::CString(i));
        }
        i += 1;
    }
    Ok(slice_to_vec(bytes))
}

/// The bytes of the one character `c` in UTF-8.
pub fn encode_char(c: char) -> (r: Vec<u8>)
    ensures
        r@ == encode_utf8(seq![c]),
{
    let scalar: u32 = c as u32;
    let mut out: Vec<u8> = Vec::new();
    if scalar <= 0x7F {
        out.push((scalar & 0x7F) as u8);
    } else if scalar <= 0x7FF {
        out.push(0xC0 | ((scalar >> 6) & 0x1F) as u8);
        out.push(0x80 | (scalar & 0x3F) as u8);
    } else if scalar <= 0xFFFF {
        out.push(0xE0 | ((scalar >> 12) & 0x0F) as u8);
        out.push(0x80 | ((scalar >> 6) & 0x3F) as u8);
        out.push(0x80 | (scalar & 0x3F) as u8);
    } else {
        out.push(0xF0 | ((scalar >> 18) & 0x7) as u8);
        out.push(0x80 | ((scalar >> 12) & 0x3F) as u8);
        out.push(0x80 | ((scalar >> 6) & 0x3F) as u8);
        out.push(0x80 | (scalar & 0x3F) as u8);
    }
    proof {
        let one = seq![c];
        vstd::utf8::char_is_scalar(c);
        assert(one.drop_first() =~= Seq::<char>::empty());
        assert(encode_utf8(one) =~= encode_scalar(scalar) + encode_utf8(one.drop_first()));
        assert(encode_utf8(one) =~= encode_scalar(scalar));
        assert(out@ =~= encode_scalar(scalar));
    }
    out
}

} // verus!
