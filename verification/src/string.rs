//! The text that printing a document gives.

use vstd::prelude::*;

verus! {

/// A printed document: its bytes, none of them zero, and behind them one
/// zero byte that ends the text.
#[derive(Debug, PartialEq, Eq, PartialOrd, Ord, Hash)]
pub struct CJsonString {
    bytes: Vec<u8>,
}

/// Whether `bytes` is a text that one zero byte ends: the last byte is
/// zero and no other is.
pub open spec fn nul_terminated(bytes: Seq<u8>) -> bool {
    &&& bytes.len() > 0
    &&& bytes.last() == 0
    &&& forall|i: int| 0 <= i < bytes.len() - 1 ==> bytes[i] != 0
}

impl View for CJsonString {
    type V = Seq<u8>;

    /// The bytes of the text, without the zero byte that ends it.
    closed spec fn view(&self) -> Seq<u8> {
        self.bytes@.drop_last()
    }
}

impl CJsonString {
    #[verifier::type_invariant]
    spec fn inv(self) -> bool {
        nul_terminated(self.bytes@)
    }

    /// Takes over a buffer that holds a text and the zero byte that ends
    /// it.
    pub fn from_raw_parts(bytes: Vec<u8>) -> (r: Self)
        requires
            nul_terminated(bytes@),
        ensures
            r@ == bytes@.drop_last(),
    {
        CJsonString { bytes }
    }

    /// The bytes of the text.
    pub fn to_bytes(&self) -> (r: &[u8])
        ensures
            r@ == self@,
            forall|i: int| 0 <= i < r@.len() ==> r@[i] != 0,
    {
        proof {
            use_type_invariant(self);
        }
        let end = self.bytes.len() - 1;
        vstd::slice::slice_subrange(self.bytes.as_slice(), 0, end)
    }

    /// The bytes of the text and the zero byte that ends it.
    pub fn to_bytes_with_nul(&self) -> (r: &[u8])
        ensures
            r@ == self@.push(0u8),
    {
        proof {
            use_type_invariant(self);
            assert(self.bytes@ =~= self@.push(0u8));
        }
        self.bytes.as_slice()
    }

    /// The number of bytes of the text, without the zero byte that ends it.
    pub fn len(&self) -> (n: usize)
        ensures
            n == self@.len(),
    {
        proof {
            use_type_invariant(self);
        }
        self.bytes.len() - 1
    }
}

} // verus!
