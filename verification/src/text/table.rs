//! Numbers between their decimal text and their bits.
//!
//! A document holds a number as the bit pattern of a binary64 value. The
//! library converts what integer arithmetic can convert exactly: a number
//! written as an integer that fits in sixty-four bits, and a number whose
//! value is an integer of up to thirty-two bits. For every other number the
//! caller supplies the conversion, as a table of texts and bit patterns.

use vstd::prelude::*;
use vstd::slice::slice_to_vec;
use crate::cjsonref::bytes_eq;

verus! {

/// One line of a table: a decimal text and the bit pattern that it stands
/// for.
#[derive(Debug)]
pub struct NumberEntry {
    pub text: Vec<u8>,
    pub bits: u64,
}

/// Pairs of decimal text and bit pattern, supplied by the caller.
///
/// A lookup by text finds the first line with that text; a lookup by bits
/// finds the first line with exactly those bits.
#[derive(Debug)]
pub struct NumberTable {
    entries: Vec<NumberEntry>,
}

/// The bits of the first line of `table` whose text is `text`.
pub open spec fn table_bits(table: Seq<(Seq<u8>, u64)>, text: Seq<u8>) -> Option<u64>
    decreases table.len(),
{
    if table.len() == 0 {
        None
    } else if table[0].0 == text {
        Some(table[0].1)
    } else {
        table_bits(table.drop_first(), text)
    }
}

/// The text of the first line of `table` whose bits are `bits`.
pub open spec fn table_text(table: Seq<(Seq<u8>, u64)>, bits: u64) -> Option<Seq<u8>>
    decreases table.len(),
{
    if table.len() == 0 {
        None
    } else if table[0].1 == bits {
        Some(table[0].0)
    } else {
        table_text(table.drop_first(), bits)
    }
}

impl View for NumberTable {
    type V = Seq<(Seq<u8>, u64)>;

    closed spec fn view(&self) -> Seq<(Seq<u8>, u64)> {
        Seq::new(self.entries@.len(), |i: int| (self.entries@[i].text@, self.entries@[i].bits))
    }
}

impl NumberTable {
    /// A table without lines.
    pub fn new() -> (r: Self)
        ensures
            r@ == Seq::<(Seq<u8>, u64)>::empty(),
    {
        let r = NumberTable { entries: Vec::new() };
        proof {
            assert(r@ =~= Seq::empty());
        }
        r
    }

    /// Adds a line behind the last.
    pub fn insert(&mut self, text: &[u8], bits: u64)
        ensures
            final(self)@ == old(self)@.push((text@, bits)),
    {
        self.entries.push(NumberEntry { text: slice_to_vec(text), bits });
        proof {
            assert(self@ =~= old(self)@.push((text@, bits)));
        }
    }

    /// The number of lines.
    pub fn len(&self) -> (n: usize)
        ensures
            n == self@.len(),
    {
        self.entries.len()
    }

    /// The bits of the first line whose text is `text`.
    pub fn bits_of(&self, text: &[u8]) -> (r: Option<u64>)
        ensures
            r == table_bits(self@, text@),
    {
        let mut i: usize = 0;
        proof {
            assert(self@.skip(0) =~= self@);
        }
        while i < self.entries.len()
            invariant
                0 <= i <= self.entries.len(),
                table_bits(self@, text@) == table_bits(self@.skip(i as int), text@),
            decreases self.entries.len() - i,
        {
            proof {
                assert(self@.skip(i as int).drop_first() =~= self@.skip(i + 1));
            }
            if bytes_eq(self.entries[i].text.as_slice(), text) {
                return Some(self.entries[i].bits);
            }
            i += 1;
        }
        None
    }

    /// The text of the first line whose bits are `bits`.
    pub fn text_of(&self, bits: u64) -> (r: Option<&[u8]>)
        ensures
            match r {
                Some(text) => table_text(self@, bits) == Some(text@),
                None => table_text(self@, bits) is None,
            },
    {
        let mut i: usize = 0;
        proof {
            assert(self@.skip(0) =~= self@);
        }
        while i < self.entries.len()
            invariant
                0 <= i <= self.entries.len(),
                table_text(self@, bits) == table_text(self@.skip(i as int), bits),
            decreases self.entries.len() - i,
        {
            proof {
                assert(self@.skip(i as int).drop_first() =~= self@.skip(i + 1));
            }
            if self.entries[i].bits == bits {
                return Some(self.entries[i].text.as_slice());
            }
            i += 1;
        }
        None
    }
}

} // verus!
