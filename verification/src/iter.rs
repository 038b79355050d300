//! Walking the bits of a vector in order.

use vstd::prelude::*;
use crate::smol_bit_vec::SmolBitVec;

verus! {

/// The bits of a `SmolBitVec`, from the first to the last.
pub struct SmolBitVecIter<'a> {
    vec: &'a SmolBitVec,
    index: usize,
}

impl<'a> SmolBitVecIter<'a> {
    #[verifier::type_invariant]
    spec fn index_in_range(&self) -> bool {
        self.index <= self.vec@.len()
    }

    /// The bits of the vector being walked.
    pub closed spec fn source(&self) -> Seq<bool> {
        self.vec@
    }

    /// Number of bits already handed out.
    pub closed spec fn position(&self) -> int {
        self.index as int
    }

    /// The bits still to come, in order.
    pub open spec fn remaining(&self) -> Seq<bool> {
        self.source().subrange(self.position(), self.source().len() as int)
    }

    /// Hands out the next bit, or `None` once every bit has been handed out.
    pub fn next(&mut self) -> (item: Option<bool>)
        ensures
            final(self).source() == old(self).source(),
            old(self).remaining().len() == 0 ==> {
                &&& item == None::<bool>
                &&& final(self).position() == old(self).position()
            },
            old(self).remaining().len() > 0 ==> {
                &&& item == Some(old(self).remaining()[0])
                &&& final(self).position() == old(self).position() + 1
            },
            final(self).remaining() == if old(self).remaining().len() == 0 {
                old(self).remaining()
            } else {
                old(self).remaining().drop_first()
            },
    {
        proof { use_type_invariant(&*self); }
        if self.index >= self.vec.len() {
            return None;
        }

        let value = self.vec.get(self.index);
        self.index += 1;

        assert(self.remaining() =~= old(self).remaining().drop_first());
        value
    }

    /// The exact number of bits still to come, as both bounds.
    pub fn size_hint(&self) -> (hint: (usize, Option<usize>))
        ensures
            hint.0 == self.remaining().len(),
            hint.1 == Some(hint.0),
    {
        proof { use_type_invariant(self); }
        let remaining = self.vec.len() - self.index;
        (remaining, Some(remaining))
    }

    /// Number of bits still to come.
    pub fn len(&self) -> (remaining: usize)
        ensures
            remaining == self.remaining().len(),
    {
        proof { use_type_invariant(self); }
        self.vec.len() - self.index
    }
}

impl SmolBitVec {
    /// Walks the bits from the first to the last.
    pub fn into_iter(&self) -> (iter: SmolBitVecIter<'_>)
        ensures
            iter.source() == self@,
            iter.position() == 0,
            iter.remaining() == self@,
    {
        let iter = SmolBitVecIter { vec: self, index: 0 };
        assert(iter.remaining() =~= self@);
        iter
    }
}

} // verus!
