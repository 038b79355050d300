//! The textual form of a vector: the list of its bits.

use vstd::prelude::*;
use vstd::string::StringExecFns;
use crate::smol_bit_vec::SmolBitVec;

verus! {

/// The text of one boolean.
pub open spec fn bool_text(value: bool) -> Seq<char> {
    if value {
        "true"@
    } else {
        "false"@
    }
}

/// The texts of `bits`, separated by `", "`.
pub open spec fn list_text(bits: Seq<bool>) -> Seq<char>
    decreases bits.len(),
{
    if bits.len() == 0 {
        Seq::empty()
    } else if bits.len() == 1 {
        bool_text(bits[0])
    } else {
        list_text(bits.drop_last()) + ", "@ + bool_text(bits.last())
    }
}

/// The bits as a bracketed list, the form in which `{:?}` writes a slice of booleans.
pub open spec fn debug_text(bits: Seq<bool>) -> Seq<char> {
    "["@ + list_text(bits) + "]"@
}

impl SmolBitVec {
    /// The bits as a bracketed list, such as `[true, false]`.
    pub fn to_debug_string(&self) -> (text: String)
        ensures
            text@ == debug_text(self@),
    {
        let mut text = String::new();
        text.append("[");

        let mut iter = self.into_iter();
        let mut count: usize = 0;
        while count < self.len()
            invariant
                count <= self@.len(),
                iter.source() == self@,
                iter.remaining() == self@.subrange(count as int, self@.len() as int),
                text@ == "["@ + list_text(self@.subrange(0, count as int)),
            decreases self@.len() - count,
        {
            let ghost before = text@;
            let bit = match iter.next() {
                Some(bit) => bit,
                None => false,
            };
            if count > 0 {
                text.append(", ");
            }
            if bit {
                text.append("true");
            } else {
                text.append("false");
            }
            proof {
                let done = self@.subrange(0, count as int);
                let next = self@.subrange(0, count + 1);
                assert(next.drop_last() =~= done);
                assert(bit == self@[count as int]);
                if count == 0 {
                    assert(text@ =~= "["@ + list_text(next));
                } else {
                    assert(text@ =~= "["@ + list_text(next));
                }
                assert(iter.remaining() =~= self@.subrange(count + 1, self@.len() as int));
            }
            count += 1;
        }

        text.append("]");
        assert(self@.subrange(0, self@.len() as int) =~= self@);
        text
    }
}

} // verus!
