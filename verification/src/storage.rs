//! The two ways the bits are stored: one inline word, or a boxed slice of words.

use vstd::prelude::*;

verus! {

/// Storage of a `SmolBitVec`: one inline word, or words on the heap.
///
/// The words may hold bits beyond the logical length of the vector; those bits
/// carry no meaning.
#[derive(Debug)]
pub enum SmolBitVecBits {
    Inline(usize),
    Heap(Box<[usize]>),
}

impl SmolBitVecBits {
    /// The words of this storage, in order.
    pub open spec fn words(&self) -> Seq<usize> {
        match self {
            SmolBitVecBits::Inline(word) => seq![*word],
            SmolBitVecBits::Heap(chunks) => chunks@,
        }
    }

    /// Returns a slice view of the underlying words.
    ///
    /// Note: The returned slice may contain "dirty bits" (data beyond the logical length
    /// of the bit vector) and unused trailing words if the capacity exceeds the length.
    pub(crate) fn as_slice(&self) -> (words: &[usize])
        ensures
            words@ == self.words(),
    {
        match self {
            SmolBitVecBits::Inline(bits) => word_as_slice(bits),
            SmolBitVecBits::Heap(chunks) => &**chunks,
        }
    }
}

impl Clone for SmolBitVecBits {
    /// A copy of the storage, with the same words in the same variant.
    fn clone(&self) -> (copy: Self)
        ensures
            copy.words() == self.words(),
            (copy is Inline) == (self is Inline),
    {
        match self {
            SmolBitVecBits::Inline(word) => SmolBitVecBits::Inline(*word),
            SmolBitVecBits::Heap(chunks) => {
                SmolBitVecBits::Heap(into_boxed_words(vstd::slice::slice_to_vec(&**chunks)))
            },
        }
    }
}

/// `std::slice::from_ref`: the one-element slice that borrows `word`.
#[verifier::external_body]
fn word_as_slice(word: &usize) -> (words: &[usize])
    ensures
        words@ == seq![*word],
{
    std::slice::from_ref(word)
}

/// `Vec::into_boxed_slice`: the same words, as a boxed slice.
#[verifier::external_body]
pub(crate) fn into_boxed_words(words: Vec<usize>) -> (boxed: Box<[usize]>)
    ensures
        boxed@ == words@,
{
    words.into_boxed_slice()
}

} // verus!
