//! The bit vector: its abstract view, its invariant and its operations.

use vstd::prelude::*;
use vstd::std_specs::cmp::PartialEqSpecImpl;
use crate::storage::{SmolBitVecBits, into_boxed_words};
use crate::word::{
    lemma_words_for_le, grown_words,
    BITS_PER_WORD, bit_at, bits_of, max_bits, words_for, is_inlineable_len, assign_bit,
    div_ceil, word_bit, lemma_bit_at_assign, lemma_bit_at_push, lemma_bit_at_prefix,
    lemma_position, lemma_position_of, lemma_position_below, lemma_position_above,
    lemma_small_words, lemma_mask_test, lemma_lowest_bit, lemma_clear_bit, lemma_words_for,
    lemma_words_for_unique, lemma_bit_at_word, lemma_set_bit, lemma_low_mask_eq,
    lemma_one_shl_positive, with_bit,
};

verus! {

/// A growable vector of booleans packed one bit per boolean, held in a single
/// inline word while it fits there and in a boxed slice of words beyond that.
pub struct SmolBitVec {
    len: usize,
    bits: SmolBitVecBits,
}

impl SmolBitVec {
    /// The length fits in the storage, and the storage's bit count fits in a `usize`.
    #[verifier::type_invariant]
    spec fn well_formed(&self) -> bool {
        match self.bits {
            SmolBitVecBits::Inline(_) => self.len <= BITS_PER_WORD,
            SmolBitVecBits::Heap(chunks) => {
                &&& 1 <= chunks@.len()
                &&& self.len <= chunks@.len() * BITS_PER_WORD
                &&& chunks@.len() * BITS_PER_WORD <= usize::MAX
            },
        }
    }

    /// The storage behind the vector.
    pub closed spec fn storage(&self) -> SmolBitVecBits {
        self.bits
    }

    /// The logical length.
    pub closed spec fn spec_len(&self) -> nat {
        self.len as nat
    }

    /// The words that hold the bits.
    pub open spec fn words(&self) -> Seq<usize> {
        self.storage().words()
    }

    /// Whether the bits are held in the inline word.
    pub open spec fn is_inline(&self) -> bool {
        self.storage() is Inline
    }

    /// Number of bits the storage holds without growing.
    pub open spec fn spec_capacity(&self) -> nat {
        (self.words().len() * BITS_PER_WORD) as nat
    }

    /// Whether the storage is as small as the bits allow: the inline word while
    /// they fit there, and no heap word beyond those that the bits need.
    pub open spec fn is_compact(&self) -> bool {
        if self.is_inline() {
            self@.len() <= BITS_PER_WORD
        } else {
            &&& self@.len() > BITS_PER_WORD
            &&& self.words().len() == words_for(self@.len() as int)
        }
    }

    /// Whether every stored bit at or beyond the length is zero.
    pub open spec fn is_clean(&self) -> bool {
        forall|i: int| self@.len() <= i < self.spec_capacity() ==> !bit_at(self.words(), i)
    }

    /// What `push(value)` makes of `self`: the bits with `value` appended, the
    /// storage inline only while the bits fit in one word, and one more word of
    /// capacity exactly when the storage was full.
    pub open spec fn pushed(self, value: bool, after: Self) -> bool {
        &&& after@ == self@.push(value)
        &&& after.is_inline() == (self.is_inline() && self@.len() < BITS_PER_WORD)
        &&& after.spec_capacity() == if self@.len() < self.spec_capacity() {
            self.spec_capacity() as int
        } else {
            self.spec_capacity() + BITS_PER_WORD
        }
        &&& self.is_compact() ==> after.is_compact()
    }

    /// What `pop()` makes of `self` and hands back: nothing from an empty vector,
    /// else the last bit, removed.
    pub open spec fn popped(self, value: Option<bool>, after: Self) -> bool {
        if self@.len() == 0 {
            value == None::<bool> && after == self
        } else {
            &&& value == Some(self@.last())
            &&& after@ == self@.drop_last()
            &&& after.is_inline() == (self.is_inline() || self@.len() - 1 <= BITS_PER_WORD)
            &&& self.is_compact() ==> after.is_compact()
        }
    }

    /// What `set(index, value)` makes of `self` and hands back: within the length,
    /// the previous bit, replaced by `value`; beyond it, nothing, with `self` unchanged.
    pub open spec fn set_to(self, index: int, value: bool, previous: Option<bool>, after: Self) -> bool {
        if 0 <= index < self@.len() {
            &&& previous == Some(self@[index])
            &&& after@ == self@.update(index, value)
            &&& after.is_inline() == self.is_inline()
            &&& after.spec_capacity() == self.spec_capacity()
            &&& self.is_compact() ==> after.is_compact()
        } else {
            previous == None::<bool> && after == self
        }
    }

    /// What `extend(values)` makes of `self`: the bits with `values` appended.
    pub open spec fn extended(self, values: Seq<bool>, after: Self) -> bool {
        &&& after@ == self@ + values
        &&& after.is_inline() == (self.is_inline() && self@.len() + values.len() <= BITS_PER_WORD)
        &&& after.spec_capacity() == if self@.len() + values.len() <= self.spec_capacity() {
            self.spec_capacity() as int
        } else {
            words_for((self@.len() + values.len()) as int) * BITS_PER_WORD
        }
        &&& self.is_compact() ==> after.is_compact()
    }

    /// What `reserve(additional)` makes of `self`: the same bits, and the capacity
    /// unchanged when it holds `additional` more bits, else exactly the words
    /// those bits need.
    pub open spec fn reserved(self, additional: int, after: Self) -> bool {
        &&& after@ == self@
        &&& after.is_inline() == (self.is_inline() && self@.len() + additional <= BITS_PER_WORD)
        &&& after.spec_capacity() == if self@.len() + additional <= self.spec_capacity() {
            self.spec_capacity() as int
        } else {
            words_for(self@.len() + additional) * BITS_PER_WORD
        }
    }

    /// Whether `self` is the vector that `from_iter(bits)` builds: exactly those
    /// bits, compact, with no bit set beyond them.
    pub open spec fn built_from(self, bits: Seq<bool>) -> bool {
        &&& self@ == bits
        &&& self.is_inline() == (bits.len() <= BITS_PER_WORD)
        &&& self.is_compact()
        &&& self.is_clean()
    }

    /// Moves the contents out, leaving an empty vector behind.
    fn take(&mut self) -> (taken: Self)
        ensures
            taken == *old(self),
    {
        let mut taken = SmolBitVec::new();
        std::mem::swap(self, &mut taken);
        taken
    }

    /// Whether the vector holds no bits.
    pub fn is_empty(&self) -> (empty: bool)
        ensures
            empty == (self@.len() == 0),
    {
        self.len == 0
    }

    /// An empty vector, held inline.
    pub fn new() -> (v: Self)
        ensures
            v@ == Seq::<bool>::empty(),
            v.is_inline(),
            v.is_compact(),
            v.words() == seq![0usize],
    {
        Self::default()
    }

    /// Appends `value`, spilling to the heap when the inline word is full and
    /// growing the heap by one word when its words are full.
    pub fn push(&mut self, value: bool)
        requires
            old(self)@.len() < max_bits(),
        ensures
            old(self).pushed(value, *final(self)),
            final(self).words() == if old(self)@.len() < old(self).spec_capacity() {
                let index = old(self)@.len() as int;
                let q = index / (BITS_PER_WORD as int);
                old(self).words().update(q, with_bit(old(self).words()[q], index % (BITS_PER_WORD as int), value))
            } else {
                old(self).words().push(if value { 1usize } else { 0usize })
            },
    {
        proof { use_type_invariant(&*self); }
        let len = self.len();
        let next_len = len + 1;
        let taken = self.take();
        proof { use_type_invariant(&taken); }
        let SmolBitVec { len: _, mut bits } = taken;
        let ghost old_words = bits.words();

        match &mut bits {
            SmolBitVecBits::Inline(inline_bits) => {
                if is_inlineable_len(next_len) {
                    *inline_bits = assign_bit(*inline_bits, len, value);
                    proof {
                        lemma_position_of(0, len as int);
                        assert forall|j: int| 0 <= j <= len implies
                            bit_at(bits.words(), j) == old(self)@.push(value)[j] by {
                            lemma_position_below(j, 1);
                            lemma_bit_at_assign(old_words, len as int, bits.words()[0], j);
                        }
                    }
                } else {
                    // At spillover, len == BITS_PER_WORD, so the new bit (value)
                    // is always at offset 0 of the second block.
                    bits = SmolBitVecBits::Heap(into_boxed_words(vec![*inline_bits, if value { 1usize } else { 0usize }]));
                    proof {
                        lemma_position_of(1, 0);
                        lemma_small_words(0);
                        assert(bits.words() == old_words.push(bits.words()[1]));
                        assert forall|j: int| 0 <= j <= len implies
                            bit_at(bits.words(), j) == old(self)@.push(value)[j] by {
                            if j < len {
                                lemma_bit_at_push(old_words, bits.words()[1], j);
                            }
                        }
                        lemma_words_for_unique(next_len as int, 2);
                    }
                }
            }
            SmolBitVecBits::Heap(bits_chunks) => {
                let reserved_len = bits_chunks.len() * BITS_PER_WORD;
                let needs_new_chunk = next_len > reserved_len;

                if needs_new_chunk {
                    let mut chunks = vstd::slice::slice_to_vec(&**bits_chunks);
                    chunks.push(if value { 1usize } else { 0usize });
                    *bits_chunks = into_boxed_words(chunks);
                    proof {
                        lemma_position_of(old_words.len() as int, 0);
                        lemma_small_words(0);
                        assert forall|j: int| 0 <= j <= len implies
                            bit_at(bits.words(), j) == old(self)@.push(value)[j] by {
                            if j < len {
                                lemma_bit_at_push(old_words, bits.words().last(), j);
                            }
                        }
                        lemma_words_for_unique(next_len as int, old_words.len() + 1int);
                    }
                } else {
                    let chunk_offset = len % BITS_PER_WORD;
                    let chunk_index = len / BITS_PER_WORD;
                    bits_chunks[chunk_index] = assign_bit(bits_chunks[chunk_index], chunk_offset, value);
                    proof {
                        lemma_position(len as int);
                        assert forall|j: int| 0 <= j <= len implies
                            bit_at(bits.words(), j) == old(self)@.push(value)[j] by {
                            lemma_position_below(j, old_words.len() as int);
                            lemma_bit_at_assign(old_words, len as int, bits.words()[chunk_index as int], j);
                        }
                        if old(self).is_compact() {
                            lemma_words_for(len as int);
                            lemma_words_for_unique(next_len as int, old_words.len() as int);
                        }
                    }
                }
            }
        }

        *self = SmolBitVec { len: next_len, bits };
        assert(self@ =~= old(self)@.push(value));
    }

    /// The bit at `index`, or `None` at or beyond the length.
    pub fn get(&self, index: usize) -> (value: Option<bool>)
        ensures
            value == if index < self@.len() { Some(self@[index as int]) } else { None::<bool> },
    {
        proof { use_type_invariant(self); }
        if index >= self.len() {
            return None;
        }

        match &self.bits {
            SmolBitVecBits::Inline(bits) => {
                let mask = 1usize << index;
                proof {
                    lemma_position_of(0, index as int);
                    lemma_mask_test(*bits, index);
                }

                Some(*bits & mask != 0)
            }
            SmolBitVecBits::Heap(items) => {
                let item_index = index / BITS_PER_WORD;
                let item_offset = index % BITS_PER_WORD;
                proof {
                    lemma_position(index as int);
                    lemma_position_below(index as int, items@.len() as int);
                }

                let item_container = items[item_index];

                let mask = 1usize << item_offset;
                proof { lemma_mask_test(item_container, item_offset); }

                Some(item_container & mask != 0)
            }
        }
    }

    /// Makes the bit at `index` equal to `value` and hands back its previous value,
    /// or changes nothing and hands back `None` at or beyond the length.
    pub fn set(&mut self, index: usize, value: bool) -> (previous: Option<bool>)
        ensures
            old(self).set_to(index as int, value, previous, *final(self)),
            index < old(self)@.len() ==> {
                let q = index as int / (BITS_PER_WORD as int);
                final(self).words() == old(self).words().update(
                    q,
                    with_bit(old(self).words()[q], index as int % (BITS_PER_WORD as int), value),
                )
            },
    {
        if index >= self.len() {
            return None;
        }

        let taken = self.take();
        proof { use_type_invariant(&taken); }
        let SmolBitVec { len, mut bits } = taken;
        let ghost old_words = bits.words();

        let old_value = match &mut bits {
            SmolBitVecBits::Inline(inline_bits) => {
                let mask = 1usize << index;
                let old_value = *inline_bits & mask != 0;
                proof {
                    lemma_mask_test(*inline_bits, index);
                    lemma_position_of(0, index as int);
                }

                // Turn the bit at index ON or OFF, leaving every other bit as it was
                *inline_bits = assign_bit(*inline_bits, index, value);
                proof {
                    assert forall|j: int| 0 <= j < len implies
                        bit_at(bits.words(), j) == old(self)@.update(index as int, value)[j] by {
                        lemma_position_below(j, 1);
                        lemma_bit_at_assign(old_words, index as int, bits.words()[0], j);
                    }
                }

                old_value
            }
            SmolBitVecBits::Heap(items) => {
                let item_index = index / BITS_PER_WORD;
                let item_offset = index % BITS_PER_WORD;
                proof {
                    lemma_position(index as int);
                    lemma_position_below(index as int, items@.len() as int);
                }

                let item_container = items[item_index];

                // Every bit in mask is shifted left by item_offset, so it's 1 at the bit we want to toggle
                let mask = 1usize << item_offset;

                let old_value = item_container & mask != 0;
                proof { lemma_mask_test(item_container, item_offset); }

                // Turn the bit ON or OFF, leaving every other bit as it was
                items[item_index] = assign_bit(item_container, item_offset, value);
                proof {
                    assert forall|j: int| 0 <= j < len implies
                        bit_at(bits.words(), j) == old(self)@.update(index as int, value)[j] by {
                        lemma_position_below(j, old_words.len() as int);
                        lemma_bit_at_assign(old_words, index as int, bits.words()[item_index as int], j);
                    }
                }

                old_value
            }
        };

        *self = SmolBitVec { len, bits };
        assert(self@ =~= old(self)@.update(index as int, value));

        Some(old_value)
    }

    /// Reserves capacity for at least `additional` more bits.
    ///
    /// The length plus `additional` must stay within `max_bits()`, the most bits
    /// whose storage a `usize` can count.
    pub fn reserve(&mut self, additional: usize)
        requires
            old(self)@.len() + additional <= max_bits(),
        ensures
            old(self).reserved(additional as int, *final(self)),
            final(self).words().len() == if final(self).is_inline() {
                1int
            } else if old(self).words().len() >= words_for(old(self)@.len() + additional) {
                old(self).words().len() as int
            } else {
                words_for(old(self)@.len() + additional)
            },
            final(self).words().subrange(0, old(self).words().len() as int) == old(self).words(),
            forall|k: int| old(self).words().len() <= k < final(self).words().len()
                ==> final(self).words()[k] == 0usize,
            final(self).spec_capacity() >= old(self)@.len() + additional,
            final(self).spec_capacity() >= old(self).spec_capacity(),
    {
        proof { use_type_invariant(&*self); }
        // The precondition rules out an overflow of `len + additional`.
        let next_len = self.len + additional;

        let taken = self.take();
        proof {
            use_type_invariant(&taken);
            lemma_words_for(next_len as int);
        }
        let SmolBitVec { len, bits } = taken;
        let ghost old_words = bits.words();

        let bits = match bits {
            SmolBitVecBits::Inline(inline_bits) => {
                if is_inlineable_len(next_len) {
                    SmolBitVecBits::Inline(inline_bits)
                } else {
                    let next_bits_array_len = div_ceil(next_len, BITS_PER_WORD);
                    let mut bits_vec = Vec::with_capacity(next_bits_array_len);

                    bits_vec.push(inline_bits);
                    bits_vec.resize(next_bits_array_len, 0);

                    SmolBitVecBits::Heap(into_boxed_words(bits_vec))
                }
            }
            SmolBitVecBits::Heap(items) => {
                let next_bits_array_len = div_ceil(next_len, BITS_PER_WORD);

                if items.len() >= next_bits_array_len {
                    SmolBitVecBits::Heap(items)
                } else {
                    let mut bits_vec = items.into_vec();
                    bits_vec.resize(next_bits_array_len, 0);
                    SmolBitVecBits::Heap(into_boxed_words(bits_vec))
                }
            }
        };

        proof {
            assert(bits.words().subrange(0, old_words.len() as int) == old_words);
            assert forall|j: int| 0 <= j < len implies bit_at(bits.words(), j) == bit_at(old_words, j) by {
                lemma_bit_at_prefix(bits.words(), old_words.len() as int, j);
            }
        }
        *self = SmolBitVec { len, bits };
        assert(self@ =~= old(self)@);
    }

    /// The storage behind the vector.
    pub fn bits(&self) -> (bits: &SmolBitVecBits)
        ensures
            *bits == self.storage(),
    {
        &self.bits
    }

    /// The vector of the first `len` bits of `bits`, if `len` bits fit in that storage
    /// and its bit count fits in a `usize`.
    ///
    /// The words may hold bits at or beyond `len`; they carry no meaning.
    pub fn from_raw_parts(len: usize, bits: SmolBitVecBits) -> (v: Option<Self>)
        ensures
            v is Some <==> match bits {
                SmolBitVecBits::Inline(_) => len <= BITS_PER_WORD,
                SmolBitVecBits::Heap(chunks) => {
                    &&& 1 <= chunks@.len()
                    &&& chunks@.len() * BITS_PER_WORD <= usize::MAX
                    &&& len <= chunks@.len() * BITS_PER_WORD
                },
            },
            v matches Some(v) ==> {
                &&& v@ == bits_of(bits.words(), len as nat)
                &&& v.words() == bits.words()
                &&& v.is_inline() == (bits is Inline)
            },
    {
        let fits = match &bits {
            SmolBitVecBits::Inline(_) => len <= BITS_PER_WORD,
            SmolBitVecBits::Heap(chunks) => {
                let n = chunks.len();
                if n == 0 || n > usize::MAX / BITS_PER_WORD {
                    proof {
                        let w = BITS_PER_WORD as int;
                        if n > 0 {
                            assert(n * w > usize::MAX) by (nonlinear_arith)
                                requires n > (usize::MAX as int) / w, w > 0;
                        }
                    }
                    false
                } else {
                    proof {
                        let w = BITS_PER_WORD as int;
                        assert(n * w <= usize::MAX) by (nonlinear_arith)
                            requires n <= (usize::MAX as int) / w, w > 0;
                    }
                    len <= n * BITS_PER_WORD
                }
            }
        };
        if fits {
            Some(SmolBitVec { len, bits })
        } else {
            None
        }
    }

    /// The vector that holds `bits`, in order.
    pub fn from_iter(bits: &[bool]) -> (v: Self)
        requires
            bits@.len() <= max_bits(),
        ensures
            v.built_from(bits@),
    {
        let expected_bits_chunks = div_ceil(bits.len(), BITS_PER_WORD);
        let mut bits_chunks: Vec<usize> = Vec::with_capacity(expected_bits_chunks);

        let mut current_bits_chunk = 0usize;
        let mut bit_offset: usize = 0;
        let mut total_len: usize = 0;

        proof {
            assert forall|o: int| 0 <= o < BITS_PER_WORD implies !word_bit(0usize, o) by {
                lemma_small_words(o as usize);
            }
        }
        let mut i: usize = 0;
        while i < bits.len()
            invariant
                total_len == i <= bits@.len() <= max_bits(),
                bit_offset <= BITS_PER_WORD,
                total_len == bits_chunks@.len() * BITS_PER_WORD + bit_offset,
                total_len > 0 ==> bit_offset > 0,
                forall|o: int| bit_offset <= o < BITS_PER_WORD ==> !word_bit(current_bits_chunk, o),
                forall|j: int| 0 <= j < total_len ==> bit_at(bits_chunks@.push(current_bits_chunk), j) == bits@[j],
            decreases bits@.len() - i,
        {
            let bit = bits[i];
            if bit_offset == BITS_PER_WORD {
                proof {
                    let n = bits_chunks@.len() as int;
                    assert((n + 1) * BITS_PER_WORD == n * BITS_PER_WORD + BITS_PER_WORD) by (nonlinear_arith);
                    assert forall|j: int| 0 <= j < total_len implies
                        bit_at(bits_chunks@.push(current_bits_chunk).push(0usize), j) == bits@[j] by {
                        lemma_bit_at_push(bits_chunks@.push(current_bits_chunk), 0usize, j);
                    }
                }
                bits_chunks.push(current_bits_chunk);
                current_bits_chunk = 0;
                bit_offset = 0;
                proof {
                    assert forall|o: int| 0 <= o < BITS_PER_WORD implies !word_bit(0usize, o) by {
                        lemma_small_words(o as usize);
                    }
                }
            }

            let ghost chunks = bits_chunks@;
            let ghost before = current_bits_chunk;
            if bit {
                current_bits_chunk |= 1 << bit_offset;
            }
            proof {
                assert forall|o: int| 0 <= o < BITS_PER_WORD implies
                    word_bit(current_bits_chunk, o) == if o == bit_offset { bit } else { word_bit(before, o) } by {
                    if bit {
                        lemma_set_bit(before, bit_offset, o as usize);
                    }
                }
                lemma_position_of(chunks.len() as int, bit_offset as int);
                assert(chunks.push(current_bits_chunk) == chunks.push(before).update(chunks.len() as int, current_bits_chunk));
                assert forall|j: int| 0 <= j <= total_len implies
                    bit_at(chunks.push(current_bits_chunk), j) == bits@[j] by {
                    lemma_position_below(j, chunks.len() + 1int);
                    lemma_bit_at_assign(chunks.push(before), total_len as int, current_bits_chunk, j);
                }
            }

            bit_offset += 1;
            total_len += 1;
            i += 1;
        }

        proof {
            let chunks = bits_chunks@;
            assert forall|j: int| total_len <= j < (chunks.len() + 1) * BITS_PER_WORD implies
                !bit_at(chunks.push(current_bits_chunk), j) by {
                let n = chunks.len() as int;
                assert((n + 1) * BITS_PER_WORD == n * BITS_PER_WORD + BITS_PER_WORD) by (nonlinear_arith);
                lemma_bit_at_word(chunks.push(current_bits_chunk), n, j - n * BITS_PER_WORD);
            }
        }
        let mut smol_bit_vec = Self::new();

        if total_len <= BITS_PER_WORD {
            proof {
                if bits_chunks@.len() > 0 {
                    assert(bits_chunks@.len() * BITS_PER_WORD >= BITS_PER_WORD) by (nonlinear_arith)
                        requires bits_chunks@.len() >= 1;
                }
                assert(bits_chunks@.push(current_bits_chunk) == seq![current_bits_chunk]);
            }
            smol_bit_vec = SmolBitVec { len: total_len, bits: SmolBitVecBits::Inline(current_bits_chunk) };
        } else {
            if bit_offset != 0 {
                bits_chunks.push(current_bits_chunk);
            }
            proof {
                assert(bits_chunks@.len() * BITS_PER_WORD == total_len - bit_offset + BITS_PER_WORD) by (nonlinear_arith)
                    requires bits_chunks@.len() * BITS_PER_WORD == (bits_chunks@.len() - 1) * BITS_PER_WORD + BITS_PER_WORD,
                        (bits_chunks@.len() - 1) * BITS_PER_WORD + bit_offset == total_len;
                lemma_words_for_unique(total_len as int, bits_chunks@.len() as int);
            }
            smol_bit_vec = SmolBitVec { len: total_len, bits: SmolBitVecBits::Heap(into_boxed_words(bits_chunks)) };
        }

        assert(smol_bit_vec@ =~= bits@);
        smol_bit_vec
    }

    /// Appends `values`, in order.
    pub fn extend(&mut self, values: &[bool])
        requires
            old(self)@.len() + values@.len() <= max_bits(),
        ensures
            old(self).extended(values@, *final(self)),
            final(self).words().len() == if final(self).is_inline() {
                1int
            } else {
                grown_words(old(self).words().len() as int, (old(self)@.len() + values@.len()) as int)
            },
            forall|j: int| old(self)@.len() + values@.len() <= j < final(self).spec_capacity() ==>
                #[trigger] bit_at(final(self).words(), j) == (j < old(self).spec_capacity() && bit_at(old(self).words(), j)),
    {
        proof { use_type_invariant(&*self); }
        let taken = self.take();
        proof { use_type_invariant(&taken); }
        let SmolBitVec { mut len, bits } = taken;
        let ghost target = old(self)@ + values@;
        let ghost was_compact = old(self).is_compact();
        let ghost old_words = old(self).words();
        let ghost old_cap = old(self).spec_capacity() as int;
        let ghost total = old(self)@.len() + values@.len();
        let mut i: usize = 0;

        let bits = match bits {
            SmolBitVecBits::Inline(mut inline_bits) => {
                while i < values.len() && len < BITS_PER_WORD
                    invariant
                        target == old(self)@ + values@,
                        old_words == seq![old_words[0]],
                        len == old(self)@.len() + i,
                        i <= values@.len(),
                        len <= BITS_PER_WORD,
                        forall|j: int| 0 <= j < len ==> bit_at(seq![inline_bits], j) == target[j],
                        forall|o: int| len <= o < BITS_PER_WORD ==> word_bit(inline_bits, o) == word_bit(old_words[0], o),
                    decreases values@.len() - i,
                {
                    let bit_offset = len % BITS_PER_WORD;
                    let ghost before = inline_bits;
                    proof { lemma_position_of(0, len as int); }
                    inline_bits = assign_bit(inline_bits, bit_offset, values[i]);
                    proof {
                        assert(target[len as int] == values@[i as int]);
                        assert(seq![inline_bits] == seq![before].update(0, inline_bits));
                        assert forall|j: int| 0 <= j <= len implies bit_at(seq![inline_bits], j) == target[j] by {
                            lemma_position_below(j, 1);
                            lemma_bit_at_assign(seq![before], len as int, inline_bits, j);
                        }
                    }

                    len += 1;
                    i += 1;
                }
                if i < values.len() {
                    // At spillover, len == BITS_PER_WORD, so the next value is bit 0 of the second block.
                    let chunks = into_boxed_words(vec![inline_bits, if values[i] { 1 } else { 0 }]);
                    proof {
                        assert(target[len as int] == values@[i as int]);
                        lemma_position_of(1, 0);
                        lemma_small_words(0);
                        assert forall|j: int| 0 <= j <= len implies bit_at(chunks@, j) == target[j] by {
                            if j < len {
                                lemma_bit_at_push(seq![inline_bits], chunks@[1], j);
                                assert(chunks@ == seq![inline_bits].push(chunks@[1]));
                            }
                        }
                        lemma_words_for_unique(len + 1, 2);
                        assert((1int + 1) * BITS_PER_WORD == BITS_PER_WORD + BITS_PER_WORD);
                        assert forall|j: int| len + 1 <= j < 2 * BITS_PER_WORD implies !bit_at(chunks@, j) by {
                            lemma_bit_at_word(chunks@, 1, j - BITS_PER_WORD);
                            lemma_small_words((j - BITS_PER_WORD) as usize);
                        }
                    }

                    len += 1;
                    i += 1;
                    SmolBitVecBits::Heap(chunks)
                } else {
                    proof {
                        assert forall|j: int| len <= j < BITS_PER_WORD implies
                            bit_at(seq![inline_bits], j) == bit_at(old_words, j) by {
                            lemma_position_of(0, j);
                        }
                    }
                    SmolBitVecBits::Inline(inline_bits)
                }
            }
            other => other,
        };

        proof {
            if bits is Heap {
                lemma_words_for_le(len as int, old_words.len() as int);
            }
        }

        let bits = match bits {
            SmolBitVecBits::Heap(bits_chunk) => {
                let mut bits_chunks_vec = bits_chunk.into_vec();

                while i < values.len()
                    invariant
                        target == old(self)@ + values@,
                        was_compact == old(self).is_compact(),
                        old_words == old(self).words(),
                        old_cap == old_words.len() * BITS_PER_WORD,
                        len == old(self)@.len() + i,
                        i <= values@.len(),
                        old(self)@.len() + values@.len() <= max_bits(),
                        1 <= bits_chunks_vec@.len(),
                        len <= bits_chunks_vec@.len() * BITS_PER_WORD,
                        bits_chunks_vec@.len() * BITS_PER_WORD <= usize::MAX,
                        forall|j: int| 0 <= j < len ==> bit_at(bits_chunks_vec@, j) == target[j],
                        was_compact ==> len > BITS_PER_WORD && bits_chunks_vec@.len() == words_for(len as int),
                        bits_chunks_vec@.len() == grown_words(old_words.len() as int, len as int),
                        forall|j: int| len <= j < bits_chunks_vec@.len() * BITS_PER_WORD ==>
                            #[trigger] bit_at(bits_chunks_vec@, j) == (j < old_cap && bit_at(old_words, j)),
                    decreases values@.len() - i,
                {
                    let item = values[i];
                    let chunk_index = len / BITS_PER_WORD;
                    let bit_offset = len % BITS_PER_WORD;
                    let ghost before = bits_chunks_vec@;
                    proof {
                        lemma_position(len as int);
                        assert(target[len as int] == item);
                        lemma_words_for_le(len as int, old_words.len() as int);
                        lemma_words_for_le(len + 1, old_words.len() as int);
                        lemma_words_for_le(len + 1, before.len() as int);
                        lemma_words_for(len as int);
                    }

                    if bit_offset == 0 && chunk_index == bits_chunks_vec.len() {
                        bits_chunks_vec.push(if item { 1 } else { 0 });
                        proof {
                            let n = before.len() as int;
                            assert((n + 1) * BITS_PER_WORD == n * BITS_PER_WORD + BITS_PER_WORD) by (nonlinear_arith);
                            lemma_position_of(n, 0);
                            lemma_small_words(0);
                            assert forall|j: int| 0 <= j <= len implies bit_at(bits_chunks_vec@, j) == target[j] by {
                                if j < len {
                                    lemma_bit_at_push(before, bits_chunks_vec@.last(), j);
                                }
                            }
                            lemma_words_for_unique(len + 1, n + 1);
                            assert(old_words.len() <= n) by (nonlinear_arith)
                                requires
                                    n == grown_words(old_words.len() as int, len as int),
                                    old_words.len() >= words_for(len as int) ==> n == old_words.len(),
                                    old_words.len() < words_for(len as int) ==> n == words_for(len as int);
                            assert(old_cap <= len) by (nonlinear_arith)
                                requires old_cap == old_words.len() * BITS_PER_WORD, len == n * BITS_PER_WORD,
                                    old_words.len() <= n;
                            assert forall|j: int| len + 1 <= j < (n + 1) * BITS_PER_WORD implies !bit_at(bits_chunks_vec@, j) by {
                                lemma_bit_at_word(bits_chunks_vec@, n, j - n * BITS_PER_WORD);
                                lemma_small_words((j - n * BITS_PER_WORD) as usize);
                            }
                        }
                    } else {
                        proof {
                            if len == before.len() * BITS_PER_WORD {
                                lemma_position_of(before.len() as int, 0);
                            }
                            lemma_position_below(len as int, before.len() as int);
                        }
                        let word = assign_bit(bits_chunks_vec[chunk_index], bit_offset, item);
                        bits_chunks_vec.set(chunk_index, word);
                        proof {
                            assert forall|j: int| 0 <= j <= len implies bit_at(bits_chunks_vec@, j) == target[j] by {
                                lemma_position_below(j, before.len() as int);
                                lemma_bit_at_assign(before, len as int, word, j);
                            }
                            assert(bits_chunks_vec@.len() == before.len());
                            assert forall|j: int| len + 1 <= j < before.len() * BITS_PER_WORD implies
                                #[trigger] bit_at(bits_chunks_vec@, j) == (j < old_cap && bit_at(old_words, j)) by {
                                lemma_position_below(j, before.len() as int);
                                lemma_bit_at_assign(before, len as int, word, j);
                            }
                            if was_compact {
                                lemma_words_for_unique(len + 1, before.len() as int);
                            }
                            if old_words.len() < words_for(len as int) {
                                lemma_words_for_unique(len + 1, before.len() as int);
                            }
                        }
                    }

                    len += 1;
                    i += 1;
                }

                SmolBitVecBits::Heap(into_boxed_words(bits_chunks_vec))
            }
            other => other,
        };

        proof {
            lemma_words_for_le(total as int, old_words.len() as int);
        }
        *self = SmolBitVec { len, bits };
        assert(self@ =~= old(self)@ + values@);
    }

    /// Number of bits held.
    pub fn len(&self) -> (len: usize)
        ensures
            len == self@.len(),
    {
        self.len
    }

    /// Number of bits the storage holds without growing.
    pub fn capacity(&self) -> (capacity: usize)
        ensures
            capacity == self.spec_capacity(),
            capacity >= self@.len(),
            capacity >= BITS_PER_WORD,
            capacity % BITS_PER_WORD == 0,
    {
        proof { use_type_invariant(self); }
        match &self.bits {
            SmolBitVecBits::Inline(_) => BITS_PER_WORD,
            SmolBitVecBits::Heap(items) => items.len() * BITS_PER_WORD,
        }
    }

    /// Removes and hands back the last bit, or `None` when empty. A heap vector
    /// whose bits fit in one word moves back inline, and a heap word that no
    /// longer holds any bit is released.
    pub fn pop(&mut self) -> (value: Option<bool>)
        ensures
            old(self).popped(value, *final(self)),
            old(self)@.len() > 0 ==> {
                let last_index = old(self)@.len() - 1;
                let item_index = last_index / (BITS_PER_WORD as int);
                let item_offset = last_index % (BITS_PER_WORD as int);
                final(self).words() == if old(self).is_inline() {
                    seq![with_bit(old(self).words()[0], last_index, false)]
                } else if last_index <= BITS_PER_WORD {
                    seq![old(self).words()[0]]
                } else if item_offset == 0 && item_index == old(self).words().len() - 1 {
                    old(self).words().drop_last()
                } else {
                    old(self).words().update(item_index, with_bit(old(self).words()[item_index], item_offset, false))
                }
            },
    {
        proof { use_type_invariant(&*self); }
        if self.is_empty() {
            return None;
        }

        let last_index = self.len() - 1;
        let next_len = self.len - 1;

        let taken = self.take();
        proof { use_type_invariant(&taken); }
        let SmolBitVec { len, bits } = taken;
        let ghost old_words = bits.words();

        let (value, bits) = match bits {
            SmolBitVecBits::Inline(mut bits) => {
                let mask = 1usize << last_index;
                let value = bits & (mask) != 0;
                proof {
                    lemma_mask_test(bits, last_index);
                    lemma_position_of(0, last_index as int);
                }

                bits &= !mask;
                proof {
                    assert forall|j: int| 0 <= j < next_len implies
                        bit_at(seq![bits], j) == bit_at(old_words, j) by {
                        lemma_position_below(j, 1);
                        lemma_position_of(0, j);
                        lemma_clear_bit(old_words[0], last_index, j as usize);
                    }
                }

                (value, SmolBitVecBits::Inline(bits))
            }
            SmolBitVecBits::Heap(mut items) => {
                let item_index = last_index / BITS_PER_WORD;
                let item_offset = last_index % BITS_PER_WORD;
                proof {
                    lemma_position(last_index as int);
                    lemma_position_below(last_index as int, items@.len() as int);
                    lemma_mask_test(items@[item_index as int], item_offset);
                }

                let value = items[item_index] & (1usize << item_offset) != 0;

                if is_inlineable_len(next_len) {
                    // Transition back to Inline. The bits of items[0] at or beyond
                    // the new length carry no meaning, so the word moves as it is.
                    proof {
                        assert forall|j: int| 0 <= j < next_len implies
                            bit_at(seq![items@[0]], j) == bit_at(old_words, j) by {
                            lemma_position_of(0, j);
                        }
                    }
                    (value, SmolBitVecBits::Inline(items[0]))
                } else {
                    let bits_chunk_size = items.len();

                    if item_offset == 0 && item_index == bits_chunk_size - 1 {
                        let mut chunks = items.into_vec();
                        chunks.truncate(bits_chunk_size - 1);
                        let chunks = into_boxed_words(chunks);
                        proof {
                            assert(chunks@ == old_words.subrange(0, old_words.len() - 1));
                            assert forall|j: int| 0 <= j < next_len implies
                                bit_at(chunks@, j) == bit_at(old_words, j) by {
                                lemma_bit_at_prefix(old_words, old_words.len() - 1, j);
                            }
                            if old(self).is_compact() {
                                lemma_words_for_unique(next_len as int, old_words.len() - 1);
                            }
                        }
                        (value, SmolBitVecBits::Heap(chunks))
                    } else {
                        let mask = 1usize << item_offset;
                        items[item_index] = items[item_index] & !mask;
                        proof {
                            assert forall|j: int| 0 <= j < next_len implies
                                bit_at(items@, j) == bit_at(old_words, j) by {
                                assert forall|o: int| 0 <= o < BITS_PER_WORD && o != item_offset implies
                                    word_bit(items@[item_index as int], o) == word_bit(old_words[item_index as int], o) by {
                                    lemma_clear_bit(old_words[item_index as int], item_offset, o as usize);
                                }
                                lemma_position_below(j, old_words.len() as int);
                                lemma_bit_at_assign(old_words, last_index as int, items@[item_index as int], j);
                            }
                            if old(self).is_compact() {
                                lemma_words_for(len as int);
                                lemma_position_above(last_index as int, (old_words.len() - 1) as int);
                                lemma_words_for_unique(next_len as int, old_words.len() as int);
                            }
                        }
                        (value, SmolBitVecBits::Heap(items))
                    }
                }
            }
        };

        assert(forall|j: int| 0 <= j < next_len ==> bit_at(bits.words(), j) == bit_at(old_words, j));
        *self = SmolBitVec { len: next_len, bits };
        assert(self@ =~= old(self)@.drop_last());

        Some(value)
    }

    /// Removes every bit, going back to an empty inline word.
    pub fn clear(&mut self)
        ensures
            final(self)@ == Seq::<bool>::empty(),
            final(self).is_inline(),
            final(self).is_compact(),
            final(self).words() == seq![0usize],
    {
        *self = SmolBitVec { len: 0, bits: SmolBitVecBits::Inline(0) };
        assert(self@ =~= Seq::<bool>::empty());
    }

    /// The last bit, or `None` when empty.
    pub fn last(&self) -> (value: Option<bool>)
        ensures
            value == if self@.len() == 0 { None::<bool> } else { Some(self@.last()) },
    {
        proof { use_type_invariant(self); }
        if self.len == 0 {
            return None;
        }

        let index = self.len - 1;
        proof { lemma_position(index as int); }

        match &self.bits {
            SmolBitVecBits::Inline(inline) => {
                proof {
                    lemma_position_of(0, index as int);
                    lemma_mask_test(*inline, index % BITS_PER_WORD);
                }
                let value = (*inline >> (index % BITS_PER_WORD)) & 1 != 0;
                Some(value)
            }
            SmolBitVecBits::Heap(heap) => {
                proof {
                    lemma_position_below(index as int, heap@.len() as int);
                    lemma_mask_test(heap@[(index / BITS_PER_WORD) as int], index % BITS_PER_WORD);
                }
                let value = (heap[index / BITS_PER_WORD] >> (index % BITS_PER_WORD)) & 1 != 0;
                Some(value)
            }
        }
    }

    /// The first bit, or `None` when empty.
    pub fn first(&self) -> (value: Option<bool>)
        ensures
            value == if self@.len() == 0 { None::<bool> } else { Some(self@[0]) },
    {
        proof { use_type_invariant(self); }
        if self.len == 0 {
            return None;
        }

        let bits_block = match &self.bits {
            SmolBitVecBits::Inline(inline) => inline,
            SmolBitVecBits::Heap(bits) => &bits[0],
        };
        proof {
            lemma_position_of(0, 0);
            lemma_lowest_bit(*bits_block);
        }

        Some(*bits_block & 1 != 0)
    }
}

impl PartialEq for SmolBitVec {
    fn eq(&self, other: &Self) -> (equal: bool) {
        proof {
            use_type_invariant(self);
            use_type_invariant(other);
        }
        if self.len() != other.len() {
            return false;
        }

        let a_used_bits = self.bits.as_slice();
        let b_used_bits = other.bits.as_slice();

        let full_chunks = self.len() / BITS_PER_WORD;
        let ghost len = self@.len() as int;
        let ghost w = BITS_PER_WORD as int;
        proof {
            lemma_position(len);
            assert(full_chunks <= a_used_bits@.len()) by (nonlinear_arith)
                requires full_chunks * w <= len, len <= a_used_bits@.len() * w, w > 0;
            assert(full_chunks <= b_used_bits@.len()) by (nonlinear_arith)
                requires full_chunks * w <= len, len <= b_used_bits@.len() * w, w > 0;
        }

        // Compare the words that only hold bits below the length.
        let mut chunk: usize = 0;
        while chunk < full_chunks
            invariant
                chunk <= full_chunks,
                full_chunks <= a_used_bits@.len(),
                full_chunks <= b_used_bits@.len(),
                full_chunks * w <= len,
                w == BITS_PER_WORD,
                len == self@.len(),
                len == other@.len(),
                a_used_bits@ == self.words(),
                b_used_bits@ == other.words(),
                forall|j: int| 0 <= j < chunk * w ==> self@[j] == other@[j],
            decreases full_chunks - chunk,
        {
            let a_word = a_used_bits[chunk];
            let b_word = b_used_bits[chunk];
            proof {
                assert((chunk + 1) * w == chunk * w + w) by (nonlinear_arith);
                assert((chunk + 1) * w <= full_chunks * w) by (nonlinear_arith)
                    requires chunk + 1 <= full_chunks, w > 0;
            }
            if a_word != b_word {
                proof {
                    lemma_low_mask_eq(a_word, b_word, BITS_PER_WORD);
                    assert(a_word & !0usize == a_word && b_word & !0usize == b_word) by (bit_vector);
                    let o = choose|o: int| 0 <= o < BITS_PER_WORD && word_bit(a_word, o) != word_bit(b_word, o);
                    lemma_bit_at_word(self.words(), chunk as int, o);
                    lemma_bit_at_word(other.words(), chunk as int, o);
                    assert(self@[chunk * w + o] != other@[chunk * w + o]);
                }
                return false;
            }
            proof {
                assert forall|j: int| 0 <= j < (chunk + 1) * w implies self@[j] == other@[j] by {
                    if j >= chunk * w {
                        lemma_bit_at_word(self.words(), chunk as int, j - chunk * w);
                        lemma_bit_at_word(other.words(), chunk as int, j - chunk * w);
                    }
                }
            }
            chunk += 1;
        }

        // Compare the bits below the length in the last, partly used word.
        let remainder = self.len() % BITS_PER_WORD;
        if remainder > 0 {
            proof {
                lemma_one_shl_positive(remainder);
                lemma_position_of(full_chunks as int, 0);
                lemma_position_below(full_chunks * w, a_used_bits@.len() as int);
                lemma_position_below(full_chunks * w, b_used_bits@.len() as int);
            }
            let mask = (1usize << remainder) - 1;
            let a_word = a_used_bits[full_chunks];
            let b_word = b_used_bits[full_chunks];
            proof { lemma_low_mask_eq(a_word, b_word, remainder); }

            if a_word & mask != b_word & mask {
                proof {
                    let o = choose|o: int| 0 <= o < remainder && word_bit(a_word, o) != word_bit(b_word, o);
                    lemma_bit_at_word(self.words(), full_chunks as int, o);
                    lemma_bit_at_word(other.words(), full_chunks as int, o);
                    assert(self@[full_chunks * w + o] != other@[full_chunks * w + o]);
                }
                return false;
            }
            proof {
                assert forall|j: int| full_chunks * w <= j < len implies self@[j] == other@[j] by {
                    lemma_bit_at_word(self.words(), full_chunks as int, j - full_chunks * w);
                    lemma_bit_at_word(other.words(), full_chunks as int, j - full_chunks * w);
                }
            }
        }

        assert(self@ =~= other@);
        true
    }
}

impl Eq for SmolBitVec {}

impl PartialEqSpecImpl for SmolBitVec {
    open spec fn obeys_eq_spec() -> bool {
        true
    }

    open spec fn eq_spec(&self, other: &SmolBitVec) -> bool {
        self@ == other@
    }
}

impl Clone for SmolBitVec {
    fn clone(&self) -> (copy: Self)
        ensures
            copy@ == self@,
            copy.words() == self.words(),
            copy.is_inline() == self.is_inline(),
    {
        proof { use_type_invariant(self); }
        SmolBitVec { len: self.len, bits: self.bits.clone() }
    }
}

impl Default for SmolBitVec {
    fn default() -> (v: Self)
        ensures
            v@ == Seq::<bool>::empty(),
            v.is_inline(),
            v.words() == seq![0usize],
    {
        let v = Self { len: 0, bits: SmolBitVecBits::Inline(0) };
        assert(v@ =~= Seq::<bool>::empty());
        v
    }
}

impl View for SmolBitVec {
    type V = Seq<bool>;

    open spec fn view(&self) -> Seq<bool> {
        bits_of(self.words(), self.spec_len())
    }
}

} // verus!
