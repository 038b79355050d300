//! Bits inside a single machine word, and the mapping from a bit position
//! to a word index and an offset inside that word.

use vstd::prelude::*;
use vstd::arithmetic::div_mod::{
    lemma_fundamental_div_mod, lemma_fundamental_div_mod_converse, lemma_mod_pos_bound,
};

verus! {

/// Number of bits stored in one word of the backing storage.
pub const BITS_PER_WORD: usize = usize::BITS as usize;

/// Whether bit `offset` of `word` is one.
pub open spec fn word_bit(word: usize, offset: int) -> bool {
    0 <= offset < usize::BITS && (word >> (offset as usize)) & 1usize == 1usize
}

/// The word with only the bits below `count` kept (all of them when `count` is a whole word).
pub open spec fn low_mask(count: usize) -> usize {
    if count >= usize::BITS {
        !0usize
    } else {
        ((1usize << count) - 1usize) as usize
    }
}

/// Bit `i` of a run of words: bit `i % BITS_PER_WORD` of word `i / BITS_PER_WORD`.
pub open spec fn bit_at(words: Seq<usize>, i: int) -> bool {
    word_bit(words[i / (BITS_PER_WORD as int)], i % (BITS_PER_WORD as int))
}

/// The first `len` bits that a run of words holds.
pub open spec fn bits_of(words: Seq<usize>, len: nat) -> Seq<bool> {
    Seq::new(len, |i: int| bit_at(words, i))
}

/// Number of words needed to hold `n` bits.
pub open spec fn words_for(n: int) -> int {
    n / (BITS_PER_WORD as int) + if n % (BITS_PER_WORD as int) == 0 { 0int } else { 1int }
}

/// Number of words a storage of `count` words has after growing, if it must,
/// to hold `n` bits.
pub open spec fn grown_words(count: int, n: int) -> int {
    if count >= words_for(n) {
        count
    } else {
        words_for(n)
    }
}

/// The largest number of bits a vector can hold: its storage must stay
/// addressable by a `usize` count of bits.
pub open spec fn max_bits() -> int {
    usize::MAX - BITS_PER_WORD + 1
}

/// The word `word` with bit `offset` set to `value`: or-ed in with a one-bit
/// mask, or and-ed out with its complement.
pub open spec fn with_bit(word: usize, offset: int, value: bool) -> usize {
    if value {
        word | (1usize << (offset as usize))
    } else {
        word & !(1usize << (offset as usize))
    }
}

/// Whether the value of every bit of `word` other than `offset` is that of `base`.
pub open spec fn same_except(word: usize, base: usize, offset: int) -> bool {
    forall|o: int| 0 <= o < BITS_PER_WORD && o != offset ==> word_bit(word, o) == word_bit(base, o)
}

/// Whether `len <= BITS_PER_WORD`, that is, whether `len` bits fit in the inline word.
pub fn is_inlineable_len(len: usize) -> (r: bool)
    ensures
        r == (len <= BITS_PER_WORD),
{
    len <= BITS_PER_WORD
}

/// `n` divided by `d`, rounded up.
pub fn div_ceil(n: usize, d: usize) -> (r: usize)
    requires
        d > 0,
    ensures
        r == n / d + if n % d == 0 { 0int } else { 1int },
{
    let q = n / d;
    if n % d == 0 {
        q
    } else {
        proof {
            assert(q <= n) by (nonlinear_arith)
                requires q == n / d, d > 0;
            if q == n {
                assert(n % d == 0) by (nonlinear_arith) requires q == n / d, q == n, d > 0;
            }
        }
        q + 1
    }
}

/// The word `word` with bit `offset` made equal to `value`.
pub fn assign_bit(word: usize, offset: usize, value: bool) -> (r: usize)
    requires
        offset < BITS_PER_WORD,
    ensures
        r == with_bit(word, offset as int, value),
        word_bit(r, offset as int) == value,
        same_except(r, word, offset as int),
{
    let mask = 1usize << offset;
    let r = if value { word | mask } else { word & !mask };
    proof {
        assert forall|o: int| 0 <= o < BITS_PER_WORD implies word_bit(r, o) == if o == offset { value } else { word_bit(word, o) } by {
            if value {
                lemma_set_bit(word, offset, o as usize);
            } else {
                lemma_clear_bit(word, offset, o as usize);
            }
        }
    }
    r
}

/// Testing one bit with a single-bit mask.
pub proof fn lemma_mask_test(word: usize, offset: usize)
    requires
        offset < usize::BITS,
    ensures
        (word & (1usize << offset) != 0usize) == word_bit(word, offset as int),
        ((word >> offset) & 1usize != 0usize) == word_bit(word, offset as int),
{
    assert((word & (1usize << offset) != 0usize) == ((word >> offset) & 1usize == 1usize)) by (bit_vector)
        requires offset < usize::BITS;
    assert(((word >> offset) & 1usize != 0usize) == ((word >> offset) & 1usize == 1usize)) by (bit_vector);
}

/// Setting one bit with `|` leaves every other bit as it was.
pub proof fn lemma_set_bit(word: usize, offset: usize, other: usize)
    requires
        offset < usize::BITS,
        other < usize::BITS,
    ensures
        word_bit(word | (1usize << offset), other as int) == (other == offset || word_bit(word, other as int)),
{
    assert(((word | (1usize << offset)) >> other) & 1usize == 1usize
        <==> (other == offset || (word >> other) & 1usize == 1usize)) by (bit_vector)
        requires offset < usize::BITS, other < usize::BITS;
}

/// Clearing one bit with `& !` leaves every other bit as it was.
pub proof fn lemma_clear_bit(word: usize, offset: usize, other: usize)
    requires
        offset < usize::BITS,
        other < usize::BITS,
    ensures
        word_bit(word & !(1usize << offset), other as int) == (other != offset && word_bit(word, other as int)),
{
    assert(((word & !(1usize << offset)) >> other) & 1usize == 1usize
        <==> (other != offset && (word >> other) & 1usize == 1usize)) by (bit_vector)
        requires offset < usize::BITS, other < usize::BITS;
}

/// The bits of the words zero and one.
pub proof fn lemma_small_words(other: usize)
    requires
        other < usize::BITS,
    ensures
        !word_bit(0usize, other as int),
        word_bit(1usize, other as int) == (other == 0),
{
    assert((0usize >> other) & 1usize != 1usize) by (bit_vector);
    assert(((1usize >> other) & 1usize == 1usize) == (other == 0usize)) by (bit_vector)
        requires other < usize::BITS;
}

/// The bits of a word under a low mask.
pub proof fn lemma_low_mask_bit(word: usize, count: usize, other: usize)
    requires
        count <= usize::BITS,
        other < usize::BITS,
    ensures
        word_bit(word & low_mask(count), other as int) == (other < count && word_bit(word, other as int)),
{
    if count >= usize::BITS {
        assert(((word & !0usize) >> other) & 1usize == (word >> other) & 1usize) by (bit_vector);
    } else {
        assert((((word & (((1usize << count) - 1usize) as usize)) >> other) & 1usize == 1usize)
            <==> (other < count && (word >> other) & 1usize == 1usize)) by (bit_vector)
            requires count < usize::BITS, other < usize::BITS;
    }
}

proof fn lemma_low_mask_step(a: usize, b: usize, count: usize)
    requires
        count < usize::BITS,
        a & low_mask(count) == b & low_mask(count),
        word_bit(a, count as int) == word_bit(b, count as int),
    ensures
        a & low_mask((count + 1) as usize) == b & low_mask((count + 1) as usize),
{
    let next = (count + 1) as usize;
    if next >= usize::BITS {
        assert(a & !0usize == b & !0usize) by (bit_vector)
            requires
                count < usize::BITS,
                count + 1 >= usize::BITS,
                a & (((1usize << count) - 1usize) as usize) == b & (((1usize << count) - 1usize) as usize),
                ((a >> count) & 1usize == 1usize) == ((b >> count) & 1usize == 1usize);
    } else {
        assert(a & (((1usize << next) - 1usize) as usize) == b & (((1usize << next) - 1usize) as usize)) by (bit_vector)
            requires
                count < usize::BITS,
                next == count + 1,
                next < usize::BITS,
                a & (((1usize << count) - 1usize) as usize) == b & (((1usize << count) - 1usize) as usize),
                ((a >> count) & 1usize == 1usize) == ((b >> count) & 1usize == 1usize);
    }
}

/// Two words agree under the low mask of `count` exactly when their bits below `count` agree.
pub proof fn lemma_low_mask_eq(a: usize, b: usize, count: usize)
    requires
        count <= usize::BITS,
    ensures
        (a & low_mask(count) == b & low_mask(count))
            <==> (forall|o: int| 0 <= o < count ==> word_bit(a, o) == word_bit(b, o)),
{
    if a & low_mask(count) == b & low_mask(count) {
        assert forall|o: int| 0 <= o < count implies word_bit(a, o) == word_bit(b, o) by {
            lemma_low_mask_bit(a, count, o as usize);
            lemma_low_mask_bit(b, count, o as usize);
        }
    }
    if forall|o: int| 0 <= o < count ==> word_bit(a, o) == word_bit(b, o) {
        lemma_low_mask_agree_upto(a, b, count);
    }
}

proof fn lemma_low_mask_agree_upto(a: usize, b: usize, k: usize)
    requires
        k <= usize::BITS,
        forall|o: int| 0 <= o < k ==> word_bit(a, o) == word_bit(b, o),
    ensures
        a & low_mask(k) == b & low_mask(k),
    decreases k,
{
    if k == 0 {
        assert(a & (((1usize << 0usize) - 1usize) as usize) == b & (((1usize << 0usize) - 1usize) as usize)) by (bit_vector);
    } else {
        let j = (k - 1) as usize;
        lemma_low_mask_agree_upto(a, b, j);
        lemma_low_mask_step(a, b, j);
    }
}

/// Splitting a bit position into a word index and an offset.
pub proof fn lemma_position(i: int)
    requires
        0 <= i,
    ensures
        i == (i / (BITS_PER_WORD as int)) * (BITS_PER_WORD as int) + i % (BITS_PER_WORD as int),
        0 <= i % (BITS_PER_WORD as int) < BITS_PER_WORD,
        0 <= i / (BITS_PER_WORD as int),
{
    let w = (BITS_PER_WORD as int);
    lemma_fundamental_div_mod(i, w);
    lemma_mod_pos_bound(i, w);
    assert(0 <= i / w) by (nonlinear_arith)
        requires i == w * (i / w) + i % w, 0 <= i % w < w, 0 < w, 0 <= i;
    assert(w * (i / w) == (i / w) * w) by (nonlinear_arith);
}

/// The word index and offset of position `q * BITS_PER_WORD + r`.
pub proof fn lemma_position_of(q: int, r: int)
    requires
        0 <= r < BITS_PER_WORD,
    ensures
        (q * (BITS_PER_WORD as int) + r) / (BITS_PER_WORD as int) == q,
        (q * (BITS_PER_WORD as int) + r) % (BITS_PER_WORD as int) == r,
{
    lemma_fundamental_div_mod_converse(q * (BITS_PER_WORD as int) + r, (BITS_PER_WORD as int), q, r);
}

/// A position below `q` words lies in one of those words.
pub proof fn lemma_position_below(i: int, q: int)
    requires
        0 <= i < q * BITS_PER_WORD,
    ensures
        i / (BITS_PER_WORD as int) < q,
{
    let w = (BITS_PER_WORD as int);
    lemma_position(i);
    assert(i / w < q) by (nonlinear_arith)
        requires i == (i / w) * w + i % w, 0 <= i % w, i < q * w, 0 < w;
}

/// A position at or above `q` words lies beyond those words.
pub proof fn lemma_position_above(i: int, q: int)
    requires
        0 <= q * BITS_PER_WORD <= i,
    ensures
        q <= i / (BITS_PER_WORD as int),
{
    let w = (BITS_PER_WORD as int);
    lemma_position(i);
    assert(q <= i / w) by (nonlinear_arith)
        requires i == (i / w) * w + i % w, i % w < w, q * w <= i, 0 < w;
}

/// `words_for(n)` words hold `n` bits and waste less than one word.
pub proof fn lemma_words_for(n: int)
    requires
        0 <= n,
    ensures
        0 <= words_for(n),
        n <= words_for(n) * BITS_PER_WORD,
        words_for(n) * BITS_PER_WORD < n + BITS_PER_WORD,
        n <= BITS_PER_WORD ==> words_for(n) <= 1,
        n > BITS_PER_WORD ==> words_for(n) >= 2,
{
    let w = (BITS_PER_WORD as int);
    lemma_position(n);
    let q = n / w;
    let r = n % w;
    if r == 0 {
        assert(words_for(n) * w == n);
    } else {
        assert(words_for(n) * w == q * w + w) by (nonlinear_arith)
            requires words_for(n) == q + 1;
    }
    if n <= w {
        if n == w {
            lemma_position_of(1, 0);
        } else {
            lemma_position_of(0, n);
        }
    }
    if n > w {
        lemma_position_above(n, 1);
    }
}

/// Bit `q * BITS_PER_WORD + o` is bit `o` of word `q`.
pub proof fn lemma_bit_at_word(words: Seq<usize>, q: int, o: int)
    requires
        0 <= o < BITS_PER_WORD,
    ensures
        bit_at(words, q * (BITS_PER_WORD as int) + o) == word_bit(words[q], o),
{
    lemma_position_of(q, o);
}

/// Bits held by the first words of a run do not depend on the words after them.
pub proof fn lemma_bit_at_prefix(words: Seq<usize>, prefix_len: int, i: int)
    requires
        0 <= i < prefix_len * BITS_PER_WORD,
        prefix_len <= words.len(),
    ensures
        bit_at(words.subrange(0, prefix_len), i) == bit_at(words, i),
{
    lemma_position_below(i, prefix_len);
    lemma_position(i);
}

/// Writing a word that differs from the old one at most at the offset of
/// position `i` changes no bit but bit `i`.
pub proof fn lemma_bit_at_assign(words: Seq<usize>, i: int, word: usize, j: int)
    requires
        0 <= i,
        0 <= j,
        i / (BITS_PER_WORD as int) < words.len(),
        j / (BITS_PER_WORD as int) < words.len(),
        same_except(word, words[i / (BITS_PER_WORD as int)], i % (BITS_PER_WORD as int)),
    ensures
        bit_at(words.update(i / (BITS_PER_WORD as int), word), j)
            == if j == i { word_bit(word, i % (BITS_PER_WORD as int)) } else { bit_at(words, j) },
{
    lemma_position(i);
    lemma_position(j);
}

/// Appending a word leaves the bits of the earlier words as they were.
pub proof fn lemma_bit_at_push(words: Seq<usize>, word: usize, j: int)
    requires
        0 <= j < words.len() * BITS_PER_WORD,
    ensures
        bit_at(words.push(word), j) == bit_at(words, j),
{
    lemma_position_below(j, words.len() as int);
    lemma_position(j);
}

/// The only word count that holds `n` bits and wastes less than one word is `words_for(n)`.
pub proof fn lemma_words_for_unique(n: int, k: int)
    requires
        0 <= n,
        n <= k * BITS_PER_WORD,
        k * BITS_PER_WORD < n + BITS_PER_WORD,
    ensures
        words_for(n) == k,
{
    let w = BITS_PER_WORD as int;
    lemma_words_for(n);
    let f = words_for(n);
    assert(k == f) by (nonlinear_arith)
        requires n <= k * w < n + w, n <= f * w < n + w, w > 0;
}

/// `n` bits fit in `k` words exactly when `words_for(n)` is at most `k`.
pub proof fn lemma_words_for_le(n: int, k: int)
    requires
        0 <= n,
        0 <= k,
    ensures
        (n <= k * BITS_PER_WORD) <==> (words_for(n) <= k),
{
    let w = BITS_PER_WORD as int;
    lemma_words_for(n);
    let f = words_for(n);
    if n <= k * w {
        assert(f <= k) by (nonlinear_arith)
            requires f * w < n + w, n <= k * w, w > 0;
    }
    if f <= k {
        assert(n <= k * w) by (nonlinear_arith)
            requires n <= f * w, f <= k, w > 0;
    }
}

/// The lowest bit of a word is bit zero.
pub proof fn lemma_lowest_bit(word: usize)
    ensures
        (word & 1usize != 0usize) == word_bit(word, 0),
{
    assert((word & 1usize != 0usize) == ((word >> 0usize) & 1usize == 1usize)) by (bit_vector);
}

/// A one-bit mask is nonzero, so one less than it does not underflow.
pub proof fn lemma_one_shl_positive(count: usize)
    requires
        count < usize::BITS,
    ensures
        (1usize << count) >= 1usize,
{
    assert((1usize << count) >= 1usize) by (bit_vector)
        requires count < usize::BITS;
}

} // verus!
