//! A bit-packed vector of booleans that keeps up to one machine word of
//! bits inline and spills to a boxed slice of words beyond that.

mod word;
mod storage;
mod smol_bit_vec;
mod iter;
mod format;
pub mod laws;

pub use word::{
    BITS_PER_WORD, word_bit, bit_at, bits_of, words_for, max_bits, low_mask, same_except,
    with_bit,
};
pub use storage::SmolBitVecBits;
pub use smol_bit_vec::SmolBitVec;
pub use iter::SmolBitVecIter;
pub use format::{bool_text, list_text, debug_text};
