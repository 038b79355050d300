# SmolBitVec, verified

A bit-packed vector of booleans with small-vector optimization: up to one
machine word of bits is held inline, beyond that the bits spill to a boxed
slice of words. Every operation is verified with Verus against a view of the
vector as a sequence of booleans.

Layout of `src/`:

- `word.rs`: bits inside a word, the mapping from a bit position to a word and
  an offset, and the bit-vector lemmas behind them.
- `storage.rs`: `SmolBitVecBits`, the inline word or the heap words.
- `smol_bit_vec.rs`: `SmolBitVec`, its invariant and its operations
  (`push`, `pop`, `get`, `set`, `reserve`, `extend`, equality, ...).
- `iter.rs`: `SmolBitVecIter`, walking the bits in order.
- `format.rs`: the bracketed-list text of a vector.
- `laws.rs`: properties that relate the operations to one another.

Bits stored at or beyond the length carry no meaning: equality masks them, and
writes set or clear a bit rather than only or-ing it in.
