use lib::{SmolBitVec, SmolBitVecBits, SmolBitVecIter, BITS_PER_WORD};
use std::mem::size_of;

fn collect(mut iter: SmolBitVecIter<'_>) -> Vec<bool> {
    let mut out = Vec::new();
    while let Some(bit) = iter.next() {
        out.push(bit);
    }
    out
}

fn with_dirty_inline(bv: &SmolBitVec, dirt: usize) -> SmolBitVec {
    match bv.bits() {
        SmolBitVecBits::Inline(bits) => {
            SmolBitVec::from_raw_parts(bv.len(), SmolBitVecBits::Inline(*bits | dirt)).unwrap()
        }
        SmolBitVecBits::Heap(_) => unreachable!(),
    }
}

fn with_dirty_block(bv: &SmolBitVec, block: usize, dirt: usize) -> SmolBitVec {
    match bv.bits() {
        SmolBitVecBits::Heap(items) => {
            let mut items = items.clone();
            items[block] |= dirt;
            SmolBitVec::from_raw_parts(bv.len(), SmolBitVecBits::Heap(items)).unwrap()
        }
        SmolBitVecBits::Inline(_) => unreachable!(),
    }
}

#[test]
fn test_new_and_empty() {
    let bv = SmolBitVec::new();
    assert!(bv.is_empty());
    assert_eq!(bv.len(), 0);
}

#[test]
fn test_push_pop_inline() {
    let mut bv = SmolBitVec::new();
    let limit = BITS_PER_WORD;

    for i in 0..limit {
        bv.push(i % 2 == 0);
        assert_eq!(bv.len(), i + 1);
    }

    for i in (0..limit).rev() {
        assert_eq!(bv.pop(), Some(i % 2 == 0));
        assert_eq!(bv.len(), i);
    }
    assert_eq!(bv.pop(), None);
}

#[test]
fn test_spillover_boundary() {
    let mut bv = SmolBitVec::new();
    let limit = BITS_PER_WORD;

    // Fill exactly up to limit (inline)
    for _ in 0..limit {
        bv.push(true);
    }
    assert_eq!(bv.len(), limit);

    // This should trigger spillover
    bv.push(false);
    assert_eq!(bv.len(), limit + 1);
    assert_eq!(bv.get(limit), Some(false));
    assert_eq!(bv.get(limit - 1), Some(true));

    // Pop back to inline
    assert_eq!(bv.pop(), Some(false));
    assert_eq!(bv.len(), limit);
}

#[test]
fn test_get_set_spilled() {
    let mut bv = SmolBitVec::new();
    let large_size = (usize::BITS * 3) as usize;

    for _i in 0..large_size {
        bv.push(false);
    }

    // Set bits across multiple blocks
    bv.set(0, true);
    bv.set(BITS_PER_WORD, true);
    bv.set(large_size - 1, true);

    assert_eq!(bv.get(0), Some(true));
    assert_eq!(bv.get(1), Some(false));
    assert_eq!(bv.get(BITS_PER_WORD), Some(true));
    assert_eq!(bv.get(BITS_PER_WORD + 1), Some(false));
    assert_eq!(bv.get(large_size - 1), Some(true));
    assert_eq!(bv.get(large_size), None);
}

#[test]
fn test_from_iterator_and_extend() {
    let bits = vec![true, false, true, true, false, false, true];
    let mut bv = SmolBitVec::from_iter(&bits);

    assert_eq!(bv.len(), bits.len());
    for (i, &b) in bits.iter().enumerate() {
        assert_eq!(bv.get(i), Some(b));
    }

    let extra = vec![false, true];
    bv.extend(&extra);
    assert_eq!(bv.len(), bits.len() + extra.len());
    assert_eq!(bv.get(bits.len()), Some(false));
}

#[test]
fn test_into_iterator() {
    let bits = vec![true, false, true];
    let bv = SmolBitVec::from_iter(&bits);

    // Test &SmolBitVec
    let mut count = 0;
    let mut iter = (&bv).into_iter();
    let mut i = 0;
    while let Some(b) = iter.next() {
        assert_eq!(b, bits[i]);
        count += 1;
        i += 1;
    }
    assert_eq!(count, 3);

    // Test SmolBitVec
    let collected: Vec<bool> = collect(bv.into_iter());
    assert_eq!(collected, bits);
}

#[test]
fn test_debug_format() {
    let mut bv = SmolBitVec::new();
    bv.push(true);
    bv.push(false);
    let debug_str = bv.to_debug_string();
    // Ensure it doesn't just show raw bits but looks like a list or similar
    assert!(debug_str.contains("true"));
    assert!(debug_str.contains("false"));
}

#[test]
fn test_default() {
    let bv = SmolBitVec::default();
    assert!(bv.is_empty());
}

#[test]
fn test_inline_specific_behavior() {
    let mut bv = SmolBitVec::new();
    // Test empty state
    assert_eq!(bv.get(0), None);
    assert_eq!(bv.pop(), None);
    // Verify out-of-bounds set fails safely
    assert_eq!(bv.set(0, true), None);

    // Test single bit
    bv.push(true);
    assert_eq!(bv.len(), 1);
    assert_eq!(bv.get(0), Some(true));
    assert_eq!(bv.get(1), None);

    // Test set and get within inline capacity
    assert_eq!(bv.set(0, false), Some(true));
    assert_eq!(bv.get(0), Some(false));

    // Test pop
    assert_eq!(bv.pop(), Some(false));
    assert_eq!(bv.len(), 0);
}

#[test]
fn test_pop_corruption_guard() {
    let mut bv = SmolBitVec::new();

    // Push [true, false, true]
    bv.push(true); // Index 0
    bv.push(false); // Index 1
    bv.push(true); // Index 2

    // Pop the last item (Index 2). It should be true.
    assert_eq!(bv.pop(), Some(true));
    assert_eq!(bv.len(), 2);

    // Verify that the remaining bits were not shifted
    assert_eq!(bv.get(0), Some(true), "Index 0 was corrupted by pop!");
    assert_eq!(bv.get(1), Some(false), "Index 1 was corrupted by pop!");
}

#[test]
fn test_inline_full_capacity() {
    let mut bv = SmolBitVec::new();
    let cap = BITS_PER_WORD;

    for i in 0..cap {
        bv.push(i % 3 == 0);
    }

    assert_eq!(bv.len(), cap);

    for i in 0..cap {
        assert_eq!(bv.get(i), Some(i % 3 == 0));
    }
}

#[test]
fn test_inline_set_return_value() {
    let mut bv = SmolBitVec::new();
    bv.push(true);

    assert_eq!(bv.set(0, false), Some(true));
    assert_eq!(bv.get(0), Some(false));
    assert_eq!(bv.set(0, true), Some(false));
    assert_eq!(bv.get(0), Some(true));

    assert_eq!(bv.set(1, true), None);
}

#[test]
fn test_inline_memory_layout() {
    // On 64-bit systems:
    // len (8 bytes)
    // bits (16 bytes) -> SmolBitVecBits is 16 bytes because it contains a Box<[usize]> (16 bytes).
    //                    Rust uses the Box's pointer niche to fit the Inline(usize) variant.
    // Total = 24 bytes (3 usizes)

    let expected_total_size = size_of::<usize>() * 3;
    let expected_variant_size = size_of::<usize>() * 2;

    assert_eq!(
        size_of::<SmolBitVec>(),
        expected_total_size,
        "SmolBitVec size on stack should be 3 usizes (len + bits)"
    );

    assert_eq!(
        size_of::<SmolBitVecBits>(),
        expected_variant_size,
        "Internal variant enum should be 2 usizes (size of Box<[usize]>)"
    );
}

#[test]
fn test_spillover_exactly_at_boundary() {
    let mut bv = SmolBitVec::new();
    let cap = BITS_PER_WORD;

    // Fill to capacity
    for _ in 0..cap {
        bv.push(true);
    }
    assert!(matches!(bv.bits(), SmolBitVecBits::Inline(_)));

    // Push the bit after a full word (should spill)
    bv.push(false);
    assert_eq!(bv.len(), cap + 1);
    assert!(matches!(bv.bits(), SmolBitVecBits::Heap(_)));

    // Verify all bits
    for i in 0..cap {
        assert_eq!(
            bv.get(i),
            Some(true),
            "Bit at index {} was corrupted during spill",
            i
        );
    }
    assert_eq!(bv.get(cap), Some(false));
}

#[test]
fn test_heap_get_set_pop() {
    let mut bv = SmolBitVec::new();
    let size = (usize::BITS + 10) as usize;

    for i in 0..size {
        bv.push(i % 2 == 0);
    }

    // Test get
    for i in 0..size {
        assert_eq!(bv.get(i), Some(i % 2 == 0));
    }

    // Test set
    bv.set(0, false);
    bv.set(size - 1, true);
    assert_eq!(bv.get(0), Some(false));
    assert_eq!(bv.get(size - 1), Some(true));

    // Test pop
    assert_eq!(bv.pop(), Some(true));
    assert_eq!(bv.len(), size - 1);
}

#[test]
fn test_very_large_bit_vec() {
    let mut bv = SmolBitVec::new();
    let size = 1000;

    for i in 0..size {
        bv.push(i % 7 == 0);
    }

    assert_eq!(bv.len(), size);
    for i in 0..size {
        assert_eq!(bv.get(i), Some(i % 7 == 0));
    }
}

#[test]
fn test_from_iterator_and_extend_large() {
    let size = 200;
    let bits: Vec<bool> = (0..size).map(|i| i % 3 == 0).collect();

    let mut bv = SmolBitVec::from_iter(&bits);
    assert_eq!(bv.len(), size);
    assert!(matches!(bv.bits(), SmolBitVecBits::Heap(_)));

    let extra: Vec<bool> = (0..size).map(|i| i % 5 == 0).collect();
    bv.extend(&extra);

    assert_eq!(bv.len(), size * 2);
    for i in 0..size {
        assert_eq!(bv.get(i), Some(bits[i]));
        assert_eq!(bv.get(i + size), Some(extra[i]));
    }
}

#[test]
fn test_pop_back_to_inline_behavior() {
    let mut bv = SmolBitVec::new();
    let cap = BITS_PER_WORD;

    for _ in 0..cap + 1 {
        bv.push(true);
    }
    assert!(matches!(bv.bits(), SmolBitVecBits::Heap(_)));

    bv.pop();

    assert_eq!(bv.len(), cap);

    // It moves back to the inline word
    assert!(
        matches!(bv.bits(), SmolBitVecBits::Inline(_)),
        "Should aggressively transition back to Inline variant to save memory"
    );

    // Verify that the bits survived the structural transition intact
    for i in 0..cap {
        assert_eq!(
            bv.get(i),
            Some(true),
            "Bit {} was corrupted during the transition back to Inline",
            i
        );
    }
}

#[test]
fn test_heap_compactness() {
    let mut bv = SmolBitVec::new();
    let cap = BITS_PER_WORD;
    let num_bits = cap + 1;
    for _ in 0..num_bits {
        bv.push(true);
    }

    match bv.bits() {
        SmolBitVecBits::Heap(items) => {
            // For cap + 1 bits, we should only need 2 usize blocks if packed.
            let expected_blocks = (num_bits + cap - 1) / cap;
            assert_eq!(
                items.len(),
                expected_blocks,
                "Memory Inefficiency: Using {} blocks for {} bits. Expected {} blocks.",
                items.len(),
                num_bits,
                expected_blocks
            );
        }
        _ => panic!("Should be in Heap variant"),
    }
}

#[test]
fn test_equality_consistency() {
    let mut bv_inline = SmolBitVec::new();
    let cap = BITS_PER_WORD;
    for _ in 0..cap {
        bv_inline.push(true);
    }

    let mut bv_heap = SmolBitVec::new();
    for _ in 0..cap + 1 {
        bv_heap.push(true);
    }
    bv_heap.pop(); // Now it has 'cap' bits

    assert!(
        bv_inline == bv_heap,
        "Logic Bug: Vectors with identical bits must be equal regardless of storage variant."
    );
}

#[test]
fn test_large_iteration() {
    let size = 1000;
    let bits: Vec<bool> = (0..size).map(|i| i % 2 == 0).collect();
    let bv = SmolBitVec::from_iter(&bits);
    let collected: Vec<bool> = collect((&bv).into_iter());
    assert_eq!(collected.len(), size);
    for i in 0..size {
        assert_eq!(collected[i], i % 2 == 0);
    }
}

#[test]
fn test_clone_independence() {
    let mut bv1 = SmolBitVec::new();
    let cap = BITS_PER_WORD;

    // Test Inline Clone
    bv1.push(true);
    let mut bv2 = bv1.clone();
    bv2.set(0, false);
    assert_eq!(bv1.get(0), Some(true));
    assert_eq!(bv2.get(0), Some(false));

    // Test Heap Clone
    for _ in 0..cap {
        bv1.push(false);
    }
    assert!(matches!(bv1.bits(), SmolBitVecBits::Heap(_)));
    let mut bv3 = bv1.clone();
    bv3.set(cap, true);
    assert_eq!(bv1.get(cap), Some(false));
    assert_eq!(bv3.get(cap), Some(true));
}

#[test]
fn test_multiple_transitions() {
    let mut bv = SmolBitVec::new();
    let cap = BITS_PER_WORD;

    // Inline -> Heap
    for _ in 0..cap + 1 {
        bv.push(true);
    }
    assert!(matches!(bv.bits(), SmolBitVecBits::Heap(_)));

    // Heap -> Inline
    for _ in 0..cap + 1 {
        bv.pop();
    }
    assert!(matches!(bv.bits(), SmolBitVecBits::Inline(_)));
    assert!(bv.is_empty());

    // Inline -> Heap again
    for _ in 0..cap + 1 {
        bv.push(false);
    }
    assert!(matches!(bv.bits(), SmolBitVecBits::Heap(_)));
}

#[test]
fn test_iterator_exactness() {
    let size = 100;
    let bits: Vec<bool> = (0..size).map(|_| true).collect();
    let bv = SmolBitVec::from_iter(&bits);
    let mut iter = (&bv).into_iter();

    assert_eq!(iter.len(), size);
    let (min, max) = iter.size_hint();
    assert_eq!(min, size);
    assert_eq!(max, Some(size));

    iter.next();
    assert_eq!(iter.len(), size - 1);
    let (min, max) = iter.size_hint();
    assert_eq!(min, size - 1);
    assert_eq!(max, Some(size - 1));
}

#[test]
fn test_pop_until_empty_from_heap() {
    let mut bv = SmolBitVec::new();
    let size = 200;
    for i in 0..size {
        bv.push(i % 2 == 0);
    }

    for i in (0..size).rev() {
        assert_eq!(bv.pop(), Some(i % 2 == 0));
    }

    assert!(bv.is_empty());
    assert_eq!(bv.len(), 0);
    assert!(matches!(bv.bits(), SmolBitVecBits::Inline(0)));
    assert_eq!(bv.pop(), None);
}

#[test]
fn test_bit_persistence_around_boundaries() {
    let mut bv = SmolBitVec::new();
    let cap = BITS_PER_WORD;
    let size = cap * 2;

    for _ in 0..size {
        bv.push(false);
    }

    // Set the first bit of the second word
    bv.set(cap, true);
    assert_eq!(bv.get(cap), Some(true));
    assert_eq!(bv.get(cap - 1), Some(false));
    assert_eq!(bv.get(cap + 1), Some(false));

    // Set bit at index 0
    bv.set(0, true);
    assert_eq!(bv.get(0), Some(true));
    assert_eq!(bv.get(1), Some(false));
}

#[test]
fn test_out_of_bounds_explicit() {
    let mut bv = SmolBitVec::new();
    assert_eq!(bv.get(0), None);
    assert_eq!(bv.set(0, true), None);

    bv.push(true);
    assert_eq!(bv.get(1), None);
    assert_eq!(bv.set(1, false), None);

    let cap = BITS_PER_WORD;
    for _ in 0..cap {
        bv.push(true);
    }
    // Now it's Heap
    assert_eq!(bv.get(bv.len()), None);
    let len = bv.len();
    assert_eq!(bv.set(len, true), None);
}

#[test]
fn test_dirty_bits_equality_guard() {
    // "Dirty" bits beyond the logical length must not affect equality.
    let mut bv1 = SmolBitVec::new();
    bv1.push(true); // len 1, bit 0 is true

    // The same vector with garbage in the high bits of its word
    let bv2 = with_dirty_inline(&bv1, 0xAAAA_AAAA_AAAA_AAAA);

    assert!(
        bv1 == bv2,
        "PartialEq should mask dirty high bits and treat vectors as equal"
    );
}

#[test]
fn test_heap_cleanliness() {
    let mut bv = SmolBitVec::new();
    let cap = BITS_PER_WORD;

    // Fill first block, then add one bit to second block
    for _ in 0..cap {
        bv.push(false);
    }
    bv.push(true); // Index cap is true

    // Pop the true bit: the vector moves back to the inline word.
    bv.pop();

    assert_eq!(bv.len(), cap);
    assert!(matches!(bv.bits(), SmolBitVecBits::Inline(_)));

    // Test Heap cleanliness without triggering Inline transition
    let mut bv_large = SmolBitVec::new();
    // Use 2 full blocks + 1 bit
    for _ in 0..cap * 2 + 1 {
        bv_large.push(true);
    }
    // The only bit of block 2 is true.

    bv_large.pop(); // Pop that bit. Block 2 should be removed.

    if let SmolBitVecBits::Heap(items) = bv_large.bits() {
        assert_eq!(
            items.len(),
            2,
            "Should have 2 blocks (0 and 1) after popping the only bit in block 2"
        );
    }

    // Now test clearing a bit WITHIN a block
    bv_large.pop(); // Pop the last bit of block 1, which should be zeroed.
    if let SmolBitVecBits::Heap(items) = bv_large.bits() {
        let offset_in_block_1 = 63;
        assert_eq!(
            items[1] & (1usize << offset_in_block_1),
            0,
            "The popped bit 127 (offset 63 in block 1) should be zeroed"
        );
    }
}

#[test]
fn test_bulk_extend_integrity() {
    let mut bv = SmolBitVec::new();
    let bits: Vec<bool> = (0..1000).map(|i| i % 3 == 0).collect();
    bv.extend(&bits.clone());

    assert_eq!(bv.len(), 1000);
    for i in 0..1000 {
        assert_eq!(bv.get(i), Some(bits[i]));
    }
}

#[test]
fn test_partial_eq_optimized_heap() {
    let mut bv1 = SmolBitVec::new();
    let mut bv2 = SmolBitVec::new();
    let size = (usize::BITS * 2 + 10) as usize;

    for i in 0..size {
        let b = i % 3 == 0;
        bv1.push(b);
        bv2.push(b);
    }

    // Test identical heap vectors
    assert!(bv1 == bv2);

    // Test difference in a single bit
    bv2.set(size - 1, !bv2.get(size - 1).unwrap());
    assert!(bv1 != bv2);

    // Reset and test again
    bv2.set(size - 1, bv1.get(size - 1).unwrap());
    assert!(bv1 == bv2);
}

#[test]
fn test_partial_eq_cleanliness_after_set() {
    let mut bv1 = SmolBitVec::new();
    let mut bv2 = SmolBitVec::new();

    bv1.push(true);
    bv2.push(true);

    // Logical state: [true]
    assert!(bv1 == bv2);

    // set(0, true) is a no-op logically and must not corrupt high bits.
    bv1.set(0, true);
    assert!(bv1 == bv2);

    // set(0, false) followed by set(0, true)
    bv1.set(0, false);
    bv1.set(0, true);
    assert!(bv1 == bv2);
}

#[test]
fn test_partial_eq_canonical_variants() {
    let mut bv1 = SmolBitVec::new();
    let cap = BITS_PER_WORD;

    for _ in 0..cap {
        bv1.push(true);
    }

    let mut bv2 = SmolBitVec::new();
    for _ in 0..cap + 1 {
        bv2.push(true);
    }
    bv2.pop(); // Should transition back to Inline

    // Both are Inline(cap bits), so they should be equal
    assert!(bv1 == bv2);

    // Ensure they are both actually Inline
    assert!(matches!(bv1.bits(), SmolBitVecBits::Inline(_)));
    assert!(matches!(bv2.bits(), SmolBitVecBits::Inline(_)));
}

#[test]
fn test_empty_state_exhaustive() {
    let bv1 = SmolBitVec::new();
    let bv2 = SmolBitVec::default();

    // Basic properties
    assert!(bv1.is_empty());
    assert_eq!(bv1.len(), 0);

    // Equality
    assert!(bv1 == bv2);

    // Iteration
    let mut iter = (&bv1).into_iter();
    assert_eq!(iter.next(), None);
    assert_eq!(iter.len(), 0);

    // Cloning
    let bv3 = bv1.clone();
    assert!(bv3.is_empty());
    assert!(bv1 == bv3);

    // Debug format
    assert_eq!(bv1.to_debug_string(), "[]");

    // FromIterator
    let bv4 = SmolBitVec::from_iter(&[]);
    assert!(bv4.is_empty());
    assert!(bv1 == bv4);

    // Extend
    let mut bv5 = SmolBitVec::new();
    bv5.extend(&[]);
    assert!(bv5.is_empty());
    assert!(bv1 == bv5);
}

#[test]
fn test_clear() {
    let mut bv = SmolBitVec::new();
    bv.push(true);
    bv.push(false);
    bv.push(true);
    assert_eq!(bv.len(), 3);
    bv.clear();
    assert_eq!(bv.len(), 0);
    assert!(bv.is_empty());
    assert_eq!(bv.get(0), None);

    // Test clear on heap
    for _ in 0..BITS_PER_WORD + 1 {
        bv.push(true);
    }
    assert!(matches!(bv.bits(), SmolBitVecBits::Heap(_)));
    bv.clear();
    assert_eq!(bv.len(), 0);
    assert!(matches!(bv.bits(), SmolBitVecBits::Inline(0)));
}

#[test]
fn test_first_last() {
    let mut bv = SmolBitVec::new();
    assert_eq!(bv.first(), None);
    assert_eq!(bv.last(), None);

    bv.push(true);
    assert_eq!(bv.first(), Some(true));
    assert_eq!(bv.last(), Some(true));

    bv.push(false);
    assert_eq!(bv.first(), Some(true));
    assert_eq!(bv.last(), Some(false));

    // Test heap
    let mut bv2 = SmolBitVec::new();
    for i in 0..BITS_PER_WORD + 1 {
        bv2.push(i == 0); // first is true, others false
    }
    assert_eq!(bv2.first(), Some(true));
    assert_eq!(bv2.last(), Some(false));

    bv2.set(BITS_PER_WORD, true);
    assert_eq!(bv2.last(), Some(true));

    bv2.set(0, false);
    assert_eq!(bv2.first(), Some(false));
}

#[test]
fn test_reserve_basic() {
    let mut bv = SmolBitVec::new();
    // Reserving on an empty vector
    bv.reserve(100);

    for i in 0..100 {
        bv.push(i % 3 == 0);
    }

    assert_eq!(bv.len(), 100);
    for i in 0..100 {
        assert_eq!(bv.get(i), Some(i % 3 == 0));
    }
}

#[test]
fn test_reserve_inline_to_heap() {
    let mut bv = SmolBitVec::new();
    bv.push(true);
    // This forces a transition to heap as additional > capacity
    bv.reserve(BITS_PER_WORD + 1);

    assert_eq!(bv.len(), 1);
    assert_eq!(bv.get(0), Some(true));

    // Ensure further pushes work
    for _ in 0..BITS_PER_WORD {
        bv.push(false);
    }
    assert_eq!(bv.len(), BITS_PER_WORD + 1);
    assert_eq!(bv.get(0), Some(true));
    assert_eq!(bv.get(BITS_PER_WORD), Some(false));
}

#[test]
fn test_reserve_equality_with_different_capacities() {
    let mut bv1 = SmolBitVec::new();
    let mut bv2 = SmolBitVec::new();

    for i in 0..BITS_PER_WORD {
        let b = i % 2 == 0;
        bv1.push(b);
        bv2.push(b);
    }

    // bv2 moves to the heap, but logically they are the same
    bv2.reserve(1000);

    assert!(bv1 == bv2, "Equality should ignore capacity differences");

    // Even after more pushes
    bv1.push(true);
    bv2.push(true);
    assert!(bv1 == bv2);
}

// A pop at a word boundary on an over-allocated heap must not leave a bit
// that the next get at that position would see.
#[test]
fn test_pop_after_reserve_block_boundary_dirty_bit() {
    let mut bv = SmolBitVec::new();
    let cap = BITS_PER_WORD;

    for _ in 0..cap * 2 + 1 {
        bv.push(true);
    }
    bv.reserve(cap * 4); // items.len() is now larger than item_index (2) + 1

    // last_index=cap*2, item_index=2, item_offset=0
    assert_eq!(bv.pop(), Some(true));
    assert_eq!(bv.len(), cap * 2);

    bv.push(false);
    assert_eq!(
        bv.get(cap * 2),
        Some(false),
        "dirty bit in items[2] caused get to return true after pushing false"
    );
}

// A pop inside a word on an over-allocated heap must clear the bit in the
// word that holds it.
#[test]
fn test_pop_after_reserve_mid_block_dirty_bit() {
    let mut bv = SmolBitVec::new();
    let cap = BITS_PER_WORD;

    for _ in 0..cap + 6 {
        bv.push(true);
    }
    bv.reserve(cap * 4); // items.len() is now larger than item_index (1) + 1

    // last_index=cap+5, item_index=1, item_offset=5
    assert_eq!(bv.pop(), Some(true));
    assert_eq!(bv.len(), cap + 5);

    bv.push(false);
    assert_eq!(
        bv.get(cap + 5),
        Some(false),
        "dirty bit in items[1] caused get to return true after pushing false"
    );
}

#[test]
fn test_reserve_does_not_shrink_capacity() {
    let mut bv = SmolBitVec::new();
    let cap = BITS_PER_WORD;

    for _ in 0..cap + 1 {
        bv.push(true);
    }

    bv.reserve(cap * 10);
    let blocks_after_large_reserve = match bv.bits() {
        SmolBitVecBits::Heap(items) => items.len(),
        _ => panic!("expected Heap"),
    };

    bv.reserve(1);
    let blocks_after_small_reserve = match bv.bits() {
        SmolBitVecBits::Heap(items) => items.len(),
        _ => panic!("expected Heap"),
    };

    assert_eq!(
        blocks_after_small_reserve, blocks_after_large_reserve,
        "reserve(1) shrank capacity from {} to {} blocks",
        blocks_after_large_reserve, blocks_after_small_reserve
    );
}

#[test]
fn test_eq_trait_bound() {
    fn requires_eq<T: Eq>(_: &T) {}
    let bv = SmolBitVec::new();
    requires_eq(&bv);
}

#[test]
fn test_extend_after_reserve_does_not_corrupt() {
    let mut bv = SmolBitVec::new();
    bv.reserve(BITS_PER_WORD * 4); // over-allocate: 4 zeroed blocks

    let bits: Vec<bool> = (0..BITS_PER_WORD * 2 + 5).map(|i| i % 3 == 0).collect();
    bv.extend(&bits);

    assert_eq!(bv.len(), bits.len());
    for (i, &b) in bits.iter().enumerate() {
        assert_eq!(
            bv.get(i),
            Some(b),
            "bit {i} corrupted: extend on over-allocated heap wrote to the wrong block"
        );
    }
}

#[test]
fn test_eq_masks_inline_vs_inline_dirty_bits() {
    let mut bv1 = SmolBitVec::new();
    bv1.push(true); // len=1, only bit 0 is meaningful

    let bv2 = with_dirty_inline(&bv1, !1usize); // dirty all high bits

    assert!(
        bv1 == bv2,
        "Inline vs Inline: dirty high bits should be ignored"
    );
}

#[test]
fn test_eq_masks_heap_vs_heap_dirty_last_block() {
    // One word and one more bit: the second block has 1 used bit.
    let bits: Vec<bool> = (0..BITS_PER_WORD + 1).map(|i| i % 2 == 0).collect();
    let bv1 = SmolBitVec::from_iter(&bits);
    let bv2 = with_dirty_block(&bv1, 1, 0xFFFF_FFFF_FFFF_FFFE); // dirty bits 1..63 of last block

    assert!(
        bv1 == bv2,
        "Heap vs Heap: dirty bits in last partial block should be ignored"
    );
}

#[test]
fn test_eq_masks_inline_vs_heap_dirty_bits() {
    // Use reserve to force one vec into Heap while keeping len <= BITS_PER_WORD.
    let mut bv_inline = SmolBitVec::new();
    bv_inline.push(true);
    bv_inline.push(false);

    let mut bv_heap = bv_inline.clone();
    bv_heap.reserve(BITS_PER_WORD * 3); // now Heap with len=2

    let bv_heap = with_dirty_block(&bv_heap, 0, 0xFFFF_FFFF_FFFF_FFFC); // dirty bits 2..63

    assert!(
        bv_inline == bv_heap,
        "Inline vs Heap: dirty high bits in heap block[0] should be ignored"
    );
    assert!(
        bv_heap == bv_inline,
        "Heap vs Inline: dirty high bits in heap block[0] should be ignored"
    );
}

#[test]
fn test_capacity() {
    // Inline: capacity is always BITS_PER_WORD regardless of len
    let mut bv = SmolBitVec::new();
    assert_eq!(bv.capacity(), BITS_PER_WORD);

    bv.push(true);
    assert_eq!(bv.capacity(), BITS_PER_WORD);

    // Filling inline to the brim does not change capacity
    for _ in 1..BITS_PER_WORD {
        bv.push(false);
    }
    assert_eq!(bv.len(), BITS_PER_WORD);
    assert_eq!(bv.capacity(), BITS_PER_WORD);

    // Spillover to Heap: capacity grows to the next block boundary
    bv.push(true);
    assert!(matches!(bv.bits(), SmolBitVecBits::Heap(_)));
    assert_eq!(bv.capacity(), BITS_PER_WORD * 2);

    // reserve increases capacity without changing len
    let mut bv2 = SmolBitVec::new();
    bv2.push(true);
    bv2.reserve(BITS_PER_WORD * 3);
    assert_eq!(bv2.len(), 1);
    assert!(bv2.capacity() >= BITS_PER_WORD * 3 + 1);

    // capacity never drops below len
    bv2.reserve(1);
    assert!(bv2.capacity() >= bv2.len());
}

#[test]
fn test_bit_isolation_and_equality() {
    let mut bv1 = SmolBitVec::new();
    bv1.push(true); // len = 1, bits = ...0001

    // The same vector with "dirty" bits beyond the logical length.
    let bv2 = with_dirty_inline(&bv1, 0b1111_1110);

    // This should pass if PartialEq uses proper masking
    assert!(
        bv1 == bv2,
        "PartialEq must ignore bits beyond the logical length"
    );
}

#[test]
fn test_consuming_iterator() {
    let bits = vec![true, false, true];
    let bv = SmolBitVec::from_iter(&bits);

    let collected: Vec<bool> = collect(bv.into_iter());
    assert_eq!(collected, bits);
}
