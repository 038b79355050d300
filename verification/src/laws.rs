//! Properties that relate the operations of `SmolBitVec` to one another, stated
//! over what each operation makes of a vector (`pushed`, `popped`, `set_to`,
//! `extended`, `reserved`, `built_from`), the same relations that the
//! operations' own contracts ensure.

use vstd::prelude::*;
use crate::smol_bit_vec::SmolBitVec;
use crate::word::{BITS_PER_WORD, words_for, lemma_words_for};
use crate::format::{debug_text, list_text};
use vstd::std_specs::cmp::PartialEqSpec;

verus! {

/// `push(value)` appends `value`: the length grows by one, `get` at the old
/// length gives `value`, every earlier bit is unchanged, and the capacity grows
/// by exactly one word, only when the storage was full.
pub proof fn law_push_then_get(before: SmolBitVec, value: bool, after: SmolBitVec, index: int)
    requires
        before.pushed(value, after),
    ensures
        after@.len() == before@.len() + 1,
        after@[before@.len() as int] == value,
        0 <= index < before@.len() ==> after@[index] == before@[index],
        after.spec_capacity() == if before@.len() < before.spec_capacity() {
            before.spec_capacity() as int
        } else {
            before.spec_capacity() + BITS_PER_WORD
        },
{
}

/// Popping right after pushing `value` hands back `value` and leaves a vector
/// equal to the one before the push.
pub proof fn law_pop_undoes_push(
    before: SmolBitVec,
    value: bool,
    pushed: SmolBitVec,
    result: Option<bool>,
    after: SmolBitVec,
)
    requires
        before.pushed(value, pushed),
        pushed.popped(result, after),
    ensures
        result == Some(value),
        after@.len() == before@.len(),
        after@ == before@,
        after.eq_spec(&before),
{
    assert(before@.push(value).drop_last() =~= before@);
}

/// Pushing `value` right after a pop puts `value` where the popped bit was,
/// whatever that bit was and whatever the storage held beyond the length.
pub proof fn law_push_after_pop(
    before: SmolBitVec,
    result: Option<bool>,
    popped: SmolBitVec,
    value: bool,
    after: SmolBitVec,
)
    requires
        before@.len() > 0,
        before.popped(result, popped),
        popped.pushed(value, after),
    ensures
        after@ == before@.update(before@.len() - 1, value),
{
    assert(before@.drop_last().push(value) =~= before@.update(before@.len() - 1, value));
}

/// After `set(index, value)` within the length, `get(index)` gives `value` and
/// every other bit is unchanged; setting the previous value back hands back
/// `value` and restores a vector equal to the first.
pub proof fn law_set_then_get(
    before: SmolBitVec,
    index: int,
    value: bool,
    previous: Option<bool>,
    changed: SmolBitVec,
    again: Option<bool>,
    after: SmolBitVec,
    other: int,
)
    requires
        0 <= index < before@.len(),
        before.set_to(index, value, previous, changed),
        changed.set_to(index, before@[index], again, after),
    ensures
        previous == Some(before@[index]),
        changed@[index] == value,
        0 <= other < before@.len() && other != index ==> changed@[other] == before@[other],
        again == Some(value),
        after@ == before@,
        after.eq_spec(&before),
{
    assert(before@.update(index, value).update(index, before@[index]) =~= before@);
}

/// `reserve(additional)` keeps the bits, so the vector stays equal to what it
/// was; its capacity holds `additional` more bits and never shrinks, and it is
/// unchanged when there was room already, else exactly the words the bits need.
pub proof fn law_reserve_keeps_bits(before: SmolBitVec, additional: int, after: SmolBitVec)
    requires
        0 <= additional,
        before.reserved(additional, after),
    ensures
        after@ == before@,
        after.eq_spec(&before),
        after.spec_capacity() >= before@.len() + additional,
        after.spec_capacity() >= before.spec_capacity(),
        after.spec_capacity() == if before@.len() + additional <= before.spec_capacity() {
            before.spec_capacity() as int
        } else {
            words_for(before@.len() + additional) * BITS_PER_WORD
        },
{
    lemma_words_for(before@.len() + additional);
}

/// Extending by `first` and then by `second` gives a vector equal to extending
/// by both at once.
pub proof fn law_extend_composes(
    before: SmolBitVec,
    first: Seq<bool>,
    middle: SmolBitVec,
    second: Seq<bool>,
    after: SmolBitVec,
    at_once: SmolBitVec,
)
    requires
        before.extended(first, middle),
        middle.extended(second, after),
        before.extended(first + second, at_once),
    ensures
        after@.len() == at_once@.len(),
        after@ == at_once@,
        after.eq_spec(&at_once),
{
    assert(before@ + first + second =~= before@ + (first + second));
}

proof fn lemma_pushes_append(start: SmolBitVec, values: Seq<bool>, steps: Seq<SmolBitVec>, k: int)
    requires
        steps.len() == values.len() + 1,
        steps[0]@ == start@,
        forall|j: int| 0 <= j < values.len() ==> #[trigger] steps[j].pushed(values[j], steps[j + 1]),
        0 <= k <= values.len(),
    ensures
        steps[k]@ == start@ + values.subrange(0, k),
    decreases k,
{
    if k == 0 {
        assert(start@ + values.subrange(0, 0) =~= start@);
    } else {
        lemma_pushes_append(start, values, steps, k - 1);
        assert(steps[k - 1].pushed(values[k - 1], steps[k]));
        assert(start@ + values.subrange(0, k) =~= (start@ + values.subrange(0, k - 1)).push(values[k - 1]));
    }
}

/// `extend(values)` gives a vector equal to the one that pushing each of
/// `values` in turn gives: `steps` holds the vector before each push and, last,
/// the vector after the final one.
pub proof fn law_extend_matches_pushes(
    before: SmolBitVec,
    values: Seq<bool>,
    extended: SmolBitVec,
    steps: Seq<SmolBitVec>,
)
    requires
        before.extended(values, extended),
        steps.len() == values.len() + 1,
        steps[0] == before,
        forall|j: int| 0 <= j < values.len() ==> #[trigger] steps[j].pushed(values[j], steps[j + 1]),
    ensures
        steps.last()@ == extended@,
        steps.last().eq_spec(&extended),
{
    lemma_pushes_append(before, values, steps, values.len() as int);
    assert(values.subrange(0, values.len() as int) =~= values);
}

/// `from_iter(values)` gives a vector equal to the one that pushing each of
/// `values` in turn onto an empty vector gives, and to extending an empty vector
/// by `values`.
pub proof fn law_from_iter_matches_pushes(
    values: Seq<bool>,
    built: SmolBitVec,
    steps: Seq<SmolBitVec>,
    empty: SmolBitVec,
    extended: SmolBitVec,
)
    requires
        built.built_from(values),
        steps.len() == values.len() + 1,
        steps[0]@ == Seq::<bool>::empty(),
        forall|j: int| 0 <= j < values.len() ==> #[trigger] steps[j].pushed(values[j], steps[j + 1]),
        empty@ == Seq::<bool>::empty(),
        empty.extended(values, extended),
    ensures
        steps.last()@ == built@,
        steps.last().eq_spec(&built),
        extended@ == built@,
        extended.eq_spec(&built),
{
    lemma_pushes_append(steps[0], values, steps, values.len() as int);
    assert(Seq::<bool>::empty() + values.subrange(0, values.len() as int) =~= values);
    assert(Seq::<bool>::empty() + values =~= values);
}

/// Equality compares the bits alone, whatever the storage variant, the capacity
/// or the bits beyond the length, and it is an equivalence.
pub proof fn law_equality(a: SmolBitVec, b: SmolBitVec, c: SmolBitVec)
    ensures
        a.eq_spec(&b) <==> a@ == b@,
        a.eq_spec(&a),
        a.eq_spec(&b) == b.eq_spec(&a),
        a.eq_spec(&b) && b.eq_spec(&c) ==> a.eq_spec(&c),
{
}

/// A compact vector is inline exactly when its bits fit in one word.
pub proof fn law_compact_inline(v: SmolBitVec)
    requires
        v.is_compact(),
    ensures
        v.is_inline() <==> v@.len() <= BITS_PER_WORD,
{
}

/// A compact vector, such as one built without `reserve`, holds one word while
/// its bits fit there and otherwise exactly the words its bits need: its
/// capacity is the larger of one word and the length rounded up to whole words.
pub proof fn law_compact_capacity(v: SmolBitVec)
    requires
        v.is_compact(),
    ensures
        v.spec_capacity() == if v@.len() <= BITS_PER_WORD {
            BITS_PER_WORD as int
        } else {
            words_for(v@.len() as int) * BITS_PER_WORD
        },
        v@.len() <= v.spec_capacity(),
        !v.is_inline() ==> v.spec_capacity() < v@.len() + BITS_PER_WORD,
{
    lemma_words_for(v@.len() as int);
}

/// `to_debug_string` writes the bits in index order as a bracketed list: an
/// empty vector gives `[]`, and pushing a bit adds its text, `true` or `false`,
/// after a `, ` separator (none before the first entry) just before the closing
/// bracket. By induction on the length, entry `k` of the list is the text of
/// bit `k`.
pub proof fn law_debug_text_lists_bits_in_order(bits: Seq<bool>, value: bool)
    ensures
        debug_text(Seq::<bool>::empty()) == "[]"@,
        debug_text(bits.push(value)) == debug_text(bits).drop_last()
            + (if bits.len() == 0 { ""@ } else { ", "@ })
            + (if value { "true"@ } else { "false"@ })
            + "]"@,
{
    reveal_strlit("[");
    reveal_strlit("]");
    reveal_strlit("[]");
    reveal_strlit("");
    assert(debug_text(Seq::<bool>::empty()) =~= "[]"@);
    let pushed = bits.push(value);
    assert(pushed.drop_last() =~= bits);
    assert(pushed.last() == value);
    let head = "["@ + list_text(bits);
    assert(debug_text(bits).drop_last() =~= head);
    if bits.len() == 0 {
        assert(list_text(pushed) == (if value { "true"@ } else { "false"@ }));
        assert(debug_text(pushed) =~= head + ""@ + (if value { "true"@ } else { "false"@ }) + "]"@);
    } else {
        assert(list_text(pushed) == list_text(bits) + ", "@ + (if value { "true"@ } else { "false"@ }));
        assert(debug_text(pushed) =~= head + ", "@ + (if value { "true"@ } else { "false"@ }) + "]"@);
    }
}

} // verus!
