//! What it means for one value to be a copy of another, when copies are made
//! by `Clone` and may themselves be copied again.

use vstd::prelude::*;

verus! {

/// `copy` came from `value` by at most `steps` calls of `clone`.
pub open spec fn copy_within<T: Clone>(value: T, copy: T, steps: nat) -> bool
    decreases steps,
{
    if steps == 0 {
        copy == value
    } else {
        exists|middle: T|
            copy_within(value, middle, (steps - 1) as nat) && #[trigger] cloned(middle, copy)
    }
}

/// `copy` is `value` itself or came from it by calls of `clone`.
pub open spec fn copy_of<T: Clone>(value: T, copy: T) -> bool {
    exists|steps: nat| copy_within(value, copy, steps)
}

/// `copies` is as long as `values` and holds, place by place, a copy of it.
pub open spec fn copies_of<T: Clone>(values: Seq<T>, copies: Seq<T>) -> bool {
    &&& copies.len() == values.len()
    &&& forall|i: int| 0 <= i < values.len() ==> copy_of(values[i], #[trigger] copies[i])
}

/// For this type a clone is always equal to what it was cloned from.
pub open spec fn clone_is_exact<T: Clone>() -> bool {
    forall|a: T, b: T| #[trigger] cloned(a, b) ==> a == b
}

/// Every value is a copy of itself.
pub proof fn lemma_copy_of_itself<T: Clone>(value: T)
    ensures
        copy_of(value, value),
{
    assert(copy_within(value, value, 0));
}

/// A clone of a copy is a copy.
pub proof fn lemma_copy_then_clone<T: Clone>(value: T, middle: T, copy: T)
    requires
        copy_of(value, middle),
        cloned(middle, copy),
    ensures
        copy_of(value, copy),
{
    let steps = choose|steps: nat| copy_within(value, middle, steps);
    assert(copy_within(value, copy, steps + 1));
}

/// Where clones are exact, a copy within any number of steps is the value.
pub proof fn lemma_exact_copy_within<T: Clone>(value: T, copy: T, steps: nat)
    requires
        clone_is_exact::<T>(),
        copy_within(value, copy, steps),
    ensures
        copy == value,
    decreases steps,
{
    if steps > 0 {
        let middle = choose|middle: T|
            copy_within(value, middle, (steps - 1) as nat) && #[trigger] cloned(middle, copy);
        lemma_exact_copy_within(value, middle, (steps - 1) as nat);
    }
}

/// Where clones are exact, the only copy of a value is the value.
pub proof fn lemma_exact_copy<T: Clone>(value: T, copy: T)
    requires
        clone_is_exact::<T>(),
        copy_of(value, copy),
    ensures
        copy == value,
{
    let steps = choose|steps: nat| copy_within(value, copy, steps);
    lemma_exact_copy_within(value, copy, steps);
}

} // verus!
