use vstd::prelude::*;

verus! {

/// The value that binary-search exploration of `[low, high]` assigns to a
/// given `step`: the midpoint at step zero, then recursively one half.
pub open spec fn spec_arbitrary_binary(low: int, high: int, step: int) -> int
    decreases step via spec_arbitrary_binary_decreases
{
    if high <= low {
        low
    } else {
        let s = (if step >= 0 {
            step
        } else {
            0
        }) % (high - low);
        let next = low + (high - low) / 2;
        if low + 1 == high {
            if s % 2 == 0 {
                high
            } else {
                low
            }
        } else if s == 0 {
            next
        } else if s % 2 == 1 {
            spec_arbitrary_binary(next + 1, high, s / 2)
        } else {
            spec_arbitrary_binary(low, next - 1, (s - 1) / 2)
        }
    }
}

#[via_fn]
proof fn spec_arbitrary_binary_decreases(low: int, high: int, step: int) {
    if high > low {
        vstd::arithmetic::div_mod::lemma_mod_decreases(
            (if step >= 0 {
                step
            } else {
                0
            }) as nat,
            (high - low) as nat,
        );
    }
}

/// Binary-search style exploration of the range `[low, high]`: each value of
/// `step` selects one element of the range, spreading successive steps over
/// the range the way a binary search visits it.
pub fn arbitrary_binary(low: usize, high: usize, step: usize) -> (r: usize)
    requires
        low <= high,
    ensures
        low <= r <= high,
        r == spec_arbitrary_binary(low as int, high as int, step as int),
    decreases step,
{
    if high == low {
        return low;
    }
    proof {
        vstd::arithmetic::div_mod::lemma_mod_decreases(step as nat, (high - low) as nat);
    }
    let step: usize = step % (high - low);
    let next: usize = low + (high - low) / 2;
    if low + 1 == high {
        if step % 2 == 0 {
            high
        } else {
            low
        }
    } else if step == 0 {
        next
    } else if step % 2 == 1 {
        arbitrary_binary(next + 1, high, step / 2)
    } else {
        arbitrary_binary(low, next - 1, (step - 1) / 2)
    }
}

} // verus!
