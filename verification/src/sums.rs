use vstd::prelude::*;

verus! {

/// Sum of `f` over the elements of `s`, front to back.
pub open spec fn sum_over(s: Seq<usize>, f: spec_fn(usize) -> int) -> int
    decreases s.len(),
{
    if s.len() == 0 {
        0
    } else {
        f(s[0]) + sum_over(s.drop_first(), f)
    }
}

/// Two term functions that agree on every element of `s` sum to the same value.
pub proof fn lemma_sum_congruence(s: Seq<usize>, f: spec_fn(usize) -> int, g: spec_fn(usize) -> int)
    requires
        forall|i: int| 0 <= i < s.len() ==> f(#[trigger] s[i]) == g(s[i]),
    ensures
        sum_over(s, f) == sum_over(s, g),
    decreases s.len(),
{
    if s.len() > 0 {
        lemma_sum_congruence(s.drop_first(), f, g);
    }
}

/// Appending an element adds its term to the sum.
pub proof fn lemma_sum_push(s: Seq<usize>, f: spec_fn(usize) -> int, x: usize)
    ensures
        sum_over(s.push(x), f) == sum_over(s, f) + f(x),
    decreases s.len(),
{
    if s.len() == 0 {
        assert(s.push(x).drop_first() =~= s);
    } else {
        assert(s.push(x).drop_first() =~= s.drop_first().push(x));
        lemma_sum_push(s.drop_first(), f, x);
    }
}

/// Removing the element at index `i` subtracts its term from the sum.
pub proof fn lemma_sum_remove(s: Seq<usize>, f: spec_fn(usize) -> int, i: int)
    requires
        0 <= i < s.len(),
    ensures
        sum_over(s.remove(i), f) == sum_over(s, f) - f(s[i]),
    decreases s.len(),
{
    if i == 0 {
        assert(s.remove(0) =~= s.drop_first());
    } else {
        assert(s.remove(i).drop_first() =~= s.drop_first().remove(i - 1));
        lemma_sum_remove(s.drop_first(), f, i - 1);
    }
}

/// If `f` and `g` differ at most at the element `x`, which occurs at most once
/// in `s`, the sums differ exactly by the change of the term at `x`.
pub proof fn lemma_sum_update_key(
    s: Seq<usize>,
    f: spec_fn(usize) -> int,
    g: spec_fn(usize) -> int,
    x: usize,
)
    requires
        s.no_duplicates(),
        forall|i: int| 0 <= i < s.len() && s[i] != x ==> f(#[trigger] s[i]) == g(s[i]),
    ensures
        sum_over(s, g) == sum_over(s, f) + if s.contains(x) {
            g(x) - f(x)
        } else {
            0
        },
    decreases s.len(),
{
    if s.len() > 0 {
        lemma_sum_update_key(s.drop_first(), f, g, x);
        if s.contains(x) {
            let j = choose|j: int| 0 <= j < s.len() && s[j] == x;
            if s[0] == x {
                assert(!s.drop_first().contains(x)) by {
                    if s.drop_first().contains(x) {
                        let i = choose|i: int|
                            0 <= i < s.drop_first().len() && s.drop_first()[i] == x;
                        assert(s[i + 1] == x);
                    }
                }
            } else {
                assert(s.drop_first()[j - 1] == x);
                assert(s.drop_first().contains(x));
            }
        } else {
            assert(s[0] != x);
            assert(!s.drop_first().contains(x)) by {
                if s.drop_first().contains(x) {
                    let i = choose|i: int| 0 <= i < s.drop_first().len() && s.drop_first()[i] == x;
                    assert(s[i + 1] == x);
                }
            }
        }
    }
}

/// A sum of terms bounded by `[0, hi]` lies in `[0, len * hi]`.
pub proof fn lemma_sum_bounds(s: Seq<usize>, f: spec_fn(usize) -> int, hi: int)
    requires
        forall|i: int| 0 <= i < s.len() ==> 0 <= f(#[trigger] s[i]) <= hi,
    ensures
        0 <= sum_over(s, f) <= s.len() * hi,
    decreases s.len(),
{
    if s.len() == 0 {
    } else {
        lemma_sum_bounds(s.drop_first(), f, hi);
        assert(s.len() * hi == (s.len() - 1) * hi + hi) by (nonlinear_arith);
    }
}

/// Every term of a sum of non-negative terms is a lower bound for the sum.
pub proof fn lemma_sum_element_lower(s: Seq<usize>, f: spec_fn(usize) -> int, i: int)
    requires
        forall|j: int| 0 <= j < s.len() ==> 0 <= f(#[trigger] s[j]),
        0 <= i < s.len(),
    ensures
        sum_over(s, f) >= f(s[i]),
    decreases s.len(),
{
    if i == 0 {
        lemma_sum_bounds_nonneg(s.drop_first(), f);
    } else {
        lemma_sum_element_lower(s.drop_first(), f, i - 1);
    }
}

/// A sum of non-negative terms is non-negative.
pub proof fn lemma_sum_bounds_nonneg(s: Seq<usize>, f: spec_fn(usize) -> int)
    requires
        forall|j: int| 0 <= j < s.len() ==> 0 <= f(#[trigger] s[j]),
    ensures
        sum_over(s, f) >= 0,
    decreases s.len(),
{
    if s.len() > 0 {
        lemma_sum_bounds_nonneg(s.drop_first(), f);
    }
}

} // verus!
