//! Finite sums of natural numbers, and the few facts about them that the
//! quests rely on.

use vstd::prelude::*;

verus! {

/// `f(0) + f(1) + ... + f(n - 1)`; zero when `n` is not positive.
pub open spec fn sum_below(n: int, f: spec_fn(int) -> nat) -> nat
    decreases n,
{
    if n <= 0 {
        0
    } else {
        sum_below(n - 1, f) + f(n - 1)
    }
}

/// A sum grows with each of its terms.
pub proof fn lemma_sum_monotone(n: int, f: spec_fn(int) -> nat, g: spec_fn(int) -> nat)
    requires
        forall|i: int| 0 <= i < n ==> #[trigger] f(i) <= g(i),
    ensures
        sum_below(n, f) <= sum_below(n, g),
    decreases n,
{
    if n > 0 {
        lemma_sum_monotone(n - 1, f, g);
    }
}

/// A sum of terms that are each the sum of two others splits in two.
pub proof fn lemma_sum_split(
    n: int,
    f: spec_fn(int) -> nat,
    g: spec_fn(int) -> nat,
    h: spec_fn(int) -> nat,
)
    requires
        forall|i: int| 0 <= i < n ==> #[trigger] h(i) == f(i) + g(i),
    ensures
        sum_below(n, h) == sum_below(n, f) + sum_below(n, g),
    decreases n,
{
    if n > 0 {
        lemma_sum_split(n - 1, f, g, h);
    }
}

/// A shorter sum of the same terms is no larger.
pub proof fn lemma_sum_prefix(m: int, n: int, f: spec_fn(int) -> nat)
    requires
        m <= n,
    ensures
        sum_below(m, f) <= sum_below(n, f),
    decreases n - m,
{
    if m < n {
        lemma_sum_prefix(m, n - 1, f);
    }
}

/// A sum over a stretch of terms: the first `k` terms and the `n` terms after
/// them make up the first `k + n` terms.
pub proof fn lemma_sum_shift(
    n: int,
    k: int,
    f: spec_fn(int) -> nat,
    shifted: spec_fn(int) -> nat,
)
    requires
        0 <= n,
        0 <= k,
        forall|i: int| 0 <= i < n ==> #[trigger] shifted(i) == f(i + k),
    ensures
        sum_below(k, f) + sum_below(n, shifted) == sum_below(k + n, f),
    decreases n,
{
    if n > 0 {
        lemma_sum_shift(n - 1, k, f, shifted);
    }
}

/// A sum is zero exactly when every term is.
pub proof fn lemma_sum_zero(n: int, f: spec_fn(int) -> nat)
    ensures
        sum_below(n, f) == 0 <==> forall|i: int| 0 <= i < n ==> #[trigger] f(i) == 0,
    decreases n,
{
    if n > 0 {
        lemma_sum_zero(n - 1, f);
        if sum_below(n, f) == 0 {
            assert forall|i: int| 0 <= i < n implies #[trigger] f(i) == 0 by {
            }
        }
    }
}

/// Where no term of one sum exceeds its partner in another, and yet the first
/// sum is not the smaller, the two agree term by term.
pub proof fn lemma_sum_tight(n: int, f: spec_fn(int) -> nat, g: spec_fn(int) -> nat)
    requires
        forall|i: int| 0 <= i < n ==> #[trigger] f(i) <= g(i),
        sum_below(n, f) >= sum_below(n, g),
    ensures
        forall|i: int| 0 <= i < n ==> #[trigger] f(i) == g(i),
    decreases n,
{
    if n > 0 {
        lemma_sum_monotone(n - 1, f, g);
        lemma_sum_tight(n - 1, f, g);
        assert forall|i: int| 0 <= i < n implies #[trigger] f(i) == g(i) by {
        }
    }
}

/// A sum of `n` terms, none above `bound`, is at most `n * bound`.
pub proof fn lemma_sum_at_most(n: int, f: spec_fn(int) -> nat, bound: nat)
    requires
        0 <= n,
        forall|i: int| 0 <= i < n ==> #[trigger] f(i) <= bound,
    ensures
        sum_below(n, f) <= n * bound,
    decreases n,
{
    if n > 0 {
        lemma_sum_at_most(n - 1, f, bound);
        assert(n * bound == (n - 1) * bound + bound) by (nonlinear_arith);
    } else {
        assert(n * bound == 0) by (nonlinear_arith)
            requires
                n == 0,
        ;
    }
}

} // verus!
