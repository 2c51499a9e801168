//! Finite summation over the integers, together with the small set of
//! lemmas the matrix contracts need: congruence, linearity, splitting a sum
//! in two, and bounding a sum by a bound on its terms.

use vstd::prelude::*;

verus! {

/// Sum of the first `n` terms of `f`: `f(0) + f(1) + ... + f(n - 1)`.
pub open spec fn sum_upto(f: spec_fn(int) -> int, n: nat) -> int
    decreases n,
{
    if n == 0 {
        0
    } else {
        sum_upto(f, (n - 1) as nat) + f(n - 1)
    }
}

/// Term functions that agree below `n` have equal sums.
pub proof fn lemma_sum_congruent(f: spec_fn(int) -> int, g: spec_fn(int) -> int, n: nat)
    requires
        forall|k: int| 0 <= k < n ==> #[trigger] f(k) == g(k),
    ensures
        sum_upto(f, n) == sum_upto(g, n),
    decreases n,
{
    if n > 0 {
        lemma_sum_congruent(f, g, (n - 1) as nat);
    }
}

/// A sum of pointwise sums splits: if `h` is everywhere below `n` the sum
/// of `f` and `g`, its sum is the sum of their sums.
pub proof fn lemma_sum_add(
    h: spec_fn(int) -> int,
    f: spec_fn(int) -> int,
    g: spec_fn(int) -> int,
    n: nat,
)
    requires
        forall|k: int| 0 <= k < n ==> #[trigger] h(k) == f(k) + g(k),
    ensures
        sum_upto(h, n) == sum_upto(f, n) + sum_upto(g, n),
    decreases n,
{
    if n > 0 {
        lemma_sum_add(h, f, g, (n - 1) as nat);
    }
}

/// A sum of pointwise differences splits: if `h` is everywhere below `n`
/// the difference of `f` and `g`, its sum is the difference of their sums.
pub proof fn lemma_sum_sub(
    h: spec_fn(int) -> int,
    f: spec_fn(int) -> int,
    g: spec_fn(int) -> int,
    n: nat,
)
    requires
        forall|k: int| 0 <= k < n ==> #[trigger] h(k) == f(k) - g(k),
    ensures
        sum_upto(h, n) == sum_upto(f, n) - sum_upto(g, n),
    decreases n,
{
    if n > 0 {
        lemma_sum_sub(h, f, g, (n - 1) as nat);
    }
}

/// A sum over `h + m` terms splits into the first `h` terms and the `m`
/// terms that follow; `tail` is those later terms re-indexed from zero.
pub proof fn lemma_sum_split(f: spec_fn(int) -> int, tail: spec_fn(int) -> int, h: nat, m: nat)
    requires
        forall|k: int| 0 <= k < m ==> #[trigger] tail(k) == f(k + h),
    ensures
        sum_upto(f, h + m) == sum_upto(f, h) + sum_upto(tail, m),
    decreases m,
{
    if m > 0 {
        lemma_sum_split(f, tail, h, (m - 1) as nat);
        assert(sum_upto(f, h + m) == sum_upto(f, (h + m - 1) as nat) + f(h + m - 1));
    }
}

/// A sum of all-zero terms is zero.
pub proof fn lemma_sum_zero(f: spec_fn(int) -> int, n: nat)
    requires
        forall|k: int| 0 <= k < n ==> #[trigger] f(k) == 0,
    ensures
        sum_upto(f, n) == 0,
    decreases n,
{
    if n > 0 {
        lemma_sum_zero(f, (n - 1) as nat);
    }
}

/// A sum of `n` terms, each of magnitude at most `b`, has magnitude at
/// most `n * b`.
pub proof fn lemma_sum_bound(f: spec_fn(int) -> int, n: nat, b: int)
    requires
        0 <= b,
        forall|k: int| 0 <= k < n ==> -b <= #[trigger] f(k) <= b,
    ensures
        -(n * b) <= sum_upto(f, n) <= n * b,
    decreases n,
{
    if n > 0 {
        lemma_sum_bound(f, (n - 1) as nat, b);
        let nn = n as int;
        assert((nn - 1) * b + b == nn * b) by (nonlinear_arith);
    }
}

} // verus!
