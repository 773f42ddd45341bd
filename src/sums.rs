//! Finite integer sums, the model behind dot products and matrix products.
use vstd::prelude::*;
use vstd::arithmetic::div_mod::lemma_add_mod_noop;

verus! {

/// `f(0) + f(1) + ... + f(k - 1)`.
pub open spec fn sum(f: spec_fn(int) -> int, k: int) -> int
    decreases k,
{
    if k <= 0 {
        0
    } else {
        sum(f, k - 1) + f(k - 1)
    }
}

/// The integer dot product of the first `u.len()` entries of `u` and `v`.
pub open spec fn dot_sum(u: Seq<u64>, v: Seq<u64>) -> int {
    sum(|i: int| u[i] as int * v[i] as int, u.len() as int)
}

/// Column `j` of the matrix `a` (a sequence of rows) dotted with `r`.
pub open spec fn col_sum(a: Seq<Vec<u64>>, r: Seq<u64>, j: int) -> int {
    sum(|i: int| a[i]@[j] as int * r[i] as int, a.len() as int)
}

/// Every row of `a` has `cols` entries.
pub open spec fn rectangular(a: Seq<Vec<u64>>, cols: int) -> bool {
    forall|i: int| 0 <= i < a.len() ==> #[trigger] a[i]@.len() == cols
}

/// Sums of pointwise equal terms are equal.
pub proof fn lemma_sum_ext(f: spec_fn(int) -> int, g: spec_fn(int) -> int, k: int)
    requires
        forall|i: int| 0 <= i < k ==> #[trigger] f(i) == g(i),
    ensures
        sum(f, k) == sum(g, k),
    decreases k,
{
    if k > 0 {
        lemma_sum_ext(f, g, k - 1);
    }
}

/// A sum of pointwise sums splits into two sums.
pub proof fn lemma_sum_add(
    f: spec_fn(int) -> int,
    g: spec_fn(int) -> int,
    h: spec_fn(int) -> int,
    k: int,
)
    requires
        forall|i: int| 0 <= i < k ==> #[trigger] h(i) == f(i) + g(i),
    ensures
        sum(h, k) == sum(f, k) + sum(g, k),
    decreases k,
{
    if k > 0 {
        lemma_sum_add(f, g, h, k - 1);
    }
}

/// A constant factor moves out of a sum.
pub proof fn lemma_sum_scale(f: spec_fn(int) -> int, g: spec_fn(int) -> int, c: int, k: int)
    requires
        forall|i: int| 0 <= i < k ==> #[trigger] g(i) == c * f(i),
    ensures
        sum(g, k) == c * sum(f, k),
    decreases k,
{
    if k > 0 {
        lemma_sum_scale(f, g, c, k - 1);
        let s = sum(f, k - 1);
        let x = f(k - 1);
        assert(c * s + c * x == c * (s + x)) by (nonlinear_arith);
    }
}

/// The order of summation of a double sum can be exchanged.
pub proof fn lemma_sum_swap(t: spec_fn(int, int) -> int, m: int, n: int)
    ensures
        sum(|i: int| sum(|j: int| t(i, j), n), m) == sum(|j: int| sum(|i: int| t(i, j), m), n),
    decreases m,
{
    if m > 0 {
        let row = |i: int| sum(|j: int| t(i, j), n);
        let prev = |j: int| sum(|i: int| t(i, j), m - 1);
        let last = |j: int| t(m - 1, j);
        let col = |j: int| sum(|i: int| t(i, j), m);
        lemma_sum_swap(t, m - 1, n);
        assert(sum(row, m - 1) == sum(prev, n));
        lemma_sum_add(prev, last, col, n);
        assert(sum(row, m) == sum(row, m - 1) + row(m - 1));
        assert(row(m - 1) == sum(last, n));
        assert(sum(row, m) == sum(col, n));
    } else {
        let col = |j: int| sum(|i: int| t(i, j), m);
        lemma_sum_scale(col, col, 0, n);
    }
}

/// Sums of pointwise congruent terms are congruent.
pub proof fn lemma_sum_mod(f: spec_fn(int) -> int, g: spec_fn(int) -> int, k: int, q: int)
    requires
        q > 0,
        forall|i: int| 0 <= i < k ==> #[trigger] f(i) % q == g(i) % q,
    ensures
        sum(f, k) % q == sum(g, k) % q,
    decreases k,
{
    if k > 0 {
        lemma_sum_mod(f, g, k - 1, q);
        lemma_add_mod_noop(sum(f, k - 1), f(k - 1), q);
        lemma_add_mod_noop(sum(g, k - 1), g(k - 1), q);
    }
}

/// A sum of `k` terms each at most `b` in magnitude is at most `k * b` in magnitude.
pub proof fn lemma_sum_bound(f: spec_fn(int) -> int, k: int, b: int)
    requires
        k >= 0,
        forall|i: int| 0 <= i < k ==> -b <= #[trigger] f(i) <= b,
    ensures
        -(k * b) <= sum(f, k) <= k * b,
    decreases k,
{
    if k > 0 {
        lemma_sum_bound(f, k - 1, b);
        assert((k - 1) * b + b == k * b) by (nonlinear_arith);
    }
}

} // verus!
