//! Vectors and matrices over Z_q. A matrix is a sequence of rows.
use vstd::prelude::*;
use vstd::arithmetic::div_mod::{lemma_add_mod_noop, lemma_small_mod};
use crate::ring::{LweError, Ring, modq};
use crate::sums::{sum, dot_sum, col_sum, rectangular};

verus! {

/// One step of a reduced running sum: `((s mod q) + (t mod q)) mod q == (s + t) mod q`.
proof fn lemma_acc_step(s: int, t: int, q: int)
    requires
        q > 0,
    ensures
        modq(modq(s, q) + modq(t, q), q) == modq(s + t, q),
{
    lemma_add_mod_noop(s, t, q);
}

/// The dot product `u · v` in Z_q; fails with `DimensionMismatch` when the
/// lengths differ.
pub fn dot(ring: &Ring, u: &Vec<u64>, v: &Vec<u64>) -> (r: Result<u64, LweError>)
    requires
        ring.wf(),
    ensures
        u.len() != v.len() ==> r == Err::<u64, LweError>(LweError::DimensionMismatch),
        u.len() == v.len() ==> r == Ok::<u64, LweError>(
            modq(dot_sum(u@, v@), ring.q as int) as u64,
        ),
{
    if u.len() != v.len() {
        return Err(LweError::DimensionMismatch);
    }
    let ghost f = |i: int| u@[i] as int * v@[i] as int;
    let mut acc: u64 = 0;
    let mut i: usize = 0;
    proof {
        lemma_small_mod(0, ring.q as nat);
    }
    while i < u.len()
        invariant
            ring.wf(),
            u.len() == v.len(),
            0 <= i <= u.len(),
            f == (|k: int| u@[k] as int * v@[k] as int),
            acc == modq(sum(f, i as int), ring.q as int),
        decreases u.len() - i,
    {
        let p = ring.mul(u[i], v[i]);
        proof {
            lemma_acc_step(sum(f, i as int), f(i as int), ring.q as int);
            assert(sum(f, i + 1) == sum(f, i as int) + f(i as int));
        }
        acc = ring.add(acc, p);
        i = i + 1;
    }
    Ok(acc)
}

/// The product `a · v` of a matrix and a vector in Z_q; fails with
/// `DimensionMismatch` unless every row of `a` has as many entries as `v`.
pub fn mat_vec_mul(ring: &Ring, a: &Vec<Vec<u64>>, v: &Vec<u64>) -> (r: Result<
    Vec<u64>,
    LweError,
>)
    requires
        ring.wf(),
    ensures
        !rectangular(a@, v.len() as int) ==> r == Err::<Vec<u64>, LweError>(
            LweError::DimensionMismatch,
        ),
        rectangular(a@, v.len() as int) ==> r is Ok,
        r matches Ok(w) ==> w.len() == a.len() && forall|i: int|
            0 <= i < a.len() ==> #[trigger] w@[i] == modq(dot_sum(a@[i]@, v@), ring.q as int),
{
    let mut out: Vec<u64> = Vec::new();
    let mut i: usize = 0;
    while i < a.len()
        invariant
            ring.wf(),
            0 <= i <= a.len(),
            out.len() == i,
            rectangular(a@.take(i as int), v.len() as int),
            forall|k: int|
                0 <= k < i ==> #[trigger] out@[k] == modq(dot_sum(a@[k]@, v@), ring.q as int),
        decreases a.len() - i,
    {
        match dot(ring, &a[i], v) {
            Ok(x) => out.push(x),
            Err(e) => {
                assert(a@[i as int]@.len() != v.len());
                return Err(e);
            },
        }
        assert(a@.take(i + 1) =~= a@.take(i as int).push(a@[i as int]));
        i = i + 1;
    }
    assert(a@.take(a.len() as int) =~= a@);
    Ok(out)
}

/// The product `aᵀ · r` of the transpose of an `m × n` matrix and a vector of
/// length `m`, in Z_q; fails with `DimensionMismatch` unless `a` has
/// `r.len()` rows of `n` entries each.
pub fn transpose_mul(ring: &Ring, a: &Vec<Vec<u64>>, n: usize, r: &Vec<u64>) -> (res: Result<
    Vec<u64>,
    LweError,
>)
    requires
        ring.wf(),
    ensures
        !(a.len() == r.len() && rectangular(a@, n as int)) ==> res == Err::<
            Vec<u64>,
            LweError,
        >(LweError::DimensionMismatch),
        a.len() == r.len() && rectangular(a@, n as int) ==> res is Ok,
        res matches Ok(u) ==> u.len() == n && forall|j: int|
            0 <= j < n ==> #[trigger] u@[j] == modq(col_sum(a@, r@, j), ring.q as int),
{
    if a.len() != r.len() {
        return Err(LweError::DimensionMismatch);
    }
    let mut i: usize = 0;
    while i < a.len()
        invariant
            0 <= i <= a.len(),
            forall|k: int| 0 <= k < i ==> #[trigger] a@[k]@.len() == n,
        decreases a.len() - i,
    {
        if a[i].len() != n {
            return Err(LweError::DimensionMismatch);
        }
        i = i + 1;
    }
    let mut out: Vec<u64> = Vec::new();
    let mut j: usize = 0;
    while j < n
        invariant
            ring.wf(),
            a.len() == r.len(),
            rectangular(a@, n as int),
            0 <= j <= n,
            out.len() == j,
            forall|k: int|
                0 <= k < j ==> #[trigger] out@[k] == modq(col_sum(a@, r@, k), ring.q as int),
        decreases n - j,
    {
        let ghost f = |i: int| a@[i]@[j as int] as int * r@[i] as int;
        let mut acc: u64 = 0;
        let mut i: usize = 0;
        proof {
            lemma_small_mod(0, ring.q as nat);
        }
        while i < a.len()
            invariant
                ring.wf(),
                a.len() == r.len(),
                rectangular(a@, n as int),
                j < n,
                0 <= i <= a.len(),
                f == (|k: int| a@[k]@[j as int] as int * r@[k] as int),
                acc == modq(sum(f, i as int), ring.q as int),
            decreases a.len() - i,
        {
            assert(a@[i as int]@.len() == n);
            let p = ring.mul(a[i][j], r[i]);
            proof {
                lemma_acc_step(sum(f, i as int), f(i as int), ring.q as int);
                assert(sum(f, i + 1) == sum(f, i as int) + f(i as int));
            }
            acc = ring.add(acc, p);
            i = i + 1;
        }
        out.push(acc);
        j = j + 1;
    }
    Ok(out)
}

/// The element-wise sum `u + v` in Z_q; fails with `DimensionMismatch` when
/// the lengths differ.
pub fn vec_add(ring: &Ring, u: &Vec<u64>, v: &Vec<u64>) -> (r: Result<Vec<u64>, LweError>)
    requires
        ring.wf(),
    ensures
        u.len() != v.len() ==> r == Err::<Vec<u64>, LweError>(LweError::DimensionMismatch),
        u.len() == v.len() ==> r is Ok,
        r matches Ok(w) ==> w.len() == u.len() && forall|i: int|
            0 <= i < u.len() ==> #[trigger] w@[i] == modq(u@[i] + v@[i], ring.q as int),
{
    if u.len() != v.len() {
        return Err(LweError::DimensionMismatch);
    }
    let mut out: Vec<u64> = Vec::new();
    let mut i: usize = 0;
    while i < u.len()
        invariant
            ring.wf(),
            u.len() == v.len(),
            0 <= i <= u.len(),
            out.len() == i,
            forall|k: int|
                0 <= k < i ==> #[trigger] out@[k] == modq(u@[k] + v@[k], ring.q as int),
        decreases u.len() - i,
    {
        out.push(ring.add(u[i], v[i]));
        i = i + 1;
    }
    Ok(out)
}

/// The vector `c · v` in Z_q.
pub fn scale(ring: &Ring, c: u64, v: &Vec<u64>) -> (w: Vec<u64>)
    requires
        ring.wf(),
    ensures
        w.len() == v.len(),
        forall|i: int| 0 <= i < v.len() ==> #[trigger] w@[i] == modq(c * v@[i], ring.q as int),
{
    let mut out: Vec<u64> = Vec::new();
    let mut i: usize = 0;
    while i < v.len()
        invariant
            ring.wf(),
            0 <= i <= v.len(),
            out.len() == i,
            forall|k: int| 0 <= k < i ==> #[trigger] out@[k] == modq(c * v@[k], ring.q as int),
        decreases v.len() - i,
    {
        out.push(ring.mul(c, v[i]));
        i = i + 1;
    }
    out
}

/// The matrix `[a | b]` whose row `i` is row `i` of `a` followed by row `i`
/// of `b`; fails with `DimensionMismatch` when the row counts differ.
pub fn hconcat(a: &Vec<Vec<u64>>, b: &Vec<Vec<u64>>) -> (r: Result<Vec<Vec<u64>>, LweError>)
    ensures
        a.len() != b.len() ==> r == Err::<Vec<Vec<u64>>, LweError>(LweError::DimensionMismatch),
        a.len() == b.len() ==> r is Ok,
        r matches Ok(c) ==> c.len() == a.len() && forall|i: int|
            0 <= i < a.len() ==> #[trigger] c@[i]@ == a@[i]@ + b@[i]@,
{
    if a.len() != b.len() {
        return Err(LweError::DimensionMismatch);
    }
    let mut out: Vec<Vec<u64>> = Vec::new();
    let mut i: usize = 0;
    while i < a.len()
        invariant
            a.len() == b.len(),
            0 <= i <= a.len(),
            out.len() == i,
            forall|k: int| 0 <= k < i ==> #[trigger] out@[k]@ == a@[k]@ + b@[k]@,
        decreases a.len() - i,
    {
        let mut row: Vec<u64> = Vec::new();
        let mut j: usize = 0;
        while j < a[i].len()
            invariant
                i < a.len(),
                0 <= j <= a@[i as int].len(),
                row@ == a@[i as int]@.take(j as int),
            decreases a@[i as int].len() - j,
        {
            row.push(a[i][j]);
            assert(a@[i as int]@.take(j + 1) =~= a@[i as int]@.take(j as int).push(
                a@[i as int]@[j as int],
            ));
            j = j + 1;
        }
        let mut k: usize = 0;
        while k < b[i].len()
            invariant
                i < b.len(),
                0 <= k <= b@[i as int].len(),
                row@ == a@[i as int]@ + b@[i as int]@.take(k as int),
            decreases b@[i as int].len() - k,
        {
            row.push(b[i][k]);
            assert(b@[i as int]@.take(k + 1) =~= b@[i as int]@.take(k as int).push(
                b@[i as int]@[k as int],
            ));
            k = k + 1;
        }
        assert(a@[i as int]@.take(a@[i as int].len() as int) =~= a@[i as int]@);
        assert(b@[i as int]@.take(b@[i as int].len() as int) =~= b@[i as int]@);
        out.push(row);
        i = i + 1;
    }
    Ok(out)
}

} // verus!
