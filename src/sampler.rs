//! Drawing ring elements, small errors and bits from a seeded generator.
use vstd::prelude::*;
use vstd::arithmetic::div_mod::{lemma_small_mod, lemma_mod_add_multiples_vanish};
use rand::Rng;
use rand::rngs::StdRng;
use crate::ring::{Ring, modq, signed};
use crate::sums::rectangular;

verus! {

/// rand's `StdRng`, the seeded generator that every draw comes from; opaque here.
#[verifier::external_type_specification]
#[verifier::external_body]
pub struct ExStdRng(StdRng);

/// Relies on rand's `Rng::gen_range` over `low..high`: it returns a value of
/// that range, and panics only on an empty range.
#[verifier::external_body]
fn draw_below(rng: &mut StdRng, bound: u64) -> (r: u64)
    requires
        bound > 0,
    ensures
        r < bound,
{
    rng.gen_range(0..bound)
}

/// Relies on rand's `Rng::gen::<bool>`: a fair coin.
#[verifier::external_body]
fn draw_bit(rng: &mut StdRng) -> (r: bool) {
    rng.gen::<bool>()
}

/// `e` is an element of Z_q whose signed representative lies in
/// `[-bound, bound]`.
pub open spec fn small_error(e: u64, bound: int, q: int) -> bool {
    e < q && -bound <= signed(e as int, q) <= bound
}

/// All entries of `v` are elements of Z_q.
pub open spec fn all_elems(v: Seq<u64>, q: int) -> bool {
    forall|i: int| 0 <= i < v.len() ==> #[trigger] v[i] < q
}

/// All entries of `v` are small errors.
pub open spec fn all_small(v: Seq<u64>, bound: int, q: int) -> bool {
    forall|i: int| 0 <= i < v.len() ==> #[trigger] small_error(v[i], bound, q)
}

/// All entries of `v` are 0 or 1.
pub open spec fn all_bits(v: Seq<u64>) -> bool {
    forall|i: int| 0 <= i < v.len() ==> #[trigger] v[i] <= 1
}

/// All entries of the matrix `a` are elements of Z_q.
pub open spec fn matrix_elems(a: Seq<Vec<u64>>, q: int) -> bool {
    forall|i: int| 0 <= i < a.len() ==> #[trigger] all_elems(a[i]@, q)
}

/// The error encoded by a draw `raw` from `0 ..= 2 * bound`: `raw - bound`
/// taken into Z_q.
pub fn error_from_draw(ring: &Ring, raw: u64, bound: u64) -> (e: u64)
    requires
        ring.wf(),
        2 * bound < ring.q,
        raw <= 2 * bound,
    ensures
        e == modq(raw - bound, ring.q as int),
        signed(e as int, ring.q as int) == raw - bound,
        small_error(e, bound as int, ring.q as int),
{
    let q = ring.q;
    if raw >= bound {
        proof {
            lemma_small_mod((raw - bound) as nat, q as nat);
        }
        raw - bound
    } else {
        proof {
            lemma_mod_add_multiples_vanish(raw - bound, q as int);
            lemma_small_mod((q + raw - bound) as nat, q as nat);
        }
        q - (bound - raw)
    }
}

/// `count` elements drawn uniformly from Z_q.
pub fn sample_uniform_vector(ring: &Ring, rng: &mut StdRng, count: usize) -> (v: Vec<u64>)
    requires
        ring.wf(),
    ensures
        v.len() == count,
        all_elems(v@, ring.q as int),
{
    let mut v: Vec<u64> = Vec::new();
    let mut i: usize = 0;
    while i < count
        invariant
            ring.wf(),
            0 <= i <= count,
            v.len() == i,
            all_elems(v@, ring.q as int),
        decreases count - i,
    {
        let x = draw_below(rng, ring.q);
        v.push(x);
        i = i + 1;
    }
    v
}

/// A `rows × cols` matrix of elements drawn uniformly from Z_q.
pub fn sample_matrix(ring: &Ring, rng: &mut StdRng, rows: usize, cols: usize) -> (a: Vec<
    Vec<u64>,
>)
    requires
        ring.wf(),
    ensures
        a.len() == rows,
        rectangular(a@, cols as int),
        matrix_elems(a@, ring.q as int),
{
    let mut a: Vec<Vec<u64>> = Vec::new();
    let mut i: usize = 0;
    while i < rows
        invariant
            ring.wf(),
            0 <= i <= rows,
            a.len() == i,
            rectangular(a@, cols as int),
            matrix_elems(a@, ring.q as int),
        decreases rows - i,
    {
        let row = sample_uniform_vector(ring, rng, cols);
        a.push(row);
        i = i + 1;
    }
    a
}

/// `count` errors, each drawn uniformly from `-bound ..= bound` and taken into Z_q.
pub fn sample_error_vector(ring: &Ring, rng: &mut StdRng, count: usize, bound: u64) -> (v: Vec<
    u64,
>)
    requires
        ring.wf(),
        2 * bound < ring.q,
    ensures
        v.len() == count,
        all_small(v@, bound as int, ring.q as int),
{
    let mut v: Vec<u64> = Vec::new();
    let mut i: usize = 0;
    while i < count
        invariant
            ring.wf(),
            2 * bound < ring.q,
            0 <= i <= count,
            v.len() == i,
            all_small(v@, bound as int, ring.q as int),
        decreases count - i,
    {
        let raw = draw_below(rng, 2 * bound + 1);
        let e = error_from_draw(ring, raw, bound);
        v.push(e);
        i = i + 1;
    }
    v
}

/// `count` independent fair bits, as the ring elements 0 and 1.
pub fn sample_bits(rng: &mut StdRng, count: usize) -> (v: Vec<u64>)
    ensures
        v.len() == count,
        all_bits(v@),
{
    let mut v: Vec<u64> = Vec::new();
    let mut i: usize = 0;
    while i < count
        invariant
            0 <= i <= count,
            v.len() == i,
            all_bits(v@),
        decreases count - i,
    {
        let b = draw_bit(rng);
        v.push(if b { 1 } else { 0 });
        i = i + 1;
    }
    v
}

} // verus!
