//! Arithmetic in the ring Z_q.
use vstd::prelude::*;
use vstd::arithmetic::div_mod::{
    lemma_add_mod_noop, lemma_mul_mod_noop, lemma_small_mod, lemma_sub_mod_noop,
    lemma_mod_add_multiples_vanish,
};

verus! {

/// Errors that the scheme reports to its callers.
#[derive(Debug, Clone, Copy, PartialEq, Eq, Structural)]
pub enum LweError {
    /// The modulus is too small to carry the scheme (`q <= 2`).
    InvalidModulus,
    /// Operand shapes disagree in a linear-algebra call.
    DimensionMismatch,
}

/// The ring Z_q. Its elements are the integers `0 .. q`, held as `u64`.
#[derive(Debug, Clone, Copy)]
pub struct Ring {
    pub q: u64,
}

/// The residue of `x` in `0 .. q`.
pub open spec fn modq(x: int, q: int) -> int {
    x % q
}

/// The signed representative of an element: the integer in `(-q/2, q/2]`
/// congruent to `x`.
pub open spec fn signed(x: int, q: int) -> int {
    if 2 * x <= q { x } else { x - q }
}

impl Ring {
    /// The ring's modulus is large enough.
    pub open spec fn wf(&self) -> bool {
        self.q > 2
    }

    /// `x` is an element of the ring.
    pub open spec fn is_elem(&self, x: u64) -> bool {
        x < self.q
    }

    /// Sets up the ring Z_q; fails with `InvalidModulus` when `q <= 2`.
    pub fn new(q: u64) -> (r: Result<Ring, LweError>)
        ensures
            q > 2 ==> r == Ok::<Ring, LweError>(Ring { q }),
            q <= 2 ==> r == Err::<Ring, LweError>(LweError::InvalidModulus),
    {
        if q > 2 {
            Ok(Ring { q })
        } else {
            Err(LweError::InvalidModulus)
        }
    }

    /// `floor(q / 2)`, the encoding of the bit 1.
    pub fn half(&self) -> (r: u64)
        requires
            self.wf(),
        ensures
            r == self.q / 2,
            r < self.q,
    {
        self.q / 2
    }

    /// Reduces an arbitrary integer into the ring.
    pub fn reduce(&self, x: u64) -> (r: u64)
        requires
            self.wf(),
        ensures
            r == modq(x as int, self.q as int),
            r < self.q,
    {
        x % self.q
    }

    /// `(x + y) mod q`.
    pub fn add(&self, x: u64, y: u64) -> (r: u64)
        requires
            self.wf(),
        ensures
            r == modq(x + y, self.q as int),
            r < self.q,
    {
        let q = self.q as u128;
        let s = (x as u128 % q) + (y as u128 % q);
        proof {
            lemma_add_mod_noop(x as int, y as int, q as int);
        }
        (s % q) as u64
    }

    /// `(x - y) mod q`.
    pub fn sub(&self, x: u64, y: u64) -> (r: u64)
        requires
            self.wf(),
        ensures
            r == modq(x - y, self.q as int),
            r < self.q,
    {
        let q = self.q;
        let xr = x % q;
        let yr = y % q;
        proof {
            lemma_sub_mod_noop(x as int, y as int, q as int);
        }
        if xr >= yr {
            proof {
                lemma_small_mod((xr - yr) as nat, q as nat);
            }
            xr - yr
        } else {
            proof {
                lemma_mod_add_multiples_vanish(xr - yr, q as int);
                lemma_small_mod((q + xr - yr) as nat, q as nat);
            }
            q - yr + xr
        }
    }

    /// `(-x) mod q`.
    pub fn neg(&self, x: u64) -> (r: u64)
        requires
            self.wf(),
        ensures
            r == modq(-x, self.q as int),
            r < self.q,
    {
        let r = self.sub(0, x);
        assert(0 - x == -x);
        r
    }

    /// `(x * y) mod q`.
    pub fn mul(&self, x: u64, y: u64) -> (r: u64)
        requires
            self.wf(),
        ensures
            r == modq(x * y, self.q as int),
            r < self.q,
    {
        let q = self.q as u128;
        let xr = x as u128 % q;
        let yr = y as u128 % q;
        assert(xr * yr <= u128::MAX) by (nonlinear_arith)
            requires xr < q, yr < q, q <= u64::MAX;
        proof {
            lemma_mul_mod_noop(x as int, y as int, q as int);
        }
        ((xr * yr) % q) as u64
    }
}

} // verus!
