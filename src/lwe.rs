//! The scheme: key generation, public-key derivation, encryption of one bit
//! and rounding decryption.
use vstd::prelude::*;
use rand::rngs::StdRng;
use crate::ring::{LweError, Ring, modq, signed};
use crate::sums::{dot_sum, col_sum, rectangular};
use crate::linalg::{dot, mat_vec_mul, transpose_mul, vec_add};
use crate::sampler::{
    all_bits, all_elems, all_small, matrix_elems, sample_bits, sample_error_vector, sample_matrix,
    sample_uniform_vector,
};

verus! {

/// The secret vector `s` of `n` ring elements.
#[derive(Debug)]
pub struct SecretKey {
    pub s: Vec<u64>,
}

/// The public pair `(a, b)`: `a` is an `m × n` matrix (a sequence of rows)
/// and `b = a·s + e` for the secret `s` and a small error `e`.
#[derive(Debug)]
pub struct PublicKey {
    pub a: Vec<Vec<u64>>,
    pub b: Vec<u64>,
}

/// The number of columns of a matrix given as rows (0 for no rows).
pub open spec fn cols_of(a: Seq<Vec<u64>>) -> int {
    if a.len() == 0 { 0 } else { a[0]@.len() as int }
}

/// `b[i] == a[i]·s + e[i]` in Z_q for every row `i`.
pub open spec fn is_lwe_sample(
    a: Seq<Vec<u64>>,
    b: Seq<u64>,
    s: Seq<u64>,
    e: Seq<u64>,
    q: int,
) -> bool {
    &&& b.len() == a.len()
    &&& e.len() == a.len()
    &&& forall|i: int| 0 <= i < a.len() ==> #[trigger] b[i] == modq(dot_sum(a[i]@, s) + e[i], q)
}

/// The encoding of a bit: `floor(q/2)` for 1, 0 for 0.
pub open spec fn encode(bit: bool, q: int) -> int {
    if bit { q / 2 } else { 0 }
}

/// `c` is the encryption of `bit` under `(a, b)` with the random bit vector
/// `r`: `c[0] == b·r + encode(bit)` and `c[1..] == aᵀ·r`, in Z_q.
pub open spec fn encrypts(
    c: Seq<u64>,
    bit: bool,
    a: Seq<Vec<u64>>,
    b: Seq<u64>,
    r: Seq<u64>,
    q: int,
) -> bool {
    &&& c.len() == cols_of(a) + 1
    &&& c[0] == modq(dot_sum(b, r) + encode(bit, q), q)
    &&& forall|j: int| 0 <= j < cols_of(a) ==> #[trigger] c[j + 1] == modq(col_sum(a, r, j), q)
}

/// `c[0] - s·c[1..]` in Z_q.
pub open spec fn phase(c: Seq<u64>, s: Seq<u64>, q: int) -> int {
    modq(c[0] - dot_sum(s, c.subrange(1, c.len() as int)), q)
}

/// Rounding: `x` decodes to 1 when its signed representative is closer to
/// `q/2` than to 0, that is when `q < 4x < 3q`.
pub open spec fn decode(x: int, q: int) -> bool {
    q < 4 * x && 4 * x < 3 * q
}

/// The shape that encryption needs: one entry of `b` per row of `a`, all rows
/// of equal length.
pub open spec fn pk_shape(a: Seq<Vec<u64>>, b: Seq<u64>) -> bool {
    b.len() == a.len() && rectangular(a, cols_of(a))
}

/// Draws a secret key of `n` uniform ring elements.
pub fn keygen(ring: &Ring, n: usize, rng: &mut StdRng) -> (sk: SecretKey)
    requires
        ring.wf(),
        n >= 1,
    ensures
        sk.s.len() == n,
        all_elems(sk.s@, ring.q as int),
{
    SecretKey { s: sample_uniform_vector(ring, rng, n) }
}

/// Builds the public key `(a, a·s + e)` from a drawn matrix `a` and error
/// vector `e`; fails with `DimensionMismatch` unless `a` has one row per entry
/// of `e` and every row has as many entries as `s`.
pub fn public_key_from_samples(
    ring: &Ring,
    sk: &SecretKey,
    a: Vec<Vec<u64>>,
    e: &Vec<u64>,
) -> (r: Result<PublicKey, LweError>)
    requires
        ring.wf(),
    ensures
        !(a.len() == e.len() && rectangular(a@, sk.s.len() as int)) ==> r == Err::<
            PublicKey,
            LweError,
        >(LweError::DimensionMismatch),
        a.len() == e.len() && rectangular(a@, sk.s.len() as int) ==> r is Ok,
        r matches Ok(pk) ==> pk.a@ == a@ && is_lwe_sample(pk.a@, pk.b@, sk.s@, e@, ring.q as int),
{
    if a.len() != e.len() {
        return Err(LweError::DimensionMismatch);
    }
    let prod = match mat_vec_mul(ring, &a, &sk.s) {
        Ok(p) => p,
        Err(err) => return Err(err),
    };
    let b = match vec_add(ring, &prod, e) {
        Ok(v) => v,
        Err(err) => return Err(err),
    };
    proof {
        assert forall|i: int| 0 <= i < a.len() implies #[trigger] b@[i] == modq(
            dot_sum(a@[i]@, sk.s@) + e@[i],
            ring.q as int,
        ) by {
            vstd::arithmetic::div_mod::lemma_add_mod_noop(
                dot_sum(a@[i]@, sk.s@),
                e@[i] as int,
                ring.q as int,
            );
            vstd::arithmetic::div_mod::lemma_add_mod_noop_right(
                modq(dot_sum(a@[i]@, sk.s@), ring.q as int),
                e@[i] as int,
                ring.q as int,
            );
            vstd::arithmetic::div_mod::lemma_mod_twice(dot_sum(a@[i]@, sk.s@), ring.q as int);
            vstd::arithmetic::div_mod::lemma_add_mod_noop_right(
                dot_sum(a@[i]@, sk.s@),
                e@[i] as int,
                ring.q as int,
            );
        }
    }
    Ok(PublicKey { a, b })
}

/// Derives a fresh public key for `sk`: draws a uniform `m × n` matrix `a` and
/// an error vector `e` with entries in `-noise_bound ..= noise_bound`, and
/// returns `(a, a·s + e)`.
pub fn public_key(
    ring: &Ring,
    sk: &SecretKey,
    m: usize,
    noise_bound: u64,
    rng: &mut StdRng,
) -> (pk: PublicKey)
    requires
        ring.wf(),
        m >= 1,
        2 * noise_bound < ring.q,
    ensures
        pk.a.len() == m,
        rectangular(pk.a@, sk.s.len() as int),
        matrix_elems(pk.a@, ring.q as int),
        exists|e: Seq<u64>|
            all_small(e, noise_bound as int, ring.q as int) && is_lwe_sample(
                pk.a@,
                pk.b@,
                sk.s@,
                e,
                ring.q as int,
            ),
{
    let a = sample_matrix(ring, rng, m, sk.s.len());
    let e = sample_error_vector(ring, rng, m, noise_bound);
    match public_key_from_samples(ring, sk, a, &e) {
        Ok(pk) => {
            assert(all_small(e@, noise_bound as int, ring.q as int));
            pk
        },
        Err(_) => {
            assert(false);
            PublicKey { a: Vec::new(), b: Vec::new() }
        },
    }
}

/// Encrypts `bit` under `pk` with the given bit vector `r` (one entry per row
/// of `a`): returns `(b·r + encode(bit), aᵀ·r)`. Fails with
/// `DimensionMismatch` unless `pk` has one entry of `b` per row of `a`, all
/// rows of equal length, and `r` has one entry per row.
pub fn encrypt_with(ring: &Ring, bit: bool, pk: &PublicKey, r: &Vec<u64>) -> (res: Result<
    Vec<u64>,
    LweError,
>)
    requires
        ring.wf(),
    ensures
        !(pk_shape(pk.a@, pk.b@) && r.len() == pk.a.len()) ==> res == Err::<Vec<u64>, LweError>(
            LweError::DimensionMismatch,
        ),
        pk_shape(pk.a@, pk.b@) && r.len() == pk.a.len() ==> res is Ok,
        res matches Ok(c) ==> encrypts(c@, bit, pk.a@, pk.b@, r@, ring.q as int),
{
    let n: usize = if pk.a.len() == 0 {
        0
    } else {
        pk.a[0].len()
    };
    if pk.b.len() != pk.a.len() {
        return Err(LweError::DimensionMismatch);
    }
    let u = match transpose_mul(ring, &pk.a, n, r) {
        Ok(u) => u,
        Err(err) => return Err(err),
    };
    let v0 = match dot(ring, &pk.b, r) {
        Ok(x) => x,
        Err(err) => return Err(err),
    };
    let h: u64 = if bit {
        ring.half()
    } else {
        0
    };
    let v = ring.add(v0, h);
    proof {
        let q = ring.q as int;
        vstd::arithmetic::div_mod::lemma_small_mod(h as nat, q as nat);
        vstd::arithmetic::div_mod::lemma_add_mod_noop(dot_sum(pk.b@, r@), h as int, q);
        vstd::arithmetic::div_mod::lemma_mod_twice(dot_sum(pk.b@, r@), q);
    }
    let mut c: Vec<u64> = Vec::new();
    c.push(v);
    let mut j: usize = 0;
    while j < n
        invariant
            0 <= j <= n,
            u.len() == n,
            c.len() == j + 1,
            c@[0] == v,
            forall|k: int| 0 <= k < j ==> #[trigger] c@[k + 1] == u@[k],
        decreases n - j,
    {
        c.push(u[j]);
        j = j + 1;
    }
    Ok(c)
}

/// Encrypts `bit` under `pk` with a fresh random bit vector `r` drawn from
/// `rng`. Fails with `DimensionMismatch` unless `pk` has one entry of `b` per
/// row of `a` and all rows of equal length.
pub fn encrypt(ring: &Ring, bit: bool, pk: &PublicKey, rng: &mut StdRng) -> (res: Result<
    Vec<u64>,
    LweError,
>)
    requires
        ring.wf(),
    ensures
        !pk_shape(pk.a@, pk.b@) ==> res == Err::<Vec<u64>, LweError>(
            LweError::DimensionMismatch,
        ),
        pk_shape(pk.a@, pk.b@) ==> res is Ok,
        res matches Ok(c) ==> exists|r: Seq<u64>|
            r.len() == pk.a.len() && all_bits(r) && encrypts(
                c@,
                bit,
                pk.a@,
                pk.b@,
                r,
                ring.q as int,
            ),
{
    let r = sample_bits(rng, pk.a.len());
    let res = encrypt_with(ring, bit, pk, &r);
    assert(res matches Ok(c) ==> r@.len() == pk.a.len() && all_bits(r@) && encrypts(
        c@,
        bit,
        pk.a@,
        pk.b@,
        r@,
        ring.q as int,
    ));
    res
}

/// Decrypts the ciphertext `c` with `sk`: rounds `c[0] - s·c[1..]` to the
/// nearer of 0 and `q/2`. Fails with `DimensionMismatch` unless `c` has one
/// more entry than `s`.
pub fn decrypt(ring: &Ring, c: &Vec<u64>, sk: &SecretKey) -> (res: Result<bool, LweError>)
    requires
        ring.wf(),
    ensures
        c.len() != sk.s.len() + 1 ==> res == Err::<bool, LweError>(LweError::DimensionMismatch),
        c.len() == sk.s.len() + 1 ==> res == Ok::<bool, LweError>(
            decode(phase(c@, sk.s@, ring.q as int), ring.q as int),
        ),
{
    if c.len() == 0 || c.len() - 1 != sk.s.len() {
        return Err(LweError::DimensionMismatch);
    }
    let mut tail: Vec<u64> = Vec::new();
    let mut j: usize = 1;
    while j < c.len()
        invariant
            1 <= j <= c.len(),
            tail@ == c@.subrange(1, j as int),
        decreases c.len() - j,
    {
        tail.push(c[j]);
        assert(c@.subrange(1, j + 1) =~= c@.subrange(1, j as int).push(c@[j as int]));
        j = j + 1;
    }
    let d = match dot(ring, &sk.s, &tail) {
        Ok(d) => d,
        Err(err) => return Err(err),
    };
    let x = ring.sub(c[0], d);
    proof {
        vstd::arithmetic::div_mod::lemma_sub_mod_noop_right(
            c@[0] as int,
            dot_sum(sk.s@, tail@),
            ring.q as int,
        );
    }
    let q = ring.q as u128;
    let x4 = x as u128 * 4;
    Ok(q < x4 && x4 < 3 * q)
}

/// Every row of the public key satisfies `b[i] - a[i]·s == e[i]` for an error
/// whose signed representative lies in `[-bound, bound]`.
pub open spec fn within_noise(a: Seq<Vec<u64>>, b: Seq<u64>, s: Seq<u64>, bound: int, q: int) -> bool {
    forall|i: int|
        0 <= i < a.len() ==> -bound <= #[trigger] signed(
            modq(b[i] - dot_sum(a[i]@, s), q),
            q,
        ) <= bound
}

/// Checks a public key against the secret key: `b` has one entry per row of
/// `a`, every row has as many entries as `s`, and each `b[i] - a[i]·s` is an
/// error within `[-noise_bound, noise_bound]`.
pub fn is_public_key_correct(ring: &Ring, pk: &PublicKey, sk: &SecretKey, noise_bound: u64) -> (ok:
    bool)
    requires
        ring.wf(),
    ensures
        ok == (pk.b.len() == pk.a.len() && rectangular(pk.a@, sk.s.len() as int) && within_noise(
            pk.a@,
            pk.b@,
            sk.s@,
            noise_bound as int,
            ring.q as int,
        )),
{
    if pk.b.len() != pk.a.len() {
        return false;
    }
    let q = ring.q as u128;
    let mut i: usize = 0;
    while i < pk.a.len()
        invariant
            ring.wf(),
            q == ring.q,
            pk.b.len() == pk.a.len(),
            0 <= i <= pk.a.len(),
            rectangular(pk.a@.take(i as int), sk.s.len() as int),
            within_noise(pk.a@.take(i as int), pk.b@, sk.s@, noise_bound as int, ring.q as int),
        decreases pk.a.len() - i,
    {
        let d = match dot(ring, &pk.a[i], &sk.s) {
            Ok(d) => d,
            Err(_) => {
                assert(!rectangular(pk.a@, sk.s.len() as int)) by {
                    assert(pk.a@[i as int]@.len() != sk.s.len());
                }
                return false;
            },
        };
        let x = ring.sub(pk.b[i], d);
        proof {
            vstd::arithmetic::div_mod::lemma_sub_mod_noop_right(
                pk.b@[i as int] as int,
                dot_sum(pk.a@[i as int]@, sk.s@),
                ring.q as int,
            );
        }
        let small = if x as u128 * 2 <= q {
            x <= noise_bound
        } else {
            ring.q - x <= noise_bound
        };
        if !small {
            assert(!within_noise(pk.a@, pk.b@, sk.s@, noise_bound as int, ring.q as int)) by {
                assert(-(noise_bound as int) <= signed(
                    modq(pk.b@[i as int] - dot_sum(pk.a@[i as int]@, sk.s@), ring.q as int),
                    ring.q as int,
                ) <= noise_bound ==> small);
            }
            return false;
        }
        assert(pk.a@.take(i + 1) =~= pk.a@.take(i as int).push(pk.a@[i as int]));
        i = i + 1;
    }
    assert(pk.a@.take(pk.a.len() as int) =~= pk.a@);
    true
}

} // verus!
