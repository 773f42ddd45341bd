//! Why decryption recovers the encrypted bit.
use vstd::prelude::*;
use vstd::arithmetic::div_mod::{
    lemma_add_mod_noop, lemma_fundamental_div_mod, lemma_mod_add_multiples_vanish,
    lemma_mod_multiples_vanish, lemma_mul_mod_noop_left, lemma_mul_mod_noop_right, lemma_small_mod,
    lemma_sub_mod_noop, lemma_sub_mod_noop_right,
};
use crate::ring::{modq, signed};
use crate::sums::{
    sum, dot_sum, col_sum, rectangular, lemma_sum_add, lemma_sum_bound, lemma_sum_ext,
    lemma_sum_mod, lemma_sum_scale, lemma_sum_swap,
};
use crate::sampler::{all_bits, all_small, small_error};
use crate::lwe::{cols_of, decode, encode, encrypts, is_lwe_sample, phase, within_noise};

verus! {

/// The noise that decryption has to round away: `Σ r[i]·signed(e[i])`.
pub open spec fn noise(e: Seq<u64>, r: Seq<u64>, q: int) -> int {
    sum(|i: int| signed(e[i] as int, q) * r[i] as int, e.len() as int)
}

proof fn lemma_cong_add(x: int, x2: int, k: int, q: int)
    requires
        q > 0,
        x % q == x2 % q,
    ensures
        (x + k) % q == (x2 + k) % q,
{
    lemma_add_mod_noop(x, k, q);
    lemma_add_mod_noop(x2, k, q);
}

proof fn lemma_cong_sub(z: int, y: int, y2: int, q: int)
    requires
        q > 0,
        y % q == y2 % q,
    ensures
        (z - y) % q == (z - y2) % q,
{
    lemma_sub_mod_noop(z, y, q);
    lemma_sub_mod_noop(z, y2, q);
}

/// Rounding recovers `bit` from `N + encode(bit)` whenever `4|N| + 2 < q`.
proof fn lemma_round(n: int, bit: bool, q: int)
    requires
        q > 2,
        4 * n + 2 < q,
        -q < 4 * n - 2,
    ensures
        decode(modq(n + encode(bit, q), q), q) == bit,
{
    lemma_fundamental_div_mod(q, 2);
    let h = encode(bit, q);
    if bit {
        assert(0 <= q % 2 < 2);
        assert(0 <= n + h < q);
        lemma_small_mod((n + h) as nat, q as nat);
    } else if n >= 0 {
        lemma_small_mod(n as nat, q as nat);
    } else {
        lemma_mod_add_multiples_vanish(n, q);
        lemma_small_mod((q + n) as nat, q as nat);
    }
}

/// Decryption inverts encryption. For a public key `b == a·s + e` over an
/// `m × n` matrix `a` with `m >= 1`, and any vector `r` of `m` entries, the
/// ciphertext `(b·r + encode(bit), aᵀ·r)` decrypts under `s` to `bit`
/// whenever the noise `N = Σ r[i]·signed(e[i])` satisfies `4|N| + 2 < q`.
pub proof fn lemma_decrypt_encrypt(
    q: int,
    s: Seq<u64>,
    a: Seq<Vec<u64>>,
    b: Seq<u64>,
    e: Seq<u64>,
    r: Seq<u64>,
    bit: bool,
    c: Seq<u64>,
)
    requires
        q > 2,
        a.len() >= 1,
        rectangular(a, s.len() as int),
        is_lwe_sample(a, b, s, e, q),
        r.len() == a.len(),
        encrypts(c, bit, a, b, r, q),
        4 * noise(e, r, q) + 2 < q,
        -q < 4 * noise(e, r, q) - 2,
    ensures
        decode(phase(c, s, q), q) == bit,
{
    let m = a.len() as int;
    let n = s.len() as int;
    assert(cols_of(a) == n) by {
        assert(a[0]@.len() == n);
    }
    let t = |i: int, j: int| s[j] as int * (a[i]@[j] as int * r[i] as int);
    let d = |i: int| dot_sum(a[i]@, s);
    let big_d = sum(|i: int| d(i) * r[i] as int, m);
    let ne = sum(|i: int| e[i] as int * r[i] as int, m);
    let nn = noise(e, r, q);
    let h = encode(bit, q);

    // b·r ≡ Σ (a[i]·s + e[i])·r[i] == D + Σ e[i]·r[i]
    let br = |i: int| b[i] as int * r[i] as int;
    let der = |i: int| (d(i) + e[i] as int) * r[i] as int;
    assert forall|i: int| 0 <= i < m implies #[trigger] br(i) % q == der(i) % q by {
        lemma_mul_mod_noop_left(d(i) + e[i] as int, r[i] as int, q);
    }
    lemma_sum_mod(br, der, m, q);
    assert forall|i: int| 0 <= i < m implies #[trigger] der(i) == d(i) * r[i] as int + e[i] as int
        * r[i] as int by {
        let x = d(i);
        let y = e[i] as int;
        let z = r[i] as int;
        assert((x + y) * z == x * z + y * z) by (nonlinear_arith);
    }
    lemma_sum_add(|i: int| d(i) * r[i] as int, |i: int| e[i] as int * r[i] as int, der, m);
    assert(dot_sum(b, r) == sum(br, m));

    // Σ e[i]·r[i] ≡ N
    assert forall|i: int| 0 <= i < m implies #[trigger] (e[i] as int * r[i] as int) % q == (signed(
        e[i] as int,
        q,
    ) * r[i] as int) % q by {
        let x = e[i] as int;
        let z = r[i] as int;
        if 2 * x > q {
            assert((x - q) * z == q * (-z) + x * z) by (nonlinear_arith);
            lemma_mod_multiples_vanish(-z, x * z, q);
        }
    }
    lemma_sum_mod(
        |i: int| e[i] as int * r[i] as int,
        |i: int| signed(e[i] as int, q) * r[i] as int,
        m,
        q,
    );
    assert(e.len() == m);

    // D == Σ_i Σ_j t(i, j)
    assert forall|i: int| 0 <= i < m implies #[trigger] (d(i) * r[i] as int) == sum(
        |j: int| t(i, j),
        n,
    ) by {
        assert(a[i]@.len() == n);
        assert forall|j: int| 0 <= j < n implies #[trigger] t(i, j) == r[i] as int * (a[i]@[j] as int
            * s[j] as int) by {
            let x = s[j] as int;
            let y = a[i]@[j] as int;
            let z = r[i] as int;
            assert(x * (y * z) == z * (y * x)) by (nonlinear_arith);
        }
        let f = |j: int| a[i]@[j] as int * s[j] as int;
        lemma_sum_scale(f, |j: int| t(i, j), r[i] as int, n);
        lemma_sum_ext(f, |k: int| a[i]@[k] as int * s[k] as int, n);
        assert(d(i) == sum(f, n));
        assert(d(i) * r[i] as int == r[i] as int * sum(f, n)) by (nonlinear_arith)
            requires d(i) == sum(f, n);
    }
    lemma_sum_ext(|i: int| d(i) * r[i] as int, |i: int| sum(|j: int| t(i, j), n), m);
    lemma_sum_swap(t, m, n);

    // s·c[1..] ≡ Σ_j s[j]·col_j == Σ_j Σ_i t(i, j)
    let tail = c.subrange(1, c.len() as int);
    let y = dot_sum(s, tail);
    let sc = |j: int| s[j] as int * tail[j] as int;
    let scol = |j: int| s[j] as int * col_sum(a, r, j);
    assert forall|j: int| 0 <= j < n implies #[trigger] sc(j) % q == scol(j) % q by {
        assert(tail[j] == c[j + 1]);
        lemma_mul_mod_noop_right(s[j] as int, col_sum(a, r, j), q);
    }
    lemma_sum_mod(sc, scol, n, q);
    assert forall|j: int| 0 <= j < n implies #[trigger] scol(j) == sum(|i: int| t(i, j), m) by {
        lemma_sum_scale(
            |i: int| a[i]@[j] as int * r[i] as int,
            |i: int| t(i, j),
            s[j] as int,
            m,
        );
    }
    lemma_sum_ext(scol, |j: int| sum(|i: int| t(i, j), m), n);
    assert(y % q == big_d % q);

    // phase == (N + h) mod q
    let x = dot_sum(b, r) + h;
    assert(c[0] == x % q);
    lemma_sub_mod_noop(x, y, q);
    lemma_sub_mod_noop_right(x % q, y, q);
    lemma_sub_mod_noop(x % q, y, q);
    assert(phase(c, s, q) == (x - y) % q);
    lemma_cong_add(ne, nn, big_d, q);
    assert((dot_sum(b, r)) % q == (big_d + nn) % q);
    lemma_cong_add(dot_sum(b, r), big_d + nn, h - y, q);
    lemma_cong_sub(big_d + nn + h, y, big_d, q);
    assert(phase(c, s, q) == (nn + h) % q);
    lemma_round(nn, bit, q);
}

/// Decryption inverts encryption for every choice of encryption bits once the
/// parameters bound the noise: with `m` rows, a bit vector `r`, errors within
/// `[-bound, bound]` and `4·m·bound + 2 < q`, the ciphertext of `bit`
/// decrypts to `bit`.
pub proof fn lemma_decrypt_encrypt_bounded(
    q: int,
    bound: int,
    s: Seq<u64>,
    a: Seq<Vec<u64>>,
    b: Seq<u64>,
    e: Seq<u64>,
    r: Seq<u64>,
    bit: bool,
    c: Seq<u64>,
)
    requires
        q > 2,
        bound >= 0,
        a.len() >= 1,
        rectangular(a, s.len() as int),
        is_lwe_sample(a, b, s, e, q),
        all_small(e, bound, q),
        r.len() == a.len(),
        all_bits(r),
        encrypts(c, bit, a, b, r, q),
        4 * a.len() * bound + 2 < q,
    ensures
        decode(phase(c, s, q), q) == bit,
{
    let m = a.len() as int;
    let f = |i: int| signed(e[i] as int, q) * r[i] as int;
    assert forall|i: int| 0 <= i < m implies -bound <= #[trigger] f(i) <= bound by {
        assert(small_error(e[i], bound, q));
        assert(r[i] <= 1);
    }
    lemma_sum_bound(f, m, bound);
    assert(e.len() == m);
    lemma_sum_ext(f, |i: int| signed(e[i] as int, q) * r[i] as int, m);
    let nn = noise(e, r, q);
    assert(nn == sum(f, m));
    assert(4 * nn + 2 < q && -q < 4 * nn - 2) by (nonlinear_arith)
        requires
            -(m * bound) <= nn <= m * bound,
            4 * m * bound + 2 < q,
    ;
    lemma_decrypt_encrypt(q, s, a, b, e, r, bit, c);
}

/// A public key `b == a·s + e` with errors within `[-bound, bound]` passes
/// the public-key check: each `b[i] - a[i]·s` is exactly the error `e[i]`.
pub proof fn lemma_public_key_within_noise(
    q: int,
    bound: int,
    s: Seq<u64>,
    a: Seq<Vec<u64>>,
    b: Seq<u64>,
    e: Seq<u64>,
)
    requires
        q > 2,
        is_lwe_sample(a, b, s, e, q),
        all_small(e, bound, q),
    ensures
        within_noise(a, b, s, bound, q),
        forall|i: int| 0 <= i < a.len() ==> #[trigger] modq(b[i] - dot_sum(a[i]@, s), q) == e[i],
{
    assert forall|i: int| 0 <= i < a.len() implies #[trigger] modq(b[i] - dot_sum(a[i]@, s), q)
        == e[i] by {
        let d = dot_sum(a[i]@, s);
        assert(small_error(e[i], bound, q));
        lemma_sub_mod_noop(b[i] as int, d, q);
        lemma_sub_mod_noop(d + e[i], d, q);
        lemma_small_mod(b[i] as nat, q as nat);
        lemma_small_mod(e[i] as nat, q as nat);
        assert((d + e[i]) - d == e[i]);
    }
    assert forall|i: int| 0 <= i < a.len() implies -bound <= #[trigger] signed(
        modq(b[i] - dot_sum(a[i]@, s), q),
        q,
    ) <= bound by {
        assert(small_error(e[i], bound, q));
    }
}

} // verus!
