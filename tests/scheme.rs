use lwe::linalg::{dot, hconcat, mat_vec_mul, scale, transpose_mul, vec_add};
use lwe::lwe::{
    decrypt, encrypt, encrypt_with, is_public_key_correct, keygen, public_key,
    public_key_from_samples, PublicKey, SecretKey,
};
use lwe::ring::{LweError, Ring};
use lwe::sampler::{error_from_draw, sample_bits, sample_error_vector, sample_matrix};
use rand::rngs::StdRng;
use rand::SeedableRng;

fn ring(q: u64) -> Ring {
    Ring::new(q).unwrap()
}

#[test]
fn lib_keygen_works() {
    let n = 10;
    let m = 10;
    let r = ring(40961);
    let mut rng = StdRng::seed_from_u64(0);
    let sk = keygen(&r, n, &mut rng);
    let pk = public_key(&r, &sk, m, 40961 / 64, &mut rng);
    assert!(is_public_key_correct(&r, &pk, &sk, 40961 / 64));
}

#[test]
fn main_keygen_works() {
    let m = 3;
    let n = 3;
    let r = ring(655360001);
    let mut rng = StdRng::seed_from_u64(7);
    let sk = keygen(&r, n, &mut rng);
    let pk = public_key(&r, &sk, m, 1000, &mut rng);
    assert_eq!(pk.a.len(), m);
    assert!(pk.a.iter().all(|row| row.len() == n));
    assert_eq!(pk.b.len(), m);
    assert!(is_public_key_correct(&r, &pk, &sk, 1000));
}

#[test]
fn modulus_too_small_is_rejected() {
    assert_eq!(Ring::new(0).unwrap_err(), LweError::InvalidModulus);
    assert_eq!(Ring::new(2).unwrap_err(), LweError::InvalidModulus);
    assert_eq!(Ring::new(3).unwrap().q, 3);
}

#[test]
fn ring_wraps_around_at_q_minus_one() {
    let q = 40961;
    let r = ring(q);
    let x = q - 1;
    assert_eq!(r.add(x, x), q - 2);
    assert_eq!(r.mul(x, x), 1);
    assert_eq!(r.neg(x), 1);
    assert_eq!(r.neg(0), 0);
    assert_eq!(r.sub(0, 1), q - 1);
    assert_eq!(r.sub(5, 3), 2);
    assert_eq!(r.reduce(q + 7), 7);
    assert_eq!(r.half(), 20480);
}

#[test]
fn ring_handles_largest_modulus() {
    let q = u64::MAX;
    let r = ring(q);
    assert_eq!(r.add(q - 1, q - 1), q - 2);
    assert_eq!(r.mul(q - 1, q - 1), 1);
    assert_eq!(r.neg(1), q - 1);
}

#[test]
fn dot_gives_exact_value() {
    let r = ring(7);
    assert_eq!(dot(&r, &vec![1, 2, 3], &vec![4, 5, 6]), Ok(4));
    assert_eq!(dot(&r, &vec![], &vec![]), Ok(0));
}

#[test]
fn dot_rejects_mismatched_lengths() {
    let r = ring(7);
    assert_eq!(dot(&r, &vec![1, 2, 3], &vec![4, 5]), Err(LweError::DimensionMismatch));
    assert_eq!(dot(&r, &vec![], &vec![1]), Err(LweError::DimensionMismatch));
}

#[test]
fn mat_vec_mul_gives_exact_value() {
    let r = ring(17);
    let a = vec![vec![1, 2], vec![3, 4]];
    assert_eq!(mat_vec_mul(&r, &a, &vec![5, 6]), Ok(vec![0, 5]));
}

#[test]
fn mat_vec_mul_rejects_mismatched_lengths() {
    let r = ring(17);
    let a = vec![vec![1, 2], vec![3, 4]];
    assert_eq!(mat_vec_mul(&r, &a, &vec![5, 6, 7]), Err(LweError::DimensionMismatch));
    let ragged = vec![vec![1, 2], vec![3]];
    assert_eq!(mat_vec_mul(&r, &ragged, &vec![5, 6]), Err(LweError::DimensionMismatch));
}

#[test]
fn transpose_mul_gives_exact_value() {
    let r = ring(17);
    let a = vec![vec![1, 2], vec![3, 4]];
    assert_eq!(transpose_mul(&r, &a, 2, &vec![1, 1]), Ok(vec![4, 6]));
    assert_eq!(transpose_mul(&r, &a, 2, &vec![5, 6]), Ok(vec![6, 0]));
    assert_eq!(transpose_mul(&r, &a, 3, &vec![1, 1]), Err(LweError::DimensionMismatch));
    assert_eq!(transpose_mul(&r, &a, 2, &vec![1]), Err(LweError::DimensionMismatch));
}

#[test]
fn vec_add_gives_exact_value() {
    let r = ring(17);
    assert_eq!(vec_add(&r, &vec![16, 3], &vec![2, 4]), Ok(vec![1, 7]));
    assert_eq!(vec_add(&r, &vec![16, 3], &vec![2]), Err(LweError::DimensionMismatch));
}

#[test]
fn error_draws_map_to_signed_errors() {
    let r = ring(17);
    assert_eq!(error_from_draw(&r, 0, 3), 14);
    assert_eq!(error_from_draw(&r, 2, 3), 16);
    assert_eq!(error_from_draw(&r, 3, 3), 0);
    assert_eq!(error_from_draw(&r, 6, 3), 3);
}

#[test]
fn samplers_stay_in_range() {
    let q = 40961;
    let r = ring(q);
    let mut rng = StdRng::seed_from_u64(3);
    let a = sample_matrix(&r, &mut rng, 20, 30);
    assert_eq!(a.len(), 20);
    assert!(a.iter().all(|row| row.len() == 30 && row.iter().all(|&x| x < q)));
    let e = sample_error_vector(&r, &mut rng, 500, 5);
    assert_eq!(e.len(), 500);
    assert!(e.iter().all(|&x| x <= 5 || x >= q - 5));
    let bits = sample_bits(&mut rng, 500);
    assert_eq!(bits.len(), 500);
    assert!(bits.iter().all(|&x| x <= 1));
    assert!(bits.iter().any(|&x| x == 1) && bits.iter().any(|&x| x == 0));
}

#[test]
fn keygen_draws_elements_of_the_ring() {
    let q = 101;
    let r = ring(q);
    let mut rng = StdRng::seed_from_u64(11);
    let sk = keygen(&r, 1000, &mut rng);
    assert_eq!(sk.s.len(), 1000);
    assert!(sk.s.iter().all(|&x| x < q));
    assert!(sk.s.iter().any(|&x| x != sk.s[0]));
}

#[test]
fn public_key_from_samples_gives_exact_value() {
    let r = ring(17);
    let sk = SecretKey { s: vec![5, 6] };
    let pk = public_key_from_samples(&r, &sk, vec![vec![1, 2], vec![3, 4]], &vec![1, 16]).unwrap();
    assert_eq!(pk.a, vec![vec![1, 2], vec![3, 4]]);
    assert_eq!(pk.b, vec![1, 4]);
    let bad = public_key_from_samples(&r, &sk, vec![vec![1, 2], vec![3, 4]], &vec![1]);
    assert_eq!(bad.unwrap_err(), LweError::DimensionMismatch);
    let ragged = public_key_from_samples(&r, &sk, vec![vec![1, 2], vec![3]], &vec![1, 2]);
    assert_eq!(ragged.unwrap_err(), LweError::DimensionMismatch);
}

#[test]
fn public_key_check_rejects_wrong_keys() {
    let r = ring(17);
    let sk = SecretKey { s: vec![5, 6] };
    let pk = PublicKey { a: vec![vec![1, 2], vec![3, 4]], b: vec![1, 4] };
    assert!(is_public_key_correct(&r, &pk, &sk, 1));
    assert!(!is_public_key_correct(&r, &pk, &sk, 0));
    let far = PublicKey { a: vec![vec![1, 2], vec![3, 4]], b: vec![1, 9] };
    assert!(!is_public_key_correct(&r, &far, &sk, 3));
    let short = PublicKey { a: vec![vec![1, 2], vec![3, 4]], b: vec![1] };
    assert!(!is_public_key_correct(&r, &short, &sk, 3));
    let other = SecretKey { s: vec![5, 6, 7] };
    assert!(!is_public_key_correct(&r, &pk, &other, 3));
}

#[test]
fn encrypt_with_gives_exact_value() {
    let r = ring(17);
    let pk = PublicKey { a: vec![vec![1, 2], vec![3, 4]], b: vec![5, 6] };
    assert_eq!(encrypt_with(&r, true, &pk, &vec![1, 1]), Ok(vec![2, 4, 6]));
    assert_eq!(encrypt_with(&r, false, &pk, &vec![1, 0]), Ok(vec![5, 1, 2]));
    assert_eq!(encrypt_with(&r, false, &pk, &vec![1]), Err(LweError::DimensionMismatch));
}

#[test]
fn decrypt_gives_exact_value() {
    let r = ring(17);
    let sk = SecretKey { s: vec![1, 1] };
    assert_eq!(decrypt(&r, &vec![2, 4, 6], &sk), Ok(true));
    assert_eq!(decrypt(&r, &vec![10, 4, 6], &sk), Ok(false));
    assert_eq!(decrypt(&r, &vec![0, 0, 0], &sk), Ok(false));
    assert_eq!(decrypt(&r, &vec![8, 0, 0], &sk), Ok(true));
    assert_eq!(decrypt(&r, &vec![4, 0, 0], &sk), Ok(false));
    assert_eq!(decrypt(&r, &vec![5, 0, 0], &sk), Ok(true));
    assert_eq!(decrypt(&r, &vec![13, 0, 0], &sk), Ok(false));
    assert_eq!(decrypt(&r, &vec![12, 0, 0], &sk), Ok(true));
    assert_eq!(decrypt(&r, &vec![2, 4], &sk), Err(LweError::DimensionMismatch));
    assert_eq!(decrypt(&r, &vec![], &sk), Err(LweError::DimensionMismatch));
}

#[test]
fn encrypt_rejects_malformed_public_key() {
    let r = ring(17);
    let mut rng = StdRng::seed_from_u64(1);
    let pk = PublicKey { a: vec![vec![1, 2], vec![3]], b: vec![5, 6] };
    assert_eq!(encrypt(&r, true, &pk, &mut rng), Err(LweError::DimensionMismatch));
    let pk = PublicKey { a: vec![vec![1, 2], vec![3, 4]], b: vec![5] };
    assert_eq!(encrypt(&r, true, &pk, &mut rng), Err(LweError::DimensionMismatch));
}

fn count_failures(q: u64, n: usize, m: usize, bound: u64, trials: usize, seed: u64) -> usize {
    let r = ring(q);
    let mut rng = StdRng::seed_from_u64(seed);
    let sk = keygen(&r, n, &mut rng);
    let pk = public_key(&r, &sk, m, bound, &mut rng);
    let bits = sample_bits(&mut rng, trials);
    let mut failures = 0;
    for &bit in bits.iter() {
        let bit = bit == 1;
        let c = encrypt(&r, bit, &pk, &mut rng).unwrap();
        assert_eq!(c.len(), n + 1);
        if decrypt(&r, &c, &sk).unwrap() != bit {
            failures += 1;
        }
    }
    failures
}

#[test]
fn decrypt_recovers_bits_at_standard_parameters() {
    // q = 40961, n = m = 256, errors bounded by q/64: a small fraction of
    // rounding failures is inherent at this noise level.
    let failures = count_failures(40961, 256, 256, 40961 / 64, 1000, 2024);
    assert!(failures <= 50, "{} failures", failures);
}

#[test]
fn decrypt_always_recovers_bits_within_the_noise_bound() {
    // 4 * m * bound + 2 < q: every ciphertext decrypts correctly.
    assert_eq!(count_failures(40961, 64, 16, 8, 1000, 5), 0);
    assert_eq!(count_failures(40961, 256, 256, 32, 200, 6), 0);
}

#[test]
fn seeded_generation_is_deterministic() {
    let r = ring(40961);
    let run = |seed: u64| {
        let mut rng = StdRng::seed_from_u64(seed);
        let sk = keygen(&r, 16, &mut rng);
        let pk = public_key(&r, &sk, 16, 100, &mut rng);
        let c = encrypt(&r, true, &pk, &mut rng).unwrap();
        (sk.s, pk.a, pk.b, c)
    };
    assert_eq!(run(42), run(42));
    assert_ne!(run(42), run(43));
}

#[test]
fn public_keys_use_fresh_randomness() {
    let r = ring(40961);
    let mut rng = StdRng::seed_from_u64(9);
    let sk = keygen(&r, 16, &mut rng);
    let mut rng1 = StdRng::seed_from_u64(100);
    let mut rng2 = StdRng::seed_from_u64(200);
    let pk1 = public_key(&r, &sk, 16, 100, &mut rng1);
    let pk2 = public_key(&r, &sk, 16, 100, &mut rng2);
    assert_ne!(pk1.a, pk2.a);
    let pk3 = public_key(&r, &sk, 16, 100, &mut rng1);
    assert_ne!(pk1.a, pk3.a);
}

#[test]
fn scale_gives_exact_value() {
    let r = ring(17);
    assert_eq!(scale(&r, 8, &vec![0, 1, 3]), vec![0, 8, 7]);
    assert_eq!(scale(&r, 8, &vec![]), Vec::<u64>::new());
}

#[test]
fn hconcat_joins_rows() {
    let a = vec![vec![1, 2], vec![3, 4]];
    let b = vec![vec![5], vec![6]];
    assert_eq!(hconcat(&a, &b), Ok(vec![vec![1, 2, 5], vec![3, 4, 6]]));
    assert_eq!(hconcat(&a, &vec![vec![5]]), Err(LweError::DimensionMismatch));
}
