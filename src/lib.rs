//! Public-key encryption of single bits based on Learning With Errors, over
//! the ring of integers modulo a configurable modulus `q`.
//!
//! - `ring`: arithmetic in Z_q.
//! - `sums`: finite sums, the model of dot and matrix products.
//! - `linalg`: vectors and matrices over Z_q.
//! - `sampler`: uniform elements, small errors and bits from a seeded generator.
//! - `lwe`: key generation, public keys, encryption and decryption.
//! - `correctness`: decryption recovers the encrypted bit under bounded noise.
pub mod ring;
pub mod sums;
pub mod linalg;
pub mod sampler;
pub mod lwe;
pub mod correctness;
