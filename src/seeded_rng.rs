//! Reproducible random number generators, one stream per string id.
//!
//! A single global seed controls all randomness in a program; each part of
//! the program draws from its own generator, named by a string id. The id
//! followed by the seed's decimal digits is hashed with BLAKE2b-512, and the
//! first 32 bytes of the digest seed a ChaCha8 generator.

use blake2::{Blake2b512, Digest};
use rand::SeedableRng;
use rand_chacha::ChaCha8Rng;
use vstd::prelude::*;
use vstd::string::*;

verus! {

/// The ChaCha8 generator of `rand_chacha`, held opaque.
#[verifier::external_type_specification]
#[verifier::external_body]
pub struct ExChaCha8Rng(ChaCha8Rng);

/// The 64-byte BLAKE2b-512 digest of a byte string.
pub uninterp spec fn blake2b512_of(message: Seq<u8>) -> Seq<u8>;

/// Relies on `Digest::digest` for `Blake2b512`: the digest of `message`,
/// 64 bytes long.
#[verifier::external_body]
fn blake2b512(message: &Vec<u8>) -> (r: Vec<u8>)
    ensures
        r@ == blake2b512_of(message@),
        r@.len() == 64,
{
    Blake2b512::digest(message).to_vec()
}

/// The ChaCha8 generator that a 32-byte seed gives; its stream depends on
/// the seed alone.
pub uninterp spec fn chacha8_seeded(seed: Seq<u8>) -> ChaCha8Rng;

/// Relies on `SeedableRng::from_seed` for `ChaCha8Rng`: a generator seeded
/// with the 32 bytes of `seed`.
#[verifier::external_body]
fn chacha8_from_seed(seed: &Vec<u8>) -> (r: ChaCha8Rng)
    requires
        seed@.len() == 32,
    ensures
        r == chacha8_seeded(seed@),
{
    let bytes: [u8; 32] = seed.as_slice().try_into().unwrap();
    ChaCha8Rng::from_seed(bytes)
}

/// The ASCII decimal digits of `n`, most significant first, without
/// leading zeros.
pub open spec fn decimal(n: nat) -> Seq<u8>
    decreases n,
{
    if n < 10 {
        seq![(48 + n) as u8]
    } else {
        decimal(n / 10).push((48 + n % 10) as u8)
    }
}

/// The bytes hashed to seed the stream `id` under `global_seed`: the UTF-8
/// bytes of `id` followed by the decimal digits of `global_seed`.
pub open spec fn stream_message(global_seed: u64, id: Seq<char>) -> Seq<u8> {
    vstd::utf8::encode_utf8(id) + decimal(global_seed as nat)
}

/// The decimal digits of `n`.
pub fn decimal_digits(n: u64) -> (r: Vec<u8>)
    ensures
        r@ == decimal(n as nat),
    decreases n,
{
    if n < 10 {
        let mut r: Vec<u8> = Vec::new();
        r.push((48 + n) as u8);
        r
    } else {
        let mut r = decimal_digits(n / 10);
        r.push((48 + n % 10) as u8);
        r
    }
}

/// The message hashed for the stream `id` under `global_seed`.
pub fn seed_message(global_seed: u64, id: &str) -> (r: Vec<u8>)
    ensures
        r@ == stream_message(global_seed, id@),
{
    let mut message = id.as_bytes_vec();
    let mut digits = decimal_digits(global_seed);
    message.append(&mut digits);
    message
}

/// The generator seed taken from a digest: its first 32 bytes.
pub fn seed_from_digest(digest: &Vec<u8>) -> (r: Vec<u8>)
    requires
        digest@.len() >= 32,
    ensures
        r@ == digest@.subrange(0, 32),
{
    let mut r: Vec<u8> = Vec::new();
    let mut i: usize = 0;
    while i < 32
        invariant
            digest@.len() >= 32,
            i <= 32,
            r@ == digest@.subrange(0, i as int),
        decreases 32 - i,
    {
        r.push(digest[i]);
        i += 1;
    }
    r
}

/// The seed of the stream `id` under `global_seed`: the first 32 bytes of
/// the BLAKE2b-512 digest of the stream's message.
pub fn stream_seed(global_seed: u64, id: &str) -> (r: Vec<u8>)
    ensures
        r@ == blake2b512_of(stream_message(global_seed, id@)).subrange(0, 32),
        r@.len() == 32,
{
    let message = seed_message(global_seed, id);
    let digest = blake2b512(&message);
    seed_from_digest(&digest)
}

/// A random number generator for the stream `id` under `global_seed`. The
/// same pair always gives the same stream; distinct ids give independent
/// streams. It is up to callers to use each id once per seed, unless the
/// same numbers are wanted.
pub fn make_rng(global_seed: u64, id: &str) -> (r: ChaCha8Rng)
    ensures
        r == chacha8_seeded(blake2b512_of(stream_message(global_seed, id@)).subrange(0, 32)),
{
    let seed = stream_seed(global_seed, id);
    chacha8_from_seed(&seed)
}

} // verus!
