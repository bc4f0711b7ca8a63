//! Randomness: fresh seeds from the operating system, and the values that a
//! ChaCha8 stream yields from a seed.
//!
//! Everything random in this library is derived from a 32-byte seed. What a
//! seed yields is a function of the seed alone, which is what makes it
//! possible to send a seed in place of the values.

use rand::distributions::{Standard, Uniform};
use rand::{thread_rng, Rng, SeedableRng};
use rand_chacha::ChaCha8Rng;
use vstd::prelude::*;

verus! {

/// The seed of a ChaCha8 stream.
pub type Seed = [u8; 32];

/// The first `size` samples that a uniform distribution on `[0, p)` draws
/// from the ChaCha8 stream of `seed`.
pub uninterp spec fn chacha8_uniform(seed: Seq<u8>, p: u64, size: nat) -> Seq<u64>;

/// The first `count` 64-bit words of the ChaCha8 stream of `seed`.
pub uninterp spec fn chacha8_words(seed: Seq<u8>, count: nat) -> Seq<u64>;

/// The first `count` blocks of eight 32-bit words of the ChaCha8 stream of
/// `seed`.
pub uninterp spec fn chacha8_blocks(seed: Seq<u8>, count: nat) -> Seq<Seq<u32>>;

/// The byte of index `j` of a block of 32-bit words, each word giving four
/// bytes, the lowest first.
pub open spec fn block_byte(block: Seq<u32>, j: int) -> u8 {
    let w = block[j / 4] as int;
    (if j % 4 == 0 {
        w % 256
    } else if j % 4 == 1 {
        (w / 0x100) % 256
    } else if j % 4 == 2 {
        (w / 0x1_0000) % 256
    } else {
        (w / 0x100_0000) % 256
    }) as u8
}

/// The first `count` seeds that the ChaCha8 stream of `seed` yields: each
/// is the next 32 bytes of the stream, that is, the bytes of the next eight
/// words.
pub open spec fn chacha8_seeds(seed: Seq<u8>, count: nat) -> Seq<Seq<u8>> {
    Seq::new(
        count,
        |i: int| Seq::new(32, |j: int| block_byte(chacha8_blocks(seed, count)[i], j)),
    )
}

/// `rand::thread_rng` and `Rng::fill`: 32 bytes from the thread's generator.
/// Nothing is known of them.
#[verifier::external_body]
pub(crate) fn fresh_seed() -> (seed: Seed) {
    let mut seed = Seed::default();
    thread_rng().fill(&mut seed);
    seed
}

/// `ChaCha8Rng::from_seed` and `Rng::sample_iter` with `Uniform::from(0..p)`:
/// `size` samples, each below `p`, that depend on the seed, `p` and `size`
/// alone. `Uniform::from` panics on an empty range, so `p` is not zero.
#[verifier::external_body]
pub(crate) fn sample_uniform(seed: &Seed, p: u64, size: usize) -> (r: Vec<u64>)
    requires
        p > 0,
    ensures
        r@ == chacha8_uniform(seed@, p, size as nat),
        r@.len() == size,
        forall|i: int| 0 <= i < r@.len() ==> #[trigger] r@[i] < p,
{
    ChaCha8Rng::from_seed(*seed).sample_iter(Uniform::from(0..p)).take(size).collect()
}

/// `ChaCha8Rng::from_seed` and `Rng::sample_iter` with `Standard`: the first
/// `count` 64-bit words of the stream, which depend on the seed and `count`
/// alone.
#[verifier::external_body]
pub(crate) fn sample_words(seed: &Seed, count: usize) -> (r: Vec<u64>)
    ensures
        r@ == chacha8_words(seed@, count as nat),
        r@.len() == count,
{
    ChaCha8Rng::from_seed(*seed).sample_iter(Standard).take(count).collect()
}

/// `ChaCha8Rng::from_seed` and `Rng::sample_iter` with `Standard`: the first
/// `count` arrays of eight 32-bit words that the stream yields, which depend
/// on the seed and `count` alone.
#[verifier::external_body]
pub(crate) fn sample_blocks(seed: &Seed, count: usize) -> (r: Vec<[u32; 8]>)
    ensures
        r@.len() == count,
        forall|i: int| 0 <= i < count ==> (#[trigger] r@[i])@ == chacha8_blocks(seed@, count as nat)[i],
{
    ChaCha8Rng::from_seed(*seed).sample_iter(Standard).take(count).collect()
}

/// The 32 bytes of a block of eight words, the lowest byte of each word
/// first.
pub fn block_to_seed(block: &[u32; 8]) -> (r: Seed)
    ensures
        r@ == Seq::new(32, |j: int| block_byte(block@, j)),
{
    let mut r: Seed = [0u8; 32];
    let mut j: usize = 0;
    while j < 32
        invariant
            j <= 32,
            forall|l: int| 0 <= l < j ==> r@[l] == block_byte(block@, l),
        decreases 32 - j,
    {
        let w: u32 = block[j / 4];
        let part: u32 = if j % 4 == 0 {
            w % 256
        } else if j % 4 == 1 {
            (w / 0x100) % 256
        } else if j % 4 == 2 {
            (w / 0x1_0000) % 256
        } else {
            (w / 0x100_0000) % 256
        };
        r[j] = part as u8;
        j += 1;
    }
    proof {
        assert(r@ =~= Seq::new(32, |j: int| block_byte(block@, j)));
    }
    r
}

/// The first `count` seeds that the stream of `seed` yields.
pub fn sample_seeds(seed: &Seed, count: usize) -> (r: Vec<Seed>)
    ensures
        r@.len() == count,
        forall|i: int| 0 <= i < count ==> (#[trigger] r@[i])@ == chacha8_seeds(seed@, count as nat)[i],
{
    let blocks = sample_blocks(seed, count);
    let mut r: Vec<Seed> = Vec::with_capacity(count);
    let mut i: usize = 0;
    while i < count
        invariant
            i <= count,
            blocks@.len() == count,
            r@.len() == i,
            forall|l: int|
                0 <= l < count ==> (#[trigger] blocks@[l])@ == chacha8_blocks(
                    seed@,
                    count as nat,
                )[l],
            forall|l: int| 0 <= l < i ==> (#[trigger] r@[l])@ == chacha8_seeds(seed@, count as nat)[l],
        decreases count - i,
    {
        let s = block_to_seed(&blocks[i]);
        proof {
            assert(blocks@[i as int]@ == chacha8_blocks(seed@, count as nat)[i as int]);
        }
        r.push(s);
        i += 1;
    }
    r
}

} // verus!
