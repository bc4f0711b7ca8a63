use bfv::random::{block_to_seed, sample_seeds};
use rand::{Rng, SeedableRng};
use rand_chacha::ChaCha8Rng;

#[test]
fn seeds_are_the_next_bytes_of_the_stream() {
    for first in [0u8, 1, 200] {
        let seed = [first; 32];
        for count in [0usize, 1, 2, 5, 9] {
            let mut rng = ChaCha8Rng::from_seed(seed);
            let mut expected = Vec::new();
            for _ in 0..count {
                let mut next = [0u8; 32];
                rng.fill(&mut next);
                expected.push(next);
            }
            assert_eq!(sample_seeds(&seed, count), expected);
        }
    }
}

#[test]
fn the_bytes_of_a_block_come_lowest_first() {
    let block = [0x0403_0201u32, 0x0807_0605, 0, 0xffff_ffff, 0x8000_0000, 1, 0x100, 0x0001_0000];
    let seed = block_to_seed(&block);
    assert_eq!(&seed[..8], &[1, 2, 3, 4, 5, 6, 7, 8]);
    assert_eq!(&seed[8..16], &[0, 0, 0, 0, 255, 255, 255, 255]);
    assert_eq!(&seed[16..24], &[0, 0, 0, 128, 1, 0, 0, 0]);
    assert_eq!(&seed[24..], &[0, 1, 0, 0, 0, 0, 1, 0]);
}
