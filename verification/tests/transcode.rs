use bfv::transcode::{repack, transcode_from_bytes, transcode_to_bytes};
use bfv::zq::Modulus;
use rand::{thread_rng, RngCore};

#[test]
fn exact_bytes() {
    assert_eq!(transcode_to_bytes(&[1, 2, 3, 4, 5, 6, 7, 8], 8), vec![1, 2, 3, 4, 5, 6, 7, 8]);
    assert_eq!(transcode_to_bytes(&[0x201, 0x403], 16), vec![1, 2, 3, 4]);
    // three bits each, least significant first: 1, 2, 3 is 001 010 011 from the low end
    assert_eq!(transcode_to_bytes(&[1, 2, 3], 3), vec![0b1101_0001, 0]);
    assert_eq!(transcode_to_bytes(&[], 5), Vec::<u8>::new());
    assert_eq!(transcode_to_bytes(&[u64::MAX], 64), vec![0xff; 8]);
    assert_eq!(transcode_from_bytes(&[1, 2, 3, 4], 16), vec![0x201, 0x403]);
    assert_eq!(transcode_from_bytes(&[0b1101_0001, 0], 3), vec![1, 2, 3, 0, 0, 0]);
    assert_eq!(transcode_from_bytes(&[0xff; 8], 64), vec![u64::MAX]);
    assert_eq!(repack(&[0xab, 0xcd], 8, 4), vec![0xb, 0xa, 0xd, 0xc]);
    assert_eq!(repack(&[0xb, 0xa, 0xd, 0xc], 4, 8), vec![0xab, 0xcd]);
    assert_eq!(repack(&[1], 1, 64), vec![1]);
}

#[test]
fn serialize_then_deserialize_is_the_identity() {
    let mut rng = thread_rng();
    for p in [2u64, 3, 17, 1153, 65537, 4611686018326724609, (1u64 << 62) - 1] {
        let q = Modulus::new(p).unwrap();
        for len in [0usize, 8, 16, 64] {
            let a: Vec<u64> = (0..len).map(|_| rng.next_u64() % p).collect();
            let b = q.serialize_vec(&a);
            assert_eq!(b.len(), q.serialization_length(len));
            let c = q.deserialize_vec(&b);
            assert_eq!(a, c);
        }
    }
    let q = Modulus::new(17).unwrap();
    assert_eq!(q.serialization_length(8), 5);
    assert_eq!(q.serialize_vec(&[16; 8]), vec![0x10, 0x42, 0x08, 0x21, 0x84]);
    let q = Modulus::new(2).unwrap();
    assert_eq!(q.serialization_length(16), 2);
    assert_eq!(q.serialize_vec(&[1, 0, 0, 0, 0, 0, 0, 1]), vec![0x81]);
}

#[test]
fn packing_round_trips_for_every_width() {
    let mut rng = thread_rng();
    for nbits in 1..=64usize {
        let mask = if nbits == 64 { u64::MAX } else { (1u64 << nbits) - 1 };
        let a: Vec<u64> = (0..24).map(|_| rng.next_u64() & mask).collect();
        let b = transcode_to_bytes(&a, nbits);
        assert_eq!(b.len(), 3 * nbits);
        assert_eq!(transcode_from_bytes(&b, nbits), a);
    }
}
