use bfv::ciphertext::mul;
use bfv::encoding::{Encoding, EncodingEnum};
use bfv::errors::Error;
use bfv::evaluation_key::EvaluationKeyBuilder;
use bfv::ntt::{NativeNtt, NttOp, NttOperator};
use bfv::parameters::{
    bit_sizes, contains, index_map, log2_exact, pick_modulus, pick_moduli, reverse_bits, subvector,
    BfvParameters, BfvParametersBuilder,
};
use bfv::plaintext::Plaintext;
use bfv::rq::{is_power_of_two, sample_centered_binomial, Context, Poly, Representation};
use bfv::scaler::{Scaler, ScalingFactor};
use bfv::bigint::BigNat;
use bfv::secret_key::SecretKey;
use bfv::zq::Modulus;
use std::sync::Arc;

#[test]
fn encodings() {
    assert_eq!(Encoding::poly(), Encoding { encoding: EncodingEnum::Poly, level: 0 });
    assert_eq!(Encoding::simd(), Encoding { encoding: EncodingEnum::Simd, level: 0 });
    assert_eq!(Encoding::poly_at_level(3), Encoding { encoding: EncodingEnum::Poly, level: 3 });
    assert_eq!(Encoding::simd_at_level(2), Encoding { encoding: EncodingEnum::Simd, level: 2 });
    assert_ne!(Encoding::poly(), Encoding::simd());
    assert_ne!(Encoding::poly(), Encoding::poly_at_level(1));
}

#[test]
fn error_texts() {
    assert_eq!(Error::InvalidModulus(1).to_string(), "modulus should be between 2 and 2^62-1");
    assert_eq!(Error::Serialization("broken".to_string()).to_string(), "broken");
    assert_eq!(Error::Default("other".to_string()).to_string(), "other");
    assert!(matches!(Error::other("x"), Error::Default(s) if s == "x"));
    assert!(matches!(Error::serialization("y"), Error::Serialization(s) if s == "y"));
    assert!(matches!(Modulus::new(0), Err(Error::InvalidModulus(0))));
    assert!(matches!(Modulus::new(1 << 62), Err(Error::InvalidModulus(p)) if p == 1 << 62));
}

#[test]
fn plaintexts() -> Result<(), String> {
    let par = Arc::new(BfvParameters::default(1).unwrap());
    let pt = Plaintext::try_encode(&[1, 1153, 1154, u64::MAX], Encoding::poly(), &par)?;
    assert_eq!(pt.value(), &vec![1, 0, 1, u64::MAX % 1153, 0, 0, 0, 0]);
    assert_eq!(pt.try_decode(Encoding::poly())?, vec![1, 0, 1, u64::MAX % 1153, 0, 0, 0, 0]);
    assert_eq!(
        pt.try_decode(Encoding::simd()).unwrap_err(),
        "The plaintext was encoded with another encoding"
    );
    assert_eq!(
        pt.try_decode(Encoding::poly_at_level(1)).unwrap_err(),
        "The plaintext was encoded with another encoding"
    );
    assert_eq!(
        Plaintext::try_encode(&[0; 9], Encoding::poly(), &par).unwrap_err(),
        "There are too many values to encode"
    );
    let values = vec![5, 4, 3, 2, 1, 0, 1152, 7];
    let simd = Plaintext::try_encode(&values, Encoding::simd(), &par)?;
    assert_ne!(simd.value(), &values);
    assert_eq!(simd.try_decode(Encoding::simd())?, values);
    assert!(simd.equals(&Plaintext::try_encode(&values, Encoding::simd(), &par)?));
    assert!(!simd.equals(&pt));
    // batching turns the product of polynomials into the product of the slots
    let other = vec![2, 3, 4, 5, 6, 7, 8, 9];
    let sk = SecretKey::random(&par);
    let ct = sk.encrypt(&simd)?;
    let product = ct.mul_plaintext(&Plaintext::try_encode(&other, Encoding::simd(), &par)?)?;
    let expected: Vec<u64> = values.iter().zip(&other).map(|(a, b)| a * b % 1153).collect();
    assert_eq!(sk.decrypt(&product)?.try_decode(Encoding::simd())?, expected);

    let plain = Arc::new(
        BfvParametersBuilder::new()
            .set_degree(8)?
            .set_plaintext_modulus(2)?
            .set_ciphertext_moduli(&[1153])?
            .build()?,
    );
    assert_eq!(
        Plaintext::try_encode(&[1], Encoding::simd(), &plain).unwrap_err(),
        "The plaintext modulus does not allow for the batched encoding"
    );
    let bits = Plaintext::try_encode(&[3, 2], Encoding::poly(), &plain)?;
    assert_eq!(bits.value(), &vec![1, 0, 0, 0, 0, 0, 0, 0]);
    let raw = Plaintext::from_value(vec![1, 0, 1, 0, 0, 0, 0, 0], None, &plain);
    assert_eq!(
        raw.try_decode(Encoding::simd()).unwrap_err(),
        "The plaintext modulus does not allow for the batched encoding"
    );
    assert_eq!(raw.try_decode(Encoding::poly())?, vec![1, 0, 1, 0, 0, 0, 0, 0]);
    Ok(())
}

#[test]
fn the_batching_table() {
    assert_eq!(index_map(8), vec![0, 4, 1, 5, 7, 3, 6, 2]);
    let table = index_map(1024);
    let mut seen = vec![false; 1024];
    for i in table {
        assert!(!seen[i]);
        seen[i] = true;
    }
    let par = BfvParameters::default(1).unwrap();
    assert_eq!(par.batching_table(), &vec![0, 4, 1, 5, 7, 3, 6, 2]);
    assert_eq!(reverse_bits(1, 3), 4);
    assert_eq!(reverse_bits(6, 3), 3);
    assert_eq!(reverse_bits(0b1011, 4), 0b1101);
    assert_eq!(reverse_bits(5, 0), 0);
    assert_eq!(log2_exact(1), 0);
    assert_eq!(log2_exact(8), 3);
    assert_eq!(log2_exact(1 << 29), 29);
    assert!(is_power_of_two(1));
    assert!(is_power_of_two(1 << 20));
    assert!(!is_power_of_two(0));
    assert!(!is_power_of_two(24));
}

#[test]
fn helpers_of_the_parameters() {
    assert_eq!(bit_sizes(&vec![2, 3, 1153, (1 << 62) - 1]), (vec![2, 2, 11, 62], 77));
    assert_eq!(bit_sizes(&vec![]), (vec![], 0));
    assert_eq!(subvector(&vec![1, 2, 3, 4], 1, 3), vec![2, 3]);
    assert_eq!(subvector(&vec![1, 2, 3, 4], 2, 2), Vec::<u64>::new());
    assert!(contains(&vec![1, 2, 3], 2));
    assert!(!contains(&vec![1, 2, 3], 4));
    let mut chosen = vec![2017];
    assert!(pick_modulus(&mut chosen, 11, 8));
    assert_eq!(chosen, vec![2017, 1889]);
    let mut none = vec![];
    assert!(!pick_modulus(&mut none, 10, 1024));
    assert!(none.is_empty());
    assert_eq!(pick_moduli(vec![7], &[11, 11], 8), Ok(vec![7, 2017, 1889]));
    assert_eq!(pick_moduli(vec![], &[11, 9], 8), Err(true));
    assert_eq!(pick_moduli(vec![], &[11, 63], 8), Err(true));
    assert_eq!(pick_moduli(vec![], &[10], 1024), Err(false));
    assert_eq!(pick_moduli(vec![5], &[], 8), Ok(vec![5]));

    let par = BfvParametersBuilder::new()
        .set_degree(16)
        .unwrap()
        .set_plaintext_modulus(97)
        .unwrap()
        .set_variance(3)
        .unwrap()
        .set_ciphertext_moduli_sizes(&[20, 21])
        .unwrap()
        .build()
        .unwrap();
    assert_eq!(par.degree(), 16);
    assert_eq!(par.plaintext_modulus(), 97);
    assert_eq!(par.variance(), 3);
    assert_eq!(par.moduli_sizes(), &[20, 21]);
    assert_eq!(par.moduli().len(), 2);
    for (m, size) in par.moduli().iter().zip(par.moduli_sizes()) {
        assert_eq!(m % 32, 1);
        assert_eq!(64 - m.leading_zeros() as usize, *size);
    }
    assert_eq!(par.modulus_rest(), ((par.moduli()[0] as u128 * par.moduli()[1] as u128) % 97) as u64);
    assert_eq!(par.modulus_rest_minimized(), par.moduli()[0] % 97);
    // 97 = 3 * 32 + 1 is a prime: the batched encoding is at hand
    assert!(par.ntt_operator().is_some());
    assert!(par.equals(&par));
    assert!(!par.equals(&BfvParameters::default(1).unwrap()));
    assert!(BfvParameters::default(0).is_err());
    assert_eq!(BfvParameters::default(0).unwrap_err(), "Unspecified ciphertext moduli");
}

#[test]
fn small_samples() {
    assert_eq!(sample_centered_binomial(0, 1), 0);
    assert_eq!(sample_centered_binomial(0b0111, 1), 1);
    assert_eq!(sample_centered_binomial(0b1100, 1), -2);
    assert_eq!(sample_centered_binomial(0b0011, 1), 2);
    assert_eq!(sample_centered_binomial(0b1111_0000, 2), -4);
    assert_eq!(sample_centered_binomial(0b0000_1011, 2), 3);
    assert_eq!(sample_centered_binomial(u64::MAX, 16), 0);
    assert_eq!(sample_centered_binomial(u32::MAX as u64, 16), 32);
    assert_eq!(sample_centered_binomial((u32::MAX as u64) << 32, 16), -32);
    // the high bits beyond 4 * variance do not count
    assert_eq!(sample_centered_binomial(0xffff_ffff_ffff_fff1, 1), 1);
}

#[test]
fn rows_come_from_seeds_drawn_from_the_seed() {
    let ctx = Arc::new(Context::new(&[1153, 4611686018326724609], 8).unwrap());
    let seed = [3u8; 32];
    let p = Poly::random_from_seed(&ctx, Representation::Ntt, seed);
    let q = Poly::random_from_seed(&ctx, Representation::Ntt, seed);
    assert_eq!(p.coefficients(), q.coefficients());
    let direct = Modulus::new(1153).unwrap().random_vec_from_seed(8, seed);
    assert_ne!(p.coefficients()[0], direct);
    let other = Poly::random_from_seed(&ctx, Representation::Ntt, [4u8; 32]);
    assert_ne!(p.coefficients(), other.coefficients());
    let s = Poly::small_from_seed(&ctx, Representation::PowerBasis, 4, seed).unwrap();
    let t = Poly::small_from_seed(&ctx, Representation::PowerBasis, 4, seed).unwrap();
    assert_eq!(s.coefficients(), t.coefficients());
    let u = Poly::small_from_seed(&ctx, Representation::PowerBasis, 4, [4u8; 32]).unwrap();
    assert_ne!(s.coefficients(), u.coefficients());
}

#[test]
fn lazy_results() {
    let q = Modulus::new(17).unwrap();
    assert_eq!(q.lazy_reduce(16), 16);
    assert_eq!(q.lazy_reduce(17), 17);
    assert_eq!(q.lazy_reduce(20), 3);
    assert_eq!(q.reduce(17), 0);
    assert_eq!(q.lazy_reduce_u128(17), 17);
    assert_eq!(q.lazy_reduce_u128(1 << 100), (1u128 << 100).rem_euclid(17) as u64);
    assert_eq!(q.lazy_mul_shoup(1, 1, q.shoup(1)), 1);
    assert_eq!(q.lazy_mul_shoup(17, 1, q.shoup(1)), 17);
    assert_eq!(q.mul_shoup(17, 1, q.shoup(1)), 0);
    assert!(!q.supports_opt());
    let o = Modulus::new(4611686018326724609).unwrap();
    assert!(o.supports_opt());
    assert_eq!(o.modulus(), 4611686018326724609);
    assert_eq!(o.lazy_reduce_opt(4611686018326724609), 4611686018326724609);
    assert_eq!(o.lazy_reduce_opt(u64::MAX) % 4611686018326724609, u64::MAX % 4611686018326724609);
    assert!(o.lazy_reduce_opt(u64::MAX) < 2 * 4611686018326724609);
    let square = 4611686018326724608u128 * 4611686018326724608u128;
    assert_eq!(o.reduce_opt_u128(square), 1);
    assert_eq!(o.reduce_opt_u128_vt(square), 1);
    assert!(o.lazy_reduce_opt_u128(square) < 2 * 4611686018326724609);
    assert_eq!(o.bits_per_residue(), 62);
    assert_eq!(q.bits_per_residue(), 5);
    assert_eq!(Modulus::new(2).unwrap().bits_per_residue(), 1);
}

fn round_trip_through<T: NttOp>(p: &Modulus, size: usize, a: &[u64]) -> Vec<u64> {
    let op = T::new(p, size).unwrap();
    let mut b = a.to_vec();
    op.forward(&mut b);
    let mut c = a.to_vec();
    op.forward_vt(&mut c);
    assert_eq!(b, c);
    let mut d = a.to_vec();
    op.forward_vt_lazy(&mut d);
    assert_eq!(b, d);
    op.backward_vt(&mut c);
    assert_eq!(c, a);
    op.backward(&mut b);
    b
}

#[test]
fn operators_behind_the_trait() {
    let q = Modulus::new(1153).unwrap();
    let a = vec![1, 2, 3, 4, 5, 6, 7, 1152];
    assert_eq!(round_trip_through::<NttOperator>(&q, 8, &a), a);
    assert_eq!(round_trip_through::<NativeNtt>(&q, 8, &a), a);
    let wide: Vec<u64> = (0..64).collect();
    assert_eq!(round_trip_through::<NttOperator>(&q, 64, &wide), wide);
    assert_eq!(round_trip_through::<NativeNtt>(&q, 64, &wide), wide);
    assert!(<NttOperator as NttOp>::new(&q, 128).is_none());
    assert!(<NativeNtt as NttOp>::new(&Modulus::new(1155).unwrap(), 8).is_none());
}

#[test]
fn rounding_of_the_scaler() {
    let from = Arc::new(Context::new(&[1153], 8).unwrap());
    let to = Arc::new(Context::new(&[4611686018326724609], 8).unwrap());
    let m = 4611686018326724609u64;
    let halve =
        Scaler::new(&from, &to, ScalingFactor::new(&BigNat::from_u64(1), &BigNat::from_u64(2)))
            .unwrap();
    let p = Poly::from_coefficients_i64(&[5, -5, 4, -4, 1, -1, 0, 3], &from).unwrap();
    let rounded = halve.scale(&p, false).unwrap();
    assert_eq!(rounded.coefficients()[0], vec![3, m - 3, 2, m - 2, 1, m - 1, 0, 2]);
    let floored = halve.scale(&p, true).unwrap();
    assert_eq!(floored.coefficients()[0], vec![2, m - 3, 2, m - 2, 0, m - 1, 0, 1]);
    let triple =
        Scaler::new(&from, &to, ScalingFactor::new(&BigNat::from_u64(3), &BigNat::from_u64(1)))
            .unwrap();
    let tripled = triple.scale(&p, false).unwrap();
    assert_eq!(tripled.coefficients()[0], vec![15, m - 15, 12, m - 12, 3, m - 3, 0, 9]);
}

#[test]
fn keys() -> Result<(), String> {
    let par = Arc::new(BfvParameters::default(2).unwrap());
    let a = SecretKey::random(&par);
    let b = SecretKey::random(&par);
    assert_ne!(a.key().coefficients(), b.key().coefficients());
    assert_eq!(a.key().get_representation(), Representation::NttShoup);

    let sk = SecretKey::random_from_seed(&par, [1; 32]);
    let values = par.plaintext_ring().random_vec(par.degree());
    let pt = Plaintext::try_encode(&values, Encoding::simd(), &par)?;
    let ct = sk.encrypt_with_seeds(&pt, [2; 32], [3; 32])?;
    let again = sk.encrypt_with_seeds(&pt, [2; 32], [3; 32])?;
    assert!(ct.equals(&again));
    assert_eq!(ct.get_seed(), Some([2; 32]));
    let mask = Poly::random_from_seed(par.context(), Representation::Ntt, [2; 32]);
    assert_eq!(ct.polynomials()[1].coefficients(), mask.coefficients());
    let other = sk.encrypt_with_seeds(&pt, [2; 32], [4; 32])?;
    assert!(!ct.equals(&other));
    assert!(sk.measure_noise(&ct)? <= 10);

    let ek = EvaluationKeyBuilder::new(&sk).enable_relinearization().build_with_seeds([5; 32], [6; 32])?;
    let ek_again =
        EvaluationKeyBuilder::new(&sk).enable_relinearization().build_with_seeds([5; 32], [6; 32])?;
    let square = mul(&ct, &ct, &ek)?;
    assert!(square.equals(&mul(&ct, &ct, &ek_again)?));
    let mut expected = values.clone();
    par.plaintext_ring().mul_vec(&mut expected, &values);
    assert_eq!(sk.decrypt(&square)?.try_decode(Encoding::simd())?, expected);

    let mut wiped = SecretKey::random_from_seed(&par, [1; 32]);
    wiped.zeroize();
    assert_eq!(wiped.key().coefficients(), &vec![vec![0u64; 8]; 2]);
    Ok(())
}

#[test]
fn the_reference_tables_serve_the_degree_8() -> Result<(), String> {
    let small = Arc::new(BfvParameters::default(2).unwrap());
    assert_eq!(small.degree(), 8);
    assert!(small.context().uses_reference_tables());
    assert!(small.plaintext_context().uses_reference_tables());
    let large = Arc::new(
        BfvParametersBuilder::new()
            .set_degree(64)?
            .set_plaintext_modulus(1153)?
            .set_ciphertext_moduli_sizes(&[62, 62])?
            .build()?,
    );
    assert!(!large.context().uses_reference_tables());
    assert!(!large.plaintext_context().uses_reference_tables());
    let p = Modulus::new(1153).unwrap();
    assert!(!NttOperator::new(&p, 8).unwrap().is_accelerated());
    assert!(NttOperator::new(&p, 16).unwrap().is_accelerated());
    Ok(())
}

#[test]
fn with_room_for_the_errors_ciphertexts_decrypt_exactly() -> Result<(), String> {
    let par = Arc::new(BfvParameters::default(2).unwrap());
    let n = par.degree() as u128;
    let t = par.plaintext_modulus() as u128;
    let b = 2 * par.variance() as u128;
    let q0 = par.moduli()[0] as u128;
    let d = par.moduli()[1] as u128;
    // the product of the moduli leaves room for the errors of a product
    // with a plaintext, and for the rounding of a minimization
    assert!(4 * t * (t + n * t * (b + t)) < q0);
    assert!(4 * t * (t + b) + 2 * t * d * (1 + n * b) <= q0 * d / (1 << 20));
    assert!(q0 >= 2 * t);
    let ring = par.plaintext_ring();
    for round in 0..20u8 {
        let sk = SecretKey::random_from_seed(&par, [round; 32]);
        let x = ring.random_vec(par.degree());
        let y = ring.random_vec(par.degree());
        let px = Plaintext::try_encode(&x, Encoding::poly(), &par)?;
        let py = Plaintext::try_encode(&y, Encoding::poly(), &par)?;
        let cx = sk.encrypt_with_seeds(&px, [round + 1; 32], [round + 2; 32])?;
        assert_eq!(sk.decrypt(&cx)?.value(), &x);

        let mut opposite = x.clone();
        ring.neg_vec(&mut opposite);
        assert_eq!(sk.decrypt(&cx.neg()?)?.value(), &opposite);

        let mut product = vec![0u64; par.degree()];
        for i in 0..par.degree() {
            for j in 0..par.degree() {
                let term = ring.mul(x[i], y[j]);
                if i + j < par.degree() {
                    product[i + j] = ring.add(product[i + j], term);
                } else {
                    product[i + j - par.degree()] = ring.sub(product[i + j - par.degree()], term);
                }
            }
        }
        assert_eq!(sk.decrypt(&cx.mul_plaintext(&py)?)?.value(), &product);

        let mut min = cx.copy();
        min.minimizes();
        assert_eq!(sk.decrypt(&min)?.value(), &x);
    }
    Ok(())
}
