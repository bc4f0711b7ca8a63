use bfv::bigint::BigNat;
use bfv::nfl::{generate_prime, supports_ntt, supports_opt};
use bfv::ntt::{NativeNtt, NttOperator};
use bfv::rns::{inv_mod, RnsContext};
use bfv::rq::{Context, Poly, Representation};
use bfv::scaler::{Scaler, ScalingFactor};
use bfv::zq::Modulus;
use num_bigint::BigUint;
use rand::{thread_rng, Rng, RngCore};
use std::sync::Arc;

fn to_biguint(x: &BigNat) -> BigUint {
    // the bits of the value, through the library's own arithmetic
    let mut digits = vec![];
    let base = BigNat::from_u64(1 << 32);
    let mut rest = x.copy();
    while !rest.is_zero() {
        let (q, r) = rest.div_rem(&base).unwrap();
        digits.push(r.to_u64().unwrap() as u32);
        rest = q;
    }
    BigUint::new(digits)
}

fn to_big_nat(x: &BigUint) -> BigNat {
    let mut r = BigNat::from_u64(0);
    let base = BigNat::from_u64(1 << 32);
    for d in x.to_u32_digits().iter().rev() {
        r = r.mul(&base).add(&BigNat::from_u64(*d as u64));
    }
    r
}

#[test]
fn big_numbers() {
    let a = BigNat::from_u128(u128::MAX);
    let b = BigNat::from_u64(3);
    assert_eq!(a.add(&b).checked_sub(&a).unwrap().to_u64(), Some(3));
    assert!(b.checked_sub(&a).is_none());
    assert_eq!(a.mul(&b).div_rem(&b).unwrap().0.to_u128(), Some(u128::MAX));
    assert_eq!(a.div_rem(&b).unwrap().1.to_u64(), Some(0));
    assert_eq!(BigNat::from_u64(17).div_rem(&BigNat::from_u64(5)).unwrap().1.to_u64(), Some(2));
    assert!(a.div_rem(&BigNat::from_u64(0)).is_none());
    assert_eq!(a.add(&BigNat::from_u64(1)).to_u128(), None);
    assert_eq!(a.to_u64(), None);
    assert_eq!(BigNat::from_u64(0).bits(), 0);
    assert_eq!(BigNat::from_u64(1).bits(), 1);
    assert_eq!(BigNat::from_u64(255).bits(), 8);
    assert_eq!(BigNat::from_u64(256).bits(), 9);
    assert_eq!(a.add(&BigNat::from_u64(1)).bits(), 129);
    assert!(b.less_than(&a));
    assert!(!a.less_than(&a));
    assert!(BigNat::from_u64(0).is_zero());
    assert_eq!(to_biguint(&a), BigUint::from(u128::MAX));
    assert_eq!(to_big_nat(&BigUint::from(12345678901234567890u64)).to_u64(), Some(12345678901234567890));
}

#[test]
fn primes_and_shapes() {
    assert_eq!(generate_prime(11, 16, 1 << 11), Some(2017));
    assert_eq!(generate_prime(11, 16, 2017), Some(1889));
    assert_eq!(generate_prime(62, 16, 1 << 62), Some(4611686018427387761));
    assert_eq!(generate_prime(62, 16, 4611686018427387761), Some(4611686018427387617));
    assert_eq!(generate_prime(9, 16, 1 << 9), None);
    assert_eq!(generate_prime(63, 16, 1 << 62), None);
    assert_eq!(generate_prime(10, 2048, 1 << 10), None);
    assert_eq!(generate_prime(11, 16, 1024), None);
    assert_eq!(generate_prime(11, 16, 1025), None);
    assert!(supports_ntt(1153, 8));
    assert!(supports_ntt(1153, 64));
    assert!(!supports_ntt(1153, 128));
    assert!(!supports_ntt(1155, 1));
    assert!(!supports_ntt(2, 8));
    assert!(supports_opt(4611686018326724609));
    assert!(!supports_opt(1153));
    assert!(!supports_opt(0));
    assert!(!supports_opt(u64::MAX));
}

#[test]
fn inverses_by_euclid() {
    assert_eq!(inv_mod(3, 17), Some(6));
    assert_eq!(inv_mod(1, 2), Some(1));
    assert_eq!(inv_mod(0, 2), None);
    assert_eq!(inv_mod(2, 4), None);
    assert_eq!(inv_mod(7, 15), Some(13));
    assert_eq!(inv_mod(5, 15), None);
    let mut rng = thread_rng();
    for m in [17u64, 1153, 4611686018326724609, (1u64 << 62) - 1] {
        for _ in 0..100 {
            let a = rng.next_u64() % m;
            if let Some(x) = inv_mod(a, m) {
                assert!(x < m);
                assert_eq!((a as u128 * x as u128) % (m as u128), 1);
            }
        }
    }
}

#[test]
fn transforms_undo_each_other() {
    let mut rng = thread_rng();
    for size in [8usize, 16, 32, 1024] {
        for p in [1153u64, 4611686018326724609] {
            let q = Modulus::new(p).unwrap();
            if !supports_ntt(p, size) {
                assert!(NttOperator::new(&q, size).is_none());
                assert!(NativeNtt::new(&q, size).is_none());
                continue;
            }
            let op = NttOperator::new(&q, size).unwrap();
            let native = NativeNtt::new(&q, size).unwrap();
            let a: Vec<u64> = (0..size).map(|_| rng.next_u64() % p).collect();
            let b: Vec<u64> = (0..size).map(|_| rng.next_u64() % p).collect();

            let mut x = a.clone();
            op.forward(&mut x);
            assert_ne!(x, a);
            let mut y = x.clone();
            op.backward(&mut y);
            assert_eq!(y, a);
            let mut y = a.clone();
            op.forward_vt(&mut y);
            assert_eq!(y, x);
            let mut y = a.clone();
            op.forward_vt_lazy(&mut y);
            assert_eq!(y, x);
            op.backward_vt(&mut y);
            assert_eq!(y, a);

            for vt in [false, true] {
                let mut x = a.clone();
                native.forward(&mut x, vt);
                let mut y = x.clone();
                native.backward(&mut y, vt);
                assert_eq!(y, a);
            }

            // the product in the transform domain is the product modulo x^n + 1
            let mut expected = vec![0u64; size];
            for i in 0..size {
                for j in 0..size {
                    let prod = q.mul(a[i], b[j]);
                    if i + j >= size {
                        expected[i + j - size] = q.sub(expected[i + j - size], prod);
                    } else {
                        expected[i + j] = q.add(expected[i + j], prod);
                    }
                }
                if size > 64 && i > 8 {
                    break;
                }
            }
            if size <= 64 {
                let mut fa = a.clone();
                let mut fb = b.clone();
                op.forward(&mut fa);
                op.forward(&mut fb);
                q.mul_vec(&mut fa, &fb);
                op.backward(&mut fa);
                assert_eq!(fa, expected);
                let mut fa = a.clone();
                let mut fb = b.clone();
                native.forward(&mut fa, false);
                native.forward(&mut fb, false);
                q.mul_vec(&mut fa, &fb);
                native.backward(&mut fa, false);
                assert_eq!(fa, expected);
            }
            assert!(op.eq(&NttOperator::new(&q, size).unwrap()));
        }
    }
    let q = Modulus::new(1153).unwrap();
    let r = Modulus::new(4611686018326724609).unwrap();
    assert!(!NttOperator::new(&q, 8).unwrap().eq(&NttOperator::new(&q, 16).unwrap()));
    assert!(!NttOperator::new(&q, 8).unwrap().eq(&NttOperator::new(&r, 8).unwrap()));
}

#[test]
fn residue_number_systems() {
    assert_eq!(RnsContext::new(&[]).unwrap_err().to_string(), "The list of moduli is empty");
    assert_eq!(
        RnsContext::new(&[3, 1]).unwrap_err().to_string(),
        "modulus should be between 2 and 2^62-1"
    );
    assert_eq!(RnsContext::new(&[3, 6]).unwrap_err().to_string(), "The moduli are not coprime");
    assert_eq!(RnsContext::new(&[3, 3]).unwrap_err().to_string(), "The moduli are not coprime");
    assert!(RnsContext::new(&[2]).is_ok());
    let rns = RnsContext::new(&[4, 15, 1153]).unwrap();
    assert_eq!(rns.modulus().to_u64(), Some(4 * 15 * 1153));
    assert!(rns.get_garner(3).is_none());
    for x in [0u64, 1, 59, 60, 1152, 1153, 4 * 15 * 1153 - 1] {
        let rests = rns.project(&BigNat::from_u64(x));
        assert_eq!(rests, vec![x % 4, x % 15, x % 1153]);
        assert_eq!(rns.lift(&rests).to_u64(), Some(x));
    }
    // the Garner coefficient of a modulus is 1 modulo it and 0 modulo the others
    for i in 0..3 {
        let g = rns.get_garner(i).unwrap();
        let rests = rns.project(g);
        for j in 0..3 {
            assert_eq!(rests[j], if i == j { 1 } else { 0 });
        }
    }
}

fn scale_exactly(x: &BigUint, q: &BigUint, num: &BigUint, den: &BigUint, floor: bool) -> (bool, BigUint) {
    let negative = *x >= (q >> 1);
    let magnitude = if negative { q - x } else { x.clone() };
    let scaled = if floor {
        if negative {
            (&magnitude * num + den - 1u32) / den
        } else {
            (&magnitude * num) / den
        }
    } else {
        (&magnitude * num + (den >> 1)) / den
    };
    (negative, scaled)
}

#[test]
fn scaling_is_exact() {
    let mut rng = thread_rng();
    let primes: Vec<u64> = vec![
        1153,
        4611686018326724609,
        4611686018309947393,
        4611686018282684417,
        4611686018257518593,
        4611686018232352769,
        4611686018171535361,
    ];
    let mut bases = 0;
    while bases < 100 {
        let from_count = rng.gen_range(1..4usize);
        let to_count = rng.gen_range(1..4usize);
        let mut from_moduli: Vec<u64> = vec![];
        while from_moduli.len() < from_count {
            let p = primes[rng.gen_range(0..primes.len())];
            if !from_moduli.contains(&p) {
                from_moduli.push(p);
            }
        }
        let mut to_moduli: Vec<u64> = vec![];
        while to_moduli.len() < to_count {
            let p = primes[rng.gen_range(0..primes.len())];
            if !to_moduli.contains(&p) {
                to_moduli.push(p);
            }
        }
        let from = Arc::new(Context::new(&from_moduli, 8).unwrap());
        let to = Arc::new(Context::new(&to_moduli, 8).unwrap());
        let q: BigUint = from_moduli.iter().map(|m| BigUint::from(*m)).product();
        let num = BigUint::from(rng.next_u64() >> rng.gen_range(0..64)) + 1u32;
        let den = BigUint::from(rng.next_u64() >> rng.gen_range(0..64)) + 1u32;
        let scaler =
            Scaler::new(&from, &to, ScalingFactor::new(&to_big_nat(&num), &to_big_nat(&den))).unwrap();
        let p = Poly::random_from_seed(&from, Representation::PowerBasis, rng.gen());
        for floor in [false, true] {
            let scaled = scaler.scale(&p, floor).unwrap();
            assert_eq!(scaled.get_representation(), Representation::PowerBasis);
            let lifted = p.to_vec_big();
            for j in 0..8 {
                let x = to_biguint(&lifted[j]);
                let (negative, y) = scale_exactly(&x, &q, &num, &den, floor);
                for (i, m) in to_moduli.iter().enumerate() {
                    let rest = (&y % *m).to_u64_digits().first().copied().unwrap_or(0);
                    let expected = if negative { (*m - rest) % *m } else { rest };
                    assert_eq!(scaled.coefficients()[i][j], expected);
                }
            }
        }
        bases += 1;
    }
}

#[test]
fn scaling_refuses_other_polynomials() {
    let from = Arc::new(Context::new(&[1153], 8).unwrap());
    let to = Arc::new(Context::new(&[4611686018326724609], 8).unwrap());
    let wide = Arc::new(Context::new(&[4611686018326724609], 16).unwrap());
    let scaler = Scaler::new(&from, &to, ScalingFactor::one()).unwrap();
    assert!(Scaler::new(&from, &wide, ScalingFactor::one()).is_err());
    let p = Poly::random_from_seed(&from, Representation::PowerBasis, [1; 32]);
    assert!(scaler.scale(&p, false).is_ok());
    let ntt = Poly::random_from_seed(&from, Representation::Ntt, [1; 32]);
    assert_eq!(
        scaler.scale(&ntt, false).unwrap_err().to_string(),
        "The input polynomial is not in the power basis"
    );
    let other = Poly::random_from_seed(&to, Representation::PowerBasis, [1; 32]);
    assert_eq!(
        scaler.scale(&other, false).unwrap_err().to_string(),
        "The input polynomial does not have the correct context"
    );
    // with the factor 1, a small value keeps its residues
    // 576 is the half of 1153 rounded down: from there on a residue stands for a negative number
    let small = Poly::from_coefficients_i64(&[1, -1, 5, -5, 0, 575, 576, 100], &from).unwrap();
    let scaled = scaler.scale(&small, false).unwrap();
    let m = 4611686018326724609u64;
    assert_eq!(scaled.coefficients()[0], vec![1, m - 1, 5, m - 5, 0, 575, m - 577, 100]);
}

#[test]
fn contexts_and_polynomials() {
    assert_eq!(
        Context::new(&[1153], 7).unwrap_err().to_string(),
        "The degree is not a power of two larger or equal to 8"
    );
    assert_eq!(
        Context::new(&[1153], 4).unwrap_err().to_string(),
        "The degree is not a power of two larger or equal to 8"
    );
    assert_eq!(Context::new(&[], 8).unwrap_err().to_string(), "The list of moduli is empty");
    assert_eq!(
        Context::new(&[1153, 1153], 8).unwrap_err().to_string(),
        "The moduli are not coprime"
    );
    assert_eq!(
        Context::new(&[1153, 15], 8).unwrap_err().to_string(),
        "Impossible to construct a Ntt operator"
    );
    let ctx = Arc::new(Context::new(&[1153, 4611686018326724609], 8).unwrap());
    assert!(ctx.equals(&Context::new(&[1153, 4611686018326724609], 8).unwrap()));
    assert!(!ctx.equals(&Context::new(&[1153], 8).unwrap()));
    assert!(!ctx.equals(&Context::new(&[1153, 4611686018326724609], 16).unwrap()));

    let zero = Poly::zero(&ctx, Representation::Ntt);
    assert_eq!(zero.coefficients(), &vec![vec![0u64; 8]; 2]);
    let p = Poly::from_coefficients_u64(&[1, 2, 1153, 1154], &ctx).unwrap();
    assert_eq!(p.coefficients()[0], vec![1, 2, 0, 1, 0, 0, 0, 0]);
    assert_eq!(p.coefficients()[1], vec![1, 2, 1153, 1154, 0, 0, 0, 0]);
    assert!(Poly::from_coefficients_u64(&[0; 9], &ctx).is_err());
    assert!(Poly::from_coefficients_i64(&[0; 9], &ctx).is_err());
    let q = Poly::from_coefficients_i64(&[-1, 1], &ctx).unwrap();
    assert_eq!(q.coefficients()[0], vec![1152, 1, 0, 0, 0, 0, 0, 0]);
    let b = Poly::from_coefficients_big(&[BigNat::from_u64(1153 * 3 + 2)], &ctx).unwrap();
    assert_eq!(b.coefficients()[0][0], 2);
    assert_eq!(b.coefficients()[1][0], 1153 * 3 + 2);

    // (1 + 2x) * (-1 + x) = -1 - x + 2x^2
    let small = Poly::from_coefficients_u64(&[1, 2], &ctx).unwrap();
    let mut a = small.copy();
    let mut c = q.copy();
    a.change_representation(Representation::Ntt);
    c.change_representation(Representation::NttShoup);
    let mut product = a.mul(&c);
    assert_eq!(product.get_representation(), Representation::Ntt);
    product.change_representation(Representation::PowerBasis);
    let expected = Poly::from_coefficients_i64(&[-1, -1, 2], &ctx).unwrap();
    assert!(product.equals(&expected));
    let mut back = a.copy();
    back.change_representation(Representation::PowerBasis);
    assert!(back.equals(&small));

    let sum = small.add(&q);
    assert!(sum.equals(&Poly::from_coefficients_i64(&[0, 3], &ctx).unwrap()));
    let diff = small.sub(&q);
    assert!(diff.equals(&Poly::from_coefficients_i64(&[2, 1], &ctx).unwrap()));
    assert!(small.neg().equals(&Poly::from_coefficients_i64(&[-1, -2], &ctx).unwrap()));
    let scaled = small.mul_scalar_big(&BigNat::from_u64(1154));
    assert_eq!(scaled.coefficients()[0], vec![1, 2, 0, 0, 0, 0, 0, 0]);
    assert_eq!(scaled.coefficients()[1], vec![1154, 2308, 0, 0, 0, 0, 0, 0]);
    let lifted = q.to_vec_big();
    assert_eq!(to_biguint(&lifted[0]), BigUint::from(1153u64) * 4611686018326724609u64 - 1u32);
    assert_eq!(lifted[1].to_u64(), Some(1));

    let mut wiped = small.copy();
    wiped.zeroize();
    assert_eq!(wiped.coefficients(), &vec![vec![0u64; 8]; 2]);
    let mut shoup = c.copy();
    shoup.zeroize();
    assert_eq!(shoup.coefficients(), &vec![vec![0u64; 8]; 2]);

    assert!(Poly::small_from_seed(&ctx, Representation::PowerBasis, 0, [0; 32]).is_err());
    assert!(Poly::small_from_seed(&ctx, Representation::PowerBasis, 17, [0; 32]).is_err());
    for variance in 1..=16usize {
        let s = Poly::small_from_seed(&ctx, Representation::PowerBasis, variance, [9; 32]).unwrap();
        for x in &s.coefficients()[0] {
            assert!(*x <= 2 * variance as u64 || *x >= 1153 - 2 * variance as u64);
        }
    }
}

#[test]
fn scrubbing_leaves_zeros_in_every_representation() {
    let ctx = Arc::new(Context::new(&[1153, 4611686018326724609], 8).unwrap());
    for representation in
        [Representation::PowerBasis, Representation::Ntt, Representation::NttShoup]
    {
        let mut p = Poly::from_coefficients_u64(&[1, 2, 3, 4, 5, 6, 7, 8], &ctx).unwrap();
        p.change_representation(representation);
        assert_ne!(p.coefficients(), &vec![vec![0u64; 8]; 2]);
        p.scrub();
        assert_eq!(p.coefficients(), &vec![vec![0u64; 8]; 2]);
        assert_eq!(p.get_representation(), representation);
        assert!(!p.is_variable_time());
        // a scrubbed polynomial is the zero polynomial, and can still be used
        let mut zero = Poly::zero(&ctx, representation);
        assert!(p.equals(&zero));
        zero.scrub();
        assert!(p.equals(&zero));
    }
}
