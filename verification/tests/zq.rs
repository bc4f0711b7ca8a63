use bfv::zq::{reduce1, reduce1_vt, Modulus};
use rand::{thread_rng, RngCore};

fn sample_moduli() -> Vec<u64> {
    vec![2u64, 3, 17, 1987, 1153, 4611686018326724609, (1u64 << 62) - 1, 4611686018427387761]
}

#[test]
fn test_mul_opt() {
    let ntests = 100;
    let mut rng = rand::thread_rng();

    for p in [4611686018326724609] {
        let q = Modulus::new(p).unwrap();
        assert!(bfv::nfl::supports_opt(p));

        assert_eq!(q.mul_opt(0, 1), 0);
        assert_eq!(q.mul_opt(1, 1), 1);
        assert_eq!(q.mul_opt(2 % p, 3 % p), 6 % p);
        assert_eq!(q.mul_opt(p - 1, 1), p - 1);
        assert_eq!(q.mul_opt(p - 1, 2 % p), p - 2);

        for _ in 0..ntests {
            let a = rng.next_u64() % p;
            let b = rng.next_u64() % p;
            assert_eq!(q.mul_opt(a, b), (((a as u128) * (b as u128)) % (p as u128)) as u64);
        }
    }
}

#[test]
fn test_pow() {
    let ntests = 10;
    let mut rng = rand::thread_rng();

    for p in [2u64, 3, 17, 1987, 4611686018326724609] {
        let q = Modulus::new(p).unwrap();

        assert_eq!(q.pow(p - 1, 0), 1);
        assert_eq!(q.pow(p - 1, 1), p - 1);
        assert_eq!(q.pow(p - 1, 2 % p), 1);
        assert_eq!(q.pow(1, p - 2), 1);
        assert_eq!(q.pow(1, p - 1), 1);

        for _ in 0..ntests {
            let a = rng.next_u64() % p;
            let b = (rng.next_u64() % p) % 1000;
            let mut c = b;
            let mut r = 1;
            while c > 0 {
                r = q.mul(r, a);
                c -= 1;
            }
            assert_eq!(q.pow(a, b), r);
        }
    }
}

#[test]
fn test_inv() {
    let ntests = 100;
    let mut rng = rand::thread_rng();

    for p in [2u64, 3, 17, 1987, 4611686018326724609] {
        let q = Modulus::new(p).unwrap();

        assert!(q.inv(0).is_none());
        assert_eq!(q.inv(1).unwrap(), 1);
        assert_eq!(q.inv(p - 1).unwrap(), p - 1);

        for _ in 0..ntests {
            let a = rng.next_u64() % p;
            let b = q.inv(a);

            if a == 0 {
                assert!(b.is_none())
            } else {
                assert!(b.is_some());
                assert_eq!(q.mul(a, b.unwrap()), 1)
            }
        }
    }
}

#[test]
fn inv_fails_for_a_composite_modulus() {
    let q = Modulus::new(15).unwrap();
    assert!(q.inv(2).is_none());
    assert!(q.inv(1).is_none());
}

#[test]
fn modulus_new_rejects_out_of_range() {
    let mut rng = thread_rng();
    for _ in 0..100 {
        let p = rng.next_u64();
        assert!(Modulus::new(p | (1u64 << 62)).is_err());
        assert!(Modulus::new(p | (1u64 << 63)).is_err());
        if p >> 2 >= 2 {
            assert!(Modulus::new(p >> 2).is_ok_and(|q| q.modulus() == p >> 2));
        }
    }
    assert!(Modulus::new(0).is_err());
    assert!(Modulus::new(1).is_err());
    assert!(Modulus::new(2).is_ok());
    assert!(Modulus::new((1u64 << 62) - 1).is_ok());
    assert!(Modulus::new(1u64 << 62).is_err());
    assert_eq!(Modulus::new(1).unwrap_err().to_string(), "modulus should be between 2 and 2^62-1");
}

#[test]
fn reduce1_is_the_remainder() {
    assert_eq!(reduce1(0, 5), 0);
    assert_eq!(reduce1(4, 5), 4);
    assert_eq!(reduce1(5, 5), 0);
    assert_eq!(reduce1(9, 5), 4);
    assert_eq!(reduce1_vt(9, 5), 4);
    let p = (1u64 << 62) - 1;
    assert_eq!(reduce1(2 * p - 1, p), p - 1);
    assert_eq!(reduce1_vt(2 * p - 1, p), p - 1);
}

#[test]
fn constant_and_variable_time_agree_with_the_mathematics() {
    let mut rng = thread_rng();
    for p in sample_moduli() {
        let q = Modulus::new(p).unwrap();
        for _ in 0..200 {
            let a = rng.next_u64() % p;
            let b = rng.next_u64() % p;
            let sum = ((a as u128 + b as u128) % (p as u128)) as u64;
            let diff = ((a as u128 + p as u128 - b as u128) % (p as u128)) as u64;
            let prod = ((a as u128 * b as u128) % (p as u128)) as u64;
            assert_eq!(q.add(a, b), sum);
            assert_eq!(q.add_vt(a, b), sum);
            assert_eq!(q.sub(a, b), diff);
            assert_eq!(q.sub_vt(a, b), diff);
            assert_eq!(q.mul(a, b), prod);
            assert_eq!(q.mul_vt(a, b), prod);
            assert_eq!(q.neg(a), (p - a) % p);
            assert_eq!(q.neg_vt(a), (p - a) % p);
            let b_shoup = q.shoup(b);
            assert_eq!(b_shoup, (((b as u128) << 64) / (p as u128)) as u64);
            let any = rng.next_u64();
            let wide = ((any as u128 * b as u128) % (p as u128)) as u64;
            assert_eq!(q.mul_shoup(any, b, b_shoup), wide);
            assert_eq!(q.mul_shoup_vt(any, b, b_shoup), wide);
            assert!(q.lazy_mul_shoup(any, b, b_shoup) < 2 * p);
            if q.supports_opt() {
                assert_eq!(q.mul_opt(a, b), prod);
                assert_eq!(q.mul_opt_vt(a, b), prod);
                assert_eq!(q.reduce_opt(any), any % p);
                assert_eq!(q.reduce_opt_vt(any), any % p);
            }
        }
    }
}

#[test]
fn reductions_are_the_remainder() {
    let mut rng = thread_rng();
    for p in sample_moduli() {
        let q = Modulus::new(p).unwrap();
        for _ in 0..200 {
            let a = rng.next_u64();
            let wide = ((rng.next_u64() as u128) << 64) | (rng.next_u64() as u128);
            assert_eq!(q.reduce(a), a % p);
            assert_eq!(q.reduce_vt(a), a % p);
            assert_eq!(q.reduce_u128(wide) as u128, wide % (p as u128));
            assert_eq!(q.reduce_u128_vt(wide) as u128, wide % (p as u128));
            assert!(q.lazy_reduce(a) < 2 * p);
            assert_eq!(q.lazy_reduce(a) % p, a % p);
            assert!(q.lazy_reduce_u128(wide) < 2 * p);
            let s = a as i64;
            let expected = (s as i128).rem_euclid(p as i128) as u64;
            assert_eq!(q.reduce_i64(s), expected);
            assert_eq!(q.reduce_i64_vt(s), expected);
        }
        assert_eq!(q.reduce_u128(u128::MAX) as u128, u128::MAX % (p as u128));
        assert_eq!(q.reduce(u64::MAX), u64::MAX % p);
        assert_eq!(q.reduce_i64(i64::MIN), (i64::MIN as i128).rem_euclid(p as i128) as u64);
    }
}

#[test]
fn exact_values_of_the_kernel() {
    let q = Modulus::new(17).unwrap();
    assert_eq!(q.add(16, 16), 15);
    assert_eq!(q.sub(3, 5), 15);
    assert_eq!(q.neg(0), 0);
    assert_eq!(q.neg(1), 16);
    assert_eq!(q.mul(16, 16), 1);
    assert_eq!(q.pow(3, 4), 13);
    assert_eq!(q.inv(3), Some(6));
    assert_eq!(q.shoup(1), 1085102592571150095);
    assert_eq!(q.center_vt(7), 7);
    assert_eq!(q.center_vt(8), -9);
    assert_eq!(q.center_vt(16), -1);
    assert_eq!(q.reduce_i64(-1), 16);
}

#[test]
fn vector_operations_work_element_by_element() {
    let mut rng = thread_rng();
    for p in sample_moduli() {
        let q = Modulus::new(p).unwrap();
        let a: Vec<u64> = (0..37).map(|_| rng.next_u64() % p).collect();
        let b: Vec<u64> = (0..37).map(|_| rng.next_u64() % p).collect();
        let scalar = rng.next_u64() % p;

        let mut c = a.clone();
        q.add_vec(&mut c, &b);
        assert_eq!(c, a.iter().zip(&b).map(|(x, y)| q.add(*x, *y)).collect::<Vec<_>>());
        let mut c = a.clone();
        q.add_vec_vt(&mut c, &b);
        assert_eq!(c, a.iter().zip(&b).map(|(x, y)| q.add(*x, *y)).collect::<Vec<_>>());

        let mut c = a.clone();
        q.sub_vec(&mut c, &b);
        assert_eq!(c, a.iter().zip(&b).map(|(x, y)| q.sub(*x, *y)).collect::<Vec<_>>());
        let mut c = a.clone();
        q.sub_vec_vt(&mut c, &b);
        assert_eq!(c, a.iter().zip(&b).map(|(x, y)| q.sub(*x, *y)).collect::<Vec<_>>());

        let mut c = a.clone();
        q.mul_vec(&mut c, &b);
        assert_eq!(c, a.iter().zip(&b).map(|(x, y)| q.mul(*x, *y)).collect::<Vec<_>>());
        let mut c = a.clone();
        q.mul_vec_vt(&mut c, &b);
        assert_eq!(c, a.iter().zip(&b).map(|(x, y)| q.mul(*x, *y)).collect::<Vec<_>>());

        let mut c = a.clone();
        q.scalar_mul_vec(&mut c, scalar);
        assert_eq!(c, a.iter().map(|x| q.mul(*x, scalar)).collect::<Vec<_>>());
        let mut c = a.clone();
        q.scalar_mul_vec_vt(&mut c, scalar);
        assert_eq!(c, a.iter().map(|x| q.mul(*x, scalar)).collect::<Vec<_>>());

        let b_shoup = q.shoup_vec(&b);
        let mut c = a.clone();
        q.mul_shoup_vec(&mut c, &b, &b_shoup);
        assert_eq!(c, a.iter().zip(&b).map(|(x, y)| q.mul(*x, *y)).collect::<Vec<_>>());
        let mut c = a.clone();
        q.mul_shoup_vec_vt(&mut c, &b, &b_shoup);
        assert_eq!(c, a.iter().zip(&b).map(|(x, y)| q.mul(*x, *y)).collect::<Vec<_>>());

        let mut c = a.clone();
        q.neg_vec(&mut c);
        assert_eq!(c, a.iter().map(|x| q.neg(*x)).collect::<Vec<_>>());
        let mut c = a.clone();
        q.neg_vec_vt(&mut c);
        assert_eq!(c, a.iter().map(|x| q.neg(*x)).collect::<Vec<_>>());

        let raw: Vec<u64> = (0..37).map(|_| rng.next_u64()).collect();
        let mut c = raw.clone();
        q.reduce_vec(&mut c);
        assert_eq!(c, raw.iter().map(|x| x % p).collect::<Vec<_>>());
        let mut c = raw.clone();
        q.reduce_vec_vt(&mut c);
        assert_eq!(c, raw.iter().map(|x| x % p).collect::<Vec<_>>());
        assert_eq!(q.reduce_vec_new(&raw), raw.iter().map(|x| x % p).collect::<Vec<_>>());
        assert_eq!(q.reduce_vec_new_vt(&raw), raw.iter().map(|x| x % p).collect::<Vec<_>>());

        let signed: Vec<i64> = raw.iter().map(|x| *x as i64).collect();
        let expected: Vec<u64> =
            signed.iter().map(|x| (*x as i128).rem_euclid(p as i128) as u64).collect();
        assert_eq!(q.reduce_vec_i64(&signed), expected);
        assert_eq!(q.reduce_vec_i64_vt(&signed), expected);

        let centered = q.center_vec_vt(&a);
        for (x, y) in a.iter().zip(&centered) {
            assert_eq!(q.reduce_i64(*y), *x);
            assert!(*y < (p as i64 + 1) / 2 && *y >= -((p / 2) as i64) - 1);
        }
    }
}

#[test]
fn random_vectors_follow_their_seed() {
    let mut rng = thread_rng();
    for p in sample_moduli() {
        let q = Modulus::new(p).unwrap();
        let v = q.random_vec(100);
        assert_eq!(v.len(), 100);
        assert!(v.iter().all(|x| *x < p));

        let mut seed = [0u8; 32];
        rng.fill_bytes(&mut seed);
        let x = q.random_vec_from_seed(100, seed);
        let y = q.random_vec_from_seed(100, seed);
        assert_eq!(x.len(), 100);
        assert_eq!(x, y);
        assert!(x.iter().all(|v| *v < p));

        rng.fill_bytes(&mut seed);
        let y = q.random_vec_from_seed(100, seed);
        if p.leading_zeros() <= 30 {
            assert_ne!(x, y);
        }
    }
}
