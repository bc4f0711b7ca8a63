use bfv::ciphertext::{mul, mul2};
use bfv::encoding::Encoding;
use bfv::evaluation_key::EvaluationKeyBuilder;
use bfv::parameters::BfvParameters;
use bfv::plaintext::Plaintext;
use bfv::secret_key::SecretKey;
use num_bigint::BigUint;
use std::sync::Arc;

fn product_of(moduli: &[u64]) -> BigUint {
    let mut p = BigUint::from(1u64);
    for m in moduli {
        p *= BigUint::from(*m);
    }
    p
}

fn product_modulo_x_n_plus_1(par: &BfvParameters, x: &[u64], y: &[u64]) -> Vec<u64> {
    let ring = par.plaintext_ring();
    let n = par.degree();
    let mut product = vec![0u64; n];
    for i in 0..n {
        for j in 0..n {
            let term = ring.mul(x[i], y[j]);
            if i + j < n {
                product[i + j] = ring.add(product[i + j], term);
            } else {
                product[i + j - n] = ring.sub(product[i + j - n], term);
            }
        }
    }
    product
}

#[test]
fn the_moduli_leave_room_for_a_product() {
    let par = Arc::new(BfvParameters::default(2).unwrap());
    assert!(par.context().uses_reference_tables());
    assert!(par.multiplication_1().get_to().uses_reference_tables());
    let n = BigUint::from(par.degree());
    let t = BigUint::from(par.plaintext_modulus());
    let b = BigUint::from(2 * par.variance());
    let q = product_of(par.moduli());
    let above = product_of(par.multiplication_1().get_to().moduli_u64());
    let half_up = &q - &q / 2u32;
    // the larger context has room for the products of the numbers
    assert!(&above / 2u32 > 2u32 * (&n * &half_up * &half_up));
    // the errors are small
    assert!(&b + &t <= q);
    assert!(q >= &n * &t * (&b * &b + &t * (&b + &b) + &t * &t) + &t * &t);
    // the ciphertext modulus has room for the error of the product
    let wraps = 3u32 + &n * &b;
    let rounding = 1u32 + &n * &b + &n * (&n * &b * &b);
    let tensor = &n * &t * (1u32 + &wraps) * (&b + &b + 2u32 * &t) + &t + 1u32 + &rounding;
    let switching = BigUint::from(par.moduli().len())
        * (&n * BigUint::from(1u64 << 62) * BigUint::from(2 * par.variance()));
    assert!(q >= 4u32 * &t * (&t + &tensor + &switching));
    assert!(BigUint::from(par.moduli()[0]) >= 2u32 * &t);
}

#[test]
fn the_moduli_leave_room_for_a_balanced_product() {
    let par = Arc::new(BfvParameters::default(2).unwrap());
    assert!(par.context().uses_reference_tables());
    assert!(par.multiplication_2().get_to().uses_reference_tables());
    let k = par.moduli().len();
    let all = par.multiplication_2().get_to().moduli_u64();
    assert_eq!(all.len(), 2 * k);
    assert_eq!(&all[..k], par.moduli());
    let n = BigUint::from(par.degree());
    let t = BigUint::from(par.plaintext_modulus());
    let b = BigUint::from(2 * par.variance());
    let q = product_of(par.moduli());
    let p = product_of(&all[k..]);
    // the moduli of the extension are about as large as those of the ciphertexts
    assert!(q <= 4u32 * &p);
    assert!(&b + &t <= q);
    assert!(q >= &n * &t * (&b * &b + &t * (&b + &b) + &t * &t) + &t * &t);
    // the ciphertext modulus has room for the error of the product
    let side = 1u32 + &n * &b;
    let wraps = 3u32 + &n * &b;
    let rounding =
        4u32 * (&t * (&n * (&side * &side))) + (1u32 + &n * &b + &n * (&n * &b * &b));
    let tensor = &n * &t * (1u32 + &wraps) * (&b + &b + 2u32 * &t) + &t + 1u32 + &rounding;
    let switching = BigUint::from(par.moduli().len())
        * (&n * BigUint::from(1u64 << 62) * BigUint::from(2 * par.variance()));
    assert!(q >= 4u32 * &t * (&t + &tensor + &switching));
    assert!(BigUint::from(par.moduli()[0]) >= 2u32 * &t);
}

#[test]
fn products_of_ciphertexts_decrypt_to_products_of_polynomials() -> Result<(), String> {
    let par = Arc::new(BfvParameters::default(2).unwrap());
    let ring = par.plaintext_ring();
    for round in 0..20u8 {
        let sk = SecretKey::random_from_seed(&par, [round; 32]);
        let ek = EvaluationKeyBuilder::new(&sk)
            .enable_relinearization()
            .build_with_seeds([round + 1; 32], [round + 2; 32])?;
        let x = ring.random_vec(par.degree());
        let y = ring.random_vec(par.degree());
        let px = Plaintext::try_encode(&x, Encoding::poly(), &par)?;
        let py = Plaintext::try_encode(&y, Encoding::poly(), &par)?;
        let cx = sk.encrypt_with_seeds(&px, [round + 3; 32], [round + 4; 32])?;
        let cy = sk.encrypt_with_seeds(&py, [round + 5; 32], [round + 6; 32])?;
        let product = mul(&cx, &cy, &ek)?;
        assert_eq!(product.polynomials().len(), 2);
        assert_eq!(sk.decrypt(&product)?.value(), &product_modulo_x_n_plus_1(&par, &x, &y));
        let balanced = mul2(&cx, &cy, &ek)?;
        assert_eq!(balanced.polynomials().len(), 2);
        assert_eq!(sk.decrypt(&balanced)?.value(), &product_modulo_x_n_plus_1(&par, &x, &y));
    }
    Ok(())
}

#[test]
fn products_without_relinearization_decrypt_to_products_of_polynomials() -> Result<(), String> {
    let par = Arc::new(BfvParameters::default(2).unwrap());
    let ring = par.plaintext_ring();
    for round in 0..20u8 {
        let sk = SecretKey::random_from_seed(&par, [round; 32]);
        let x = ring.random_vec(par.degree());
        let y = ring.random_vec(par.degree());
        let px = Plaintext::try_encode(&x, Encoding::poly(), &par)?;
        let py = Plaintext::try_encode(&y, Encoding::poly(), &par)?;
        let cx = sk.encrypt_with_seeds(&px, [round + 3; 32], [round + 4; 32])?;
        let cy = sk.encrypt_with_seeds(&py, [round + 5; 32], [round + 6; 32])?;
        let product = cx.mul(&cy)?;
        assert_eq!(product.polynomials().len(), 3);
        assert_eq!(sk.decrypt(&product)?.value(), &product_modulo_x_n_plus_1(&par, &x, &y));
    }
    Ok(())
}
