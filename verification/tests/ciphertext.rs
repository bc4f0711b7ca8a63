use bfv::ciphertext::{mul, mul2, Ciphertext};
use bfv::encoding::Encoding;
use bfv::evaluation_key::EvaluationKeyBuilder;
use bfv::parameters::{BfvParameters, BfvParametersBuilder};
use bfv::plaintext::Plaintext;
use bfv::secret_key::SecretKey;
use std::sync::Arc;

fn both_parameters() -> [Arc<BfvParameters>; 2] {
    [
        Arc::new(BfvParameters::default(1).unwrap()),
        Arc::new(BfvParameters::default(2).unwrap()),
    ]
}

#[test]
fn test_add() {
    let ntests = 100;
    for params in both_parameters() {
        for _ in 0..ntests {
            let a = params.plaintext_ring().random_vec(params.degree());
            let b = params.plaintext_ring().random_vec(params.degree());
            let mut c = a.clone();
            params.plaintext_ring().add_vec(&mut c, &b);

            let sk = SecretKey::random(&params);

            for encoding in [Encoding::poly(), Encoding::simd()] {
                let pt_a = Plaintext::try_encode(&a as &[u64], encoding.clone(), &params).unwrap();
                let pt_b = Plaintext::try_encode(&b as &[u64], encoding.clone(), &params).unwrap();

                let mut ct_a = sk.encrypt(&pt_a).unwrap();
                let ct_b = sk.encrypt(&pt_b).unwrap();
                let ct_c = ct_a.add(&ct_b).unwrap();
                ct_a.add_assign(&ct_b).unwrap();

                let pt_c = sk.decrypt(&ct_c).unwrap();
                assert_eq!(pt_c.try_decode(encoding.clone()).unwrap(), c);
                let pt_c = sk.decrypt(&ct_a).unwrap();
                assert_eq!(pt_c.try_decode(encoding.clone()).unwrap(), c);
            }
        }
    }
}

#[test]
fn test_sub() {
    for params in both_parameters() {
        let ntests = 100;
        for _ in 0..ntests {
            let a = params.plaintext_ring().random_vec(params.degree());
            let b = params.plaintext_ring().random_vec(params.degree());
            let mut c = a.clone();
            params.plaintext_ring().sub_vec(&mut c, &b);

            let sk = SecretKey::random(&params);

            for encoding in [Encoding::poly(), Encoding::simd()] {
                let pt_a = Plaintext::try_encode(&a as &[u64], encoding.clone(), &params).unwrap();
                let pt_b = Plaintext::try_encode(&b as &[u64], encoding.clone(), &params).unwrap();

                let mut ct_a = sk.encrypt(&pt_a).unwrap();
                let ct_b = sk.encrypt(&pt_b).unwrap();
                let ct_c = ct_a.sub(&ct_b).unwrap();
                ct_a.sub_assign(&ct_b).unwrap();

                let pt_c = sk.decrypt(&ct_c).unwrap();
                assert_eq!(pt_c.try_decode(encoding.clone()).unwrap(), c);
                let pt_c = sk.decrypt(&ct_a).unwrap();
                assert_eq!(pt_c.try_decode(encoding.clone()).unwrap(), c);
            }
        }
    }
}

#[test]
fn test_neg() {
    for params in both_parameters() {
        let ntests = 100;
        for _ in 0..ntests {
            let a = params.plaintext_ring().random_vec(params.degree());
            let mut c = a.clone();
            params.plaintext_ring().neg_vec(&mut c);

            let sk = SecretKey::random(&params);
            for encoding in [Encoding::poly(), Encoding::simd()] {
                let pt_a = Plaintext::try_encode(&a as &[u64], encoding.clone(), &params).unwrap();

                let ct_a = sk.encrypt(&pt_a).unwrap();
                let ct_c = ct_a.neg().unwrap();

                let pt_c = sk.decrypt(&ct_c).unwrap();
                assert_eq!(pt_c.try_decode(encoding.clone()).unwrap(), c);
            }
        }
    }
}

#[test]
fn test_scalar_mul() {
    for params in both_parameters() {
        let ntests = 100;
        for _ in 0..ntests {
            let a = params.plaintext_ring().random_vec(params.degree());
            let b = params.plaintext_ring().random_vec(params.degree());

            let sk = SecretKey::random(&params);
            for (which, encoding) in [Encoding::poly(), Encoding::simd()].into_iter().enumerate() {
                let mut c = vec![0u64; params.degree()];
                if which == 0 {
                    for i in 0..params.degree() {
                        for j in 0..params.degree() {
                            if i + j >= params.degree() {
                                c[(i + j) % params.degree()] = params.plaintext_ring().sub(
                                    c[(i + j) % params.degree()],
                                    params.plaintext_ring().mul(a[i], b[j]),
                                );
                            } else {
                                c[i + j] = params
                                    .plaintext_ring()
                                    .add(c[i + j], params.plaintext_ring().mul(a[i], b[j]));
                            }
                        }
                    }
                } else {
                    c = a.clone();
                    params.plaintext_ring().mul_vec(&mut c, &b);
                }

                let pt_a = Plaintext::try_encode(&a as &[u64], encoding.clone(), &params).unwrap();
                let pt_b = Plaintext::try_encode(&b as &[u64], encoding.clone(), &params).unwrap();

                let mut ct_a = sk.encrypt(&pt_a).unwrap();
                let ct_c = ct_a.mul_plaintext(&pt_b).unwrap();
                ct_a.mul_assign(&pt_b).unwrap();

                let pt_c = sk.decrypt(&ct_c).unwrap();
                assert_eq!(pt_c.try_decode(encoding.clone()).unwrap(), c);
                let pt_c = sk.decrypt(&ct_a).unwrap();
                assert_eq!(pt_c.try_decode(encoding.clone()).unwrap(), c);
            }
        }
    }
}

#[test]
fn test_mul() -> Result<(), String> {
    let par = Arc::new(BfvParameters::default(2).unwrap());
    for _ in 0..50 {
        // We will encode `values` in an Simd format, and check that the product is computed correctly.
        let values = par.plaintext_ring().random_vec(par.degree());
        let mut expected = values.clone();
        par.plaintext_ring().mul_vec(&mut expected, &values);

        let sk = SecretKey::random(&par);
        let pt = Plaintext::try_encode(&values as &[u64], Encoding::simd(), &par)?;

        let ct1 = sk.encrypt(&pt)?;
        let ct2 = sk.encrypt(&pt)?;
        let ct3 = ct1.mul(&ct2)?;
        let ct4 = ct3.mul(&ct3)?;

        println!("Noise: {}", sk.measure_noise(&ct3)?);
        let pt = sk.decrypt(&ct3)?;
        assert_eq!(pt.try_decode(Encoding::simd())?, expected);

        let e = expected.clone();
        par.plaintext_ring().mul_vec(&mut expected, &e);
        println!("Noise: {}", sk.measure_noise(&ct4)?);
        let pt = sk.decrypt(&ct4)?;
        assert_eq!(pt.try_decode(Encoding::simd())?, expected);
    }
    Ok(())
}

#[test]
fn test_mul_3() -> Result<(), String> {
    let par = Arc::new(BfvParameters::default(2).unwrap());
    for _ in 0..50 {
        // We will encode `values` in an Simd format, and check that the product is computed correctly.
        let values = par.plaintext_ring().random_vec(par.degree());
        let mut expected = values.clone();
        par.plaintext_ring().mul_vec(&mut expected, &values);

        let sk = SecretKey::random(&par);
        let ek = EvaluationKeyBuilder::new(&sk).enable_relinearization().build()?;
        let pt = Plaintext::try_encode(&values as &[u64], Encoding::simd(), &par)?;

        let ct1 = sk.encrypt(&pt)?;
        let ct2 = sk.encrypt(&pt)?;
        let ct3 = mul(&ct1, &ct2, &ek)?;

        println!("Noise: {}", sk.measure_noise(&ct3)?);
        let pt = sk.decrypt(&ct3)?;
        assert_eq!(pt.try_decode(Encoding::simd())?, expected);
    }
    Ok(())
}

#[test]
fn test_mul2() -> Result<(), String> {
    let ntests = 100;
    let par = Arc::new(BfvParameters::default(2).unwrap());
    for _ in 0..ntests {
        // We will encode `values` in an Simd format, and check that the product is computed correctly.
        let values = par.plaintext_ring().random_vec(par.degree());
        let mut expected = values.clone();
        par.plaintext_ring().mul_vec(&mut expected, &values);

        let sk = SecretKey::random(&par);
        let ek = EvaluationKeyBuilder::new(&sk).enable_relinearization().build()?;
        let pt = Plaintext::try_encode(&values as &[u64], Encoding::simd(), &par)?;

        let ct1 = sk.encrypt(&pt)?;
        let ct2 = sk.encrypt(&pt)?;
        let ct3 = mul2(&ct1, &ct2, &ek)?;

        println!("Noise: {}", sk.measure_noise(&ct3)?);
        let pt = sk.decrypt(&ct3)?;
        assert_eq!(pt.try_decode(Encoding::simd())?, expected);
    }
    Ok(())
}

#[test]
fn the_two_multiplications_decrypt_alike() -> Result<(), String> {
    let par = Arc::new(BfvParameters::default(2).unwrap());
    for _ in 0..20 {
        let a = par.plaintext_ring().random_vec(par.degree());
        let b = par.plaintext_ring().random_vec(par.degree());
        let mut expected = a.clone();
        par.plaintext_ring().mul_vec(&mut expected, &b);
        let sk = SecretKey::random(&par);
        let ek = EvaluationKeyBuilder::new(&sk).enable_relinearization().build()?;
        let ct1 = sk.encrypt(&Plaintext::try_encode(&a, Encoding::simd(), &par)?)?;
        let ct2 = sk.encrypt(&Plaintext::try_encode(&b, Encoding::simd(), &par)?)?;
        let first = sk.decrypt(&mul(&ct1, &ct2, &ek)?)?;
        let second = sk.decrypt(&mul2(&ct1, &ct2, &ek)?)?;
        assert!(first.equals(&second));
        assert_eq!(first.try_decode(Encoding::simd())?, expected);
    }
    Ok(())
}

#[test]
fn multiplication_errors() -> Result<(), String> {
    let par1 = Arc::new(BfvParameters::default(1).unwrap());
    let par2 = Arc::new(BfvParameters::default(2).unwrap());
    let sk1 = SecretKey::random(&par1);
    let sk2 = SecretKey::random(&par2);
    let pt1 = Plaintext::try_encode(&[1u64, 2], Encoding::poly(), &par1)?;
    let pt2 = Plaintext::try_encode(&[1u64, 2], Encoding::poly(), &par2)?;
    let ct1 = sk1.encrypt(&pt1)?;
    let ct2 = sk2.encrypt(&pt2)?;

    let plain = EvaluationKeyBuilder::new(&sk2).build()?;
    assert!(!plain.supports_relinearization());
    assert_eq!(
        mul(&ct2, &ct2, &plain).unwrap_err(),
        "The evaluation key does not support relinearization"
    );
    let ek2 = EvaluationKeyBuilder::new(&sk2).enable_relinearization().build()?;
    assert!(ek2.supports_relinearization());
    assert_eq!(mul(&ct1, &ct2, &ek2).unwrap_err(), "Incompatible parameters");
    assert_eq!(mul(&ct2, &ct1, &ek2).unwrap_err(), "Incompatible parameters");
    let ek1 = EvaluationKeyBuilder::new(&sk1).enable_relinearization().build()?;
    assert_eq!(mul(&ct2, &ct2, &ek1).unwrap_err(), "Incompatible parameters");
    assert_eq!(
        mul(&ct1, &ct1, &ek1).unwrap_err(),
        "Parameters do not allow for multiplication"
    );
    assert_eq!(
        mul2(&ct1, &ct1, &ek1).unwrap_err(),
        "Parameters do not allow for multiplication"
    );
    let three = ct2.mul(&ct2)?;
    assert_eq!(three.polynomials().len(), 3);
    assert_eq!(
        mul(&three, &ct2, &ek2).unwrap_err(),
        "Multiplication can only be performed on ciphertexts of size 2"
    );
    assert_eq!(
        mul2(&ct2, &three, &ek2).unwrap_err(),
        "Multiplication can only be performed on ciphertexts of size 2"
    );
    let empty = Ciphertext::zero(&par2);
    assert_eq!(
        empty.mul(&ct2).unwrap_err(),
        "Multiplication needs ciphertexts that hold polynomials"
    );
    assert_eq!(ct1.mul(&ct2).unwrap_err(), "Incompatible parameters");
    assert_eq!(ct1.add(&ct2).unwrap_err(), "Incompatible parameters");
    assert_eq!(
        three.add(&ct2).unwrap_err(),
        "The ciphertexts do not have the same number of polynomials"
    );
    assert_eq!(sk1.decrypt(&ct2).unwrap_err(), "Incompatible BFV parameters");
    assert_eq!(sk1.encrypt(&pt2).unwrap_err(), "Incompatible BFV parameters");
    assert_eq!(ct1.mul_plaintext(&pt2).unwrap_err(), "Incompatible parameters");
    assert_eq!(sk2.decrypt(&empty).unwrap_err(), "The ciphertext holds no polynomial");
    Ok(())
}

#[test]
fn the_zero_ciphertext_adopts_the_other_operand() -> Result<(), String> {
    let par = Arc::new(BfvParameters::default(2).unwrap());
    let sk = SecretKey::random(&par);
    let values = par.plaintext_ring().random_vec(par.degree());
    let pt = Plaintext::try_encode(&values, Encoding::poly(), &par)?;
    let ct = sk.encrypt(&pt)?;

    let mut acc = Ciphertext::zero(&par);
    assert_eq!(acc.polynomials().len(), 0);
    acc.add_assign(&ct)?;
    assert_eq!(acc.get_seed(), ct.get_seed());
    assert_eq!(sk.decrypt(&acc)?.try_decode(Encoding::poly())?, values);
    acc.add_assign(&ct)?;
    assert!(acc.get_seed().is_none());
    let mut doubled = values.clone();
    par.plaintext_ring().add_vec(&mut doubled, &values);
    assert_eq!(sk.decrypt(&acc)?.try_decode(Encoding::poly())?, doubled);

    let mut acc = Ciphertext::zero(&par);
    acc.sub_assign(&ct)?;
    let mut negated = values.clone();
    par.plaintext_ring().neg_vec(&mut negated);
    assert_eq!(sk.decrypt(&acc)?.try_decode(Encoding::poly())?, negated);
    Ok(())
}

#[test]
fn minimized_ciphertexts_decrypt_and_refuse_operations() -> Result<(), String> {
    for params in both_parameters() {
        for _ in 0..20 {
            let sk = SecretKey::random(&params);
            let values = params.plaintext_ring().random_vec(params.degree());
            for encoding in [Encoding::poly(), Encoding::simd()] {
                let pt = Plaintext::try_encode(&values, encoding, &params)?;
                let fresh = sk.encrypt(&pt)?;
                let mut ct = fresh.copy();
                assert!(!ct.is_minimized());
                ct.minimizes();
                assert!(ct.is_minimized());
                assert!(ct.get_seed().is_none());
                assert_eq!(sk.decrypt(&ct)?.try_decode(encoding)?, values);

                let text = "A ciphertext is minimized and cannot be operated on";
                assert_eq!(ct.add(&fresh).unwrap_err(), text);
                assert_eq!(fresh.add(&ct).unwrap_err(), text);
                assert_eq!(ct.sub(&fresh).unwrap_err(), text);
                assert_eq!(fresh.sub(&ct).unwrap_err(), text);
                assert_eq!(ct.neg().unwrap_err(), text);
                assert_eq!(ct.mul_plaintext(&pt).unwrap_err(), text);
                assert_eq!(ct.mul(&fresh).unwrap_err(), text);
                assert_eq!(fresh.mul(&ct).unwrap_err(), text);
                assert_eq!(ct.copy().add_assign(&fresh).unwrap_err(), text);
                assert_eq!(ct.copy().sub_assign(&fresh).unwrap_err(), text);
                assert_eq!(ct.copy().mul_assign(&pt).unwrap_err(), text);
                assert!(sk.measure_noise(&ct).is_err());
                if params.moduli().len() > 1 {
                    let ek = EvaluationKeyBuilder::new(&sk).enable_relinearization().build()?;
                    assert_eq!(mul(&ct, &fresh, &ek).unwrap_err(), text);
                    assert_eq!(mul(&fresh, &ct, &ek).unwrap_err(), text);
                    assert_eq!(mul2(&ct, &fresh, &ek).unwrap_err(), text);
                    assert_eq!(mul2(&fresh, &ct, &ek).unwrap_err(), text);
                }
            }
        }
    }
    Ok(())
}

#[test]
fn five_squarings_keep_the_noise_low() -> Result<(), String> {
    let par = Arc::new(BfvParameters::default(2).unwrap());
    let sk = SecretKey::random(&par);
    let ek = EvaluationKeyBuilder::new(&sk).enable_relinearization().build()?;
    let values = par.plaintext_ring().random_vec(par.degree());
    let mut expected = values.clone();
    let mut ct = sk.encrypt(&Plaintext::try_encode(&values, Encoding::simd(), &par)?)?;
    for _ in 0..5 {
        ct = mul(&ct, &ct, &ek)?;
        let e = expected.clone();
        par.plaintext_ring().mul_vec(&mut expected, &e);
        let noise = sk.measure_noise(&ct)?;
        println!("Noise: {}", noise);
        assert!(noise <= 200);
    }
    Ok(())
}

#[test]
fn larger_degrees_use_the_accelerated_transform() -> Result<(), String> {
    let par = Arc::new(
        BfvParametersBuilder::new()
            .set_degree(64)?
            .set_plaintext_modulus(1153)?
            .set_ciphertext_moduli_sizes(&[62, 62])?
            .build()?,
    );
    let sk = SecretKey::random(&par);
    let ek = EvaluationKeyBuilder::new(&sk).enable_relinearization().build()?;
    let a = par.plaintext_ring().random_vec(par.degree());
    let b = par.plaintext_ring().random_vec(par.degree());
    let mut product = a.clone();
    par.plaintext_ring().mul_vec(&mut product, &b);
    let mut sum = a.clone();
    par.plaintext_ring().add_vec(&mut sum, &b);
    let ct_a = sk.encrypt(&Plaintext::try_encode(&a, Encoding::simd(), &par)?)?;
    let ct_b = sk.encrypt(&Plaintext::try_encode(&b, Encoding::simd(), &par)?)?;
    assert_eq!(sk.decrypt(&ct_a)?.try_decode(Encoding::simd())?, a);
    assert_eq!(sk.decrypt(&ct_a.add(&ct_b)?)?.try_decode(Encoding::simd())?, sum);
    assert_eq!(sk.decrypt(&mul(&ct_a, &ct_b, &ek)?)?.try_decode(Encoding::simd())?, product);
    assert_eq!(sk.decrypt(&mul2(&ct_a, &ct_b, &ek)?)?.try_decode(Encoding::simd())?, product);
    Ok(())
}

#[test]
fn bug() -> Result<(), String> {
    let parameters = Arc::new(
        BfvParametersBuilder::new()
            .set_degree(2048)?
            .set_ciphertext_moduli(&[0x3fffffff000001])?
            .set_plaintext_modulus(1 << 10)?
            .build()?,
    );
    let t = 1u64 << 10;

    let secret_key = SecretKey::random(&parameters);

    let plaintext_1 = Plaintext::try_encode(&[20_u64], Encoding::poly(), &parameters)?;
    // -7 modulo the plaintext modulus
    let plaintext_2 = Plaintext::try_encode(&[t - 7], Encoding::poly(), &parameters)?;

    let ciphertext_1 = secret_key.encrypt(&plaintext_1)?;
    let ciphertext_2 = secret_key.encrypt(&plaintext_2)?;

    let result = ciphertext_1.mul(&ciphertext_2)?;

    let decrypted_plaintext = secret_key.decrypt(&result)?;
    let decrypted_vector = decrypted_plaintext.centered_value();
    assert_eq!(decrypted_plaintext.try_decode(Encoding::poly())?[0], t - 140);

    assert_eq!(decrypted_vector[0], -140);

    Ok(())
}

#[test]
fn the_parameters_of_the_key_are_tested_last() -> Result<(), String> {
    let par1 = Arc::new(BfvParameters::default(1).unwrap());
    let par2 = Arc::new(BfvParameters::default(2).unwrap());
    let sk1 = SecretKey::random(&par1);
    let sk2 = SecretKey::random(&par2);
    let ek1 = EvaluationKeyBuilder::new(&sk1).enable_relinearization().build()?;
    let ek2 = EvaluationKeyBuilder::new(&sk2).enable_relinearization().build()?;
    let pt1 = Plaintext::try_encode(&[1u64, 2], Encoding::poly(), &par1)?;
    let pt2 = Plaintext::try_encode(&[1u64, 2], Encoding::poly(), &par2)?;
    let ct1 = sk1.encrypt(&pt1)?;
    let ct2 = sk2.encrypt(&pt2)?;

    // a key of other parameters and a minimized operand
    let mut min = ct2.copy();
    min.minimizes();
    for product in [mul(&min, &ct2, &ek1), mul(&ct2, &min, &ek1), mul2(&min, &ct2, &ek1)] {
        assert_eq!(product.unwrap_err(), "A ciphertext is minimized and cannot be operated on");
    }
    // a key of other parameters and operands of one modulus
    for product in [mul(&ct1, &ct1, &ek2), mul2(&ct1, &ct1, &ek2)] {
        assert_eq!(product.unwrap_err(), "Parameters do not allow for multiplication");
    }
    // a key of other parameters and a product of three polynomials
    let three = ct2.mul(&ct2)?;
    assert_eq!(
        mul(&three, &ct2, &ek1).unwrap_err(),
        "Multiplication can only be performed on ciphertexts of size 2"
    );
    // a key of other parameters alone
    assert_eq!(mul(&ct2, &ct2, &ek1).unwrap_err(), "Incompatible parameters");
    // and the noise is not measured in a minimized ciphertext
    assert_eq!(
        sk2.measure_noise(&min).unwrap_err(),
        "A ciphertext is minimized and cannot be operated on"
    );
    assert_eq!(sk1.measure_noise(&ct2).unwrap_err(), "Incompatible BFV parameters");
    Ok(())
}
