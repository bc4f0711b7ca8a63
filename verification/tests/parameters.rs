use bfv::parameters::{BfvParameters, BfvParametersBuilder};

#[test]
fn test_builder() -> Result<(), String> {
    let params = BfvParametersBuilder::new().build();
    assert!(params.is_err_and(|e| e.to_string() == "Unspecified degree"));

    assert!(BfvParametersBuilder::new()
        .set_degree(7)
        .is_err_and(|e| e.to_string() == "The degree should be a power of two larger or equal to 8"));

    assert!(BfvParametersBuilder::new()
        .set_degree(1023)
        .is_err_and(|e| e.to_string() == "The degree should be a power of two larger or equal to 8"));

    let params = BfvParametersBuilder::new().set_degree(1024)?.build();
    assert!(params.is_err_and(|e| e.to_string() == "Unspecified plaintext modulus"));

    assert!(BfvParametersBuilder::new()
        .set_degree(1024)?
        .set_plaintext_modulus(0)
        .is_err_and(|e| e.to_string() == "modulus should be between 2 and 2^62-1"));

    let params = BfvParametersBuilder::new()
        .set_degree(1024)?
        .set_plaintext_modulus(2)?
        .build();
    assert!(params.is_err_and(|e| e.to_string() == "Unspecified ciphertext moduli"));

    assert!(BfvParametersBuilder::new()
        .set_degree(1024)?
        .set_plaintext_modulus(2)?
        .set_ciphertext_moduli(&[])?
        .build()
        .is_err_and(|e| e.to_string() == "Unspecified ciphertext moduli"));

    assert!(BfvParametersBuilder::new()
        .set_degree(1024)?
        .set_plaintext_modulus(2)?
        .set_ciphertext_moduli(&[1153])?
        .set_ciphertext_moduli_sizes(&[62])
        .is_err_and(|e| e.to_string() == "The set of ciphertext moduli is already specified"));

    assert!(BfvParametersBuilder::new()
        .set_degree(8)?
        .set_plaintext_modulus(2)?
        .set_ciphertext_moduli(&[1])?
        .build()
        .is_err_and(|e| e.to_string() == "modulus should be between 2 and 2^62-1"));

    let params = BfvParametersBuilder::new()
        .set_degree(8)?
        .set_plaintext_modulus(2)?
        .set_ciphertext_moduli(&[2])?
        .build();
    assert!(params.is_err_and(|e| e.to_string() == "Impossible to construct a Ntt operator"));

    let params = BfvParametersBuilder::new()
        .set_degree(8)?
        .set_plaintext_modulus(2)?
        .set_ciphertext_moduli(&[1153])?
        .build();
    assert!(params.is_ok());

    let params = params.unwrap();
    assert_eq!(params.moduli(), vec![1153]);
    assert_eq!(params.plaintext_modulus(), 2);
    assert_eq!(params.degree(), 8);
    assert_eq!(params.variance(), 1);
    assert!(params.ntt_operator().is_none());

    Ok(())
}

#[test]
fn test_default() {
    let params = BfvParameters::default(1).unwrap();
    assert_eq!(params.moduli().len(), 1);

    let params = BfvParameters::default(2).unwrap();
    assert_eq!(params.moduli().len(), 2);
}

#[test]
fn test_ciphertext_moduli() -> Result<(), String> {
    let params = BfvParametersBuilder::new()
        .set_degree(8)?
        .set_plaintext_modulus(2)?
        .set_ciphertext_moduli_sizes(&[62, 62, 62, 61, 60, 11])?
        .build();
    assert!(params.is_ok_and(|p| p.moduli()
        == &[
            4611686018427387761,
            4611686018427387617,
            4611686018427387409,
            2305843009213693921,
            1152921504606846577,
            2017
        ]));

    let params = BfvParametersBuilder::new()
        .set_degree(8)?
        .set_plaintext_modulus(2)?
        .set_ciphertext_moduli(&[
            4611686018427387761,
            4611686018427387617,
            4611686018427387409,
            2305843009213693921,
            1152921504606846577,
            2017,
        ])?
        .build();
    assert!(params.is_ok_and(|p| p.moduli_sizes() == &[62, 62, 62, 61, 60, 11]));

    Ok(())
}

#[test]
fn builder_rejects_bad_sizes_and_variance() -> Result<(), String> {
    let params = BfvParametersBuilder::new()
        .set_degree(8)?
        .set_plaintext_modulus(2)?
        .set_ciphertext_moduli_sizes(&[9])?
        .build();
    assert!(params.is_err_and(|e| e == "The moduli sizes must be between 10 and 62 bits."));
    let params = BfvParametersBuilder::new()
        .set_degree(8)?
        .set_plaintext_modulus(2)?
        .set_ciphertext_moduli_sizes(&[63])?
        .build();
    assert!(params.is_err_and(|e| e == "The moduli sizes must be between 10 and 62 bits."));
    // no prime of 10 bits is congruent to 1 modulo 2048
    let params = BfvParametersBuilder::new()
        .set_degree(1024)?
        .set_plaintext_modulus(2)?
        .set_ciphertext_moduli_sizes(&[10])?
        .build();
    assert!(params.is_err_and(
        |e| e == "Could not generate enough ciphertext moduli to match the sizes provided"
    ));
    assert!(BfvParametersBuilder::new()
        .set_variance(0)
        .is_err_and(|e| e == "The variance must be in 1..=16"));
    assert!(BfvParametersBuilder::new()
        .set_variance(17)
        .is_err_and(|e| e == "The variance must be in 1..=16"));
    assert!(BfvParametersBuilder::new().set_variance(16).is_ok());
    assert!(BfvParametersBuilder::new()
        .set_ciphertext_moduli_sizes(&[62])?
        .set_ciphertext_moduli(&[1153])
        .is_err_and(|e| e == "The set of ciphertext moduli sizes is already specified"));
    Ok(())
}

#[test]
fn generate_moduli_picks_the_largest_primes() {
    let moduli = BfvParametersBuilder::generate_moduli(&[11, 11], 8).unwrap();
    assert_eq!(moduli, vec![2017, 1889]);
}
