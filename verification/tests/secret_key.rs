use bfv::encoding::Encoding;
use bfv::parameters::BfvParameters;
use bfv::plaintext::Plaintext;
use bfv::rq::Representation;
use bfv::secret_key::SecretKey;
use std::sync::Arc;

#[test]
fn test_keygen() {
    let params = Arc::new(BfvParameters::default(1).unwrap());
    let sk = SecretKey::random(&params);
    assert!(sk.parameters().equals(&params));

    let mut s = sk.key().copy();
    s.change_representation(Representation::PowerBasis);
    let coefficients = s.coefficients()[0].clone();
    coefficients.iter().for_each(|ci| {
        // Check that this is a small polynomial
        assert!(
            *ci <= 2 * sk.parameters().variance() as u64
                || *ci >= (sk.parameters().moduli()[0] - 2 * sk.parameters().variance() as u64)
        )
    })
}

#[test]
fn test_encrypt_decrypt() -> Result<(), String> {
    for params in [
        Arc::new(BfvParameters::default(1).unwrap()),
        Arc::new(BfvParameters::default(2).unwrap()),
    ] {
        for _ in 0..100 {
            let sk = SecretKey::random(&params);

            let pt =
                Plaintext::try_encode(&[1u64, 2, 3, 4, 5, 6, 7, 8] as &[u64], Encoding::poly(), &params)?;
            let ct = sk.encrypt(&pt)?;
            let pt2 = sk.decrypt(&ct);

            assert!(pt2.is_ok_and(|pt2| pt2.equals(&pt)));
        }
    }

    Ok(())
}
