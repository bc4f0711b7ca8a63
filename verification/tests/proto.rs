use bfv::ciphertext::Ciphertext;
use bfv::encoding::Encoding;
use bfv::parameters::BfvParameters;
use bfv::plaintext::Plaintext;
use bfv::proto::{CiphertextProto, Rq};
use bfv::rq::{Poly, Representation};
use bfv::secret_key::SecretKey;
use std::sync::Arc;

#[test]
fn test_proto_conversion() -> Result<(), String> {
    for params in [
        Arc::new(BfvParameters::default(1).unwrap()),
        Arc::new(BfvParameters::default(2).unwrap()),
    ] {
        let sk = SecretKey::random(&params);
        let v = params.plaintext_ring().random_vec(params.degree());
        let pt = Plaintext::try_encode(&v as &[u64], Encoding::simd(), &params)?;
        let ct = sk.encrypt(&pt)?;
        let ct_proto = CiphertextProto::from(&ct);
        assert!(ct.equals(&Ciphertext::try_convert_from(&ct_proto, &params)?));

        let ct = ct.mul(&ct)?;
        let ct_proto = CiphertextProto::from(&ct);
        assert!(ct.equals(&Ciphertext::try_convert_from(&ct_proto, &params)?))
    }
    Ok(())
}

#[test]
fn a_fresh_ciphertext_travels_with_its_seed() -> Result<(), String> {
    let params = Arc::new(BfvParameters::default(2).unwrap());
    let sk = SecretKey::random(&params);
    let v = params.plaintext_ring().random_vec(params.degree());
    let pt = Plaintext::try_encode(&v, Encoding::poly(), &params)?;
    let ct = sk.encrypt(&pt)?;
    let proto = CiphertextProto::from(&ct);
    assert_eq!(proto.c.len(), 1);
    assert_eq!(proto.seed.len(), 32);
    assert_eq!(proto.seed, ct.get_seed().unwrap().to_vec());
    assert!(!proto.minimized);
    // 62 bits for each of the 8 residues of each of the 2 rows
    assert_eq!(proto.c[0].coefficients.len(), 2 * 62);
    assert_eq!(proto.c[0].degree, 8);

    let bytes = ct.serialize();
    assert_eq!(bytes.len(), 10 + (18 + 2 * 62) + 32);
    let back = Ciphertext::try_deserialize(&bytes, &params)?;
    assert!(back.equals(&ct));
    assert_eq!(sk.decrypt(&back)?.try_decode(Encoding::poly())?, v);

    let sum = ct.add(&ct)?;
    let proto = CiphertextProto::from(&sum);
    assert_eq!(proto.c.len(), 2);
    assert!(proto.seed.is_empty());
    let bytes = sum.serialize();
    assert_eq!(bytes.len(), 10 + 2 * (18 + 2 * 62));
    assert!(Ciphertext::try_deserialize(&bytes, &params)?.equals(&sum));

    let mut small = ct.copy();
    small.minimizes();
    let proto = CiphertextProto::from(&small);
    assert!(proto.minimized);
    assert_eq!(proto.c.len(), 2);
    assert_eq!(proto.c[0].coefficients.len(), 62);
    let bytes = small.serialize();
    let back = Ciphertext::try_deserialize(&bytes, &params)?;
    assert!(back.is_minimized());
    assert!(back.equals(&small));
    assert_eq!(sk.decrypt(&back)?.try_decode(Encoding::poly())?, v);
    Ok(())
}

#[test]
fn broken_messages_are_refused() -> Result<(), String> {
    let params = Arc::new(BfvParameters::default(2).unwrap());
    let sk = SecretKey::random(&params);
    let pt = Plaintext::try_encode(&[1u64, 2, 3], Encoding::poly(), &params)?;
    let ct = sk.encrypt(&pt)?;
    let sum = ct.add(&ct)?;
    let good = CiphertextProto::from(&sum);

    let empty = CiphertextProto { c: vec![], seed: vec![], minimized: false };
    assert_eq!(Ciphertext::try_convert_from(&empty, &params).unwrap_err(), "Not enough polynomials");
    let single = CiphertextProto { c: vec![good.c[0].clone()], seed: vec![], minimized: false };
    assert_eq!(Ciphertext::try_convert_from(&single, &params).unwrap_err(), "Not enough polynomials");
    let short_seed = CiphertextProto { c: vec![good.c[0].clone()], seed: vec![1; 31], minimized: false };
    assert_eq!(Ciphertext::try_convert_from(&short_seed, &params).unwrap_err(), "Invalid seed");
    let seeded = CiphertextProto { c: vec![good.c[0].clone()], seed: vec![1; 32], minimized: false };
    assert!(Ciphertext::try_convert_from(&seeded, &params).is_ok());

    let mut wrong = good.clone();
    wrong.c[1].degree = 16;
    assert_eq!(Ciphertext::try_convert_from(&wrong, &params).unwrap_err(), "Invalid degree");
    let mut wrong = good.clone();
    wrong.c[1].coefficients.pop();
    assert_eq!(Ciphertext::try_convert_from(&wrong, &params).unwrap_err(), "Invalid coefficients");
    let mut wrong = good.clone();
    wrong.c[1].coefficients.push(0);
    assert_eq!(Ciphertext::try_convert_from(&wrong, &params).unwrap_err(), "Invalid coefficients");
    let mut wrong = good.clone();
    wrong.c[0].coefficients = vec![0xff; 2 * 62];
    assert_eq!(
        Ciphertext::try_convert_from(&wrong, &params).unwrap_err(),
        "The coefficients are not reduced"
    );
    let mut wrong = good.clone();
    wrong.c[0].representation = Representation::PowerBasis;
    assert_eq!(
        Ciphertext::try_convert_from(&wrong, &params).unwrap_err(),
        "The polynomials of a ciphertext are in the transform domain"
    );
    let mut wrong = good.clone();
    wrong.minimized = true;
    assert_eq!(Ciphertext::try_convert_from(&wrong, &params).unwrap_err(), "Invalid coefficients");

    let bytes = sum.serialize();
    for cut in [0, 1, 9, 10, 27, bytes.len() - 1] {
        assert_eq!(
            Ciphertext::try_deserialize(&bytes[..cut], &params).unwrap_err(),
            "This serialization is incorrect"
        );
    }
    let mut longer = bytes.clone();
    longer.push(0);
    assert_eq!(
        Ciphertext::try_deserialize(&longer, &params).unwrap_err(),
        "This serialization is incorrect"
    );
    let mut flagged = bytes.clone();
    flagged[0] = 2;
    assert!(Ciphertext::try_deserialize(&flagged, &params).is_err());
    let mut coded = bytes.clone();
    coded[10] = 0;
    assert!(Ciphertext::try_deserialize(&coded, &params).is_err());
    Ok(())
}

#[test]
fn polynomials_travel_as_bytes() {
    let params = Arc::new(BfvParameters::default(2).unwrap());
    let other = Arc::new(BfvParameters::default(1).unwrap());
    for representation in [Representation::PowerBasis, Representation::Ntt, Representation::NttShoup] {
        let p = Poly::random_from_seed(params.context(), representation, [7u8; 32]);
        let bytes = p.to_bytes();
        assert_eq!(bytes.len(), 18 + 2 * 62);
        let q = Poly::from_bytes(&bytes, params.context()).unwrap();
        assert!(q.equals(&p));
        assert_eq!(q.coefficients(), p.coefficients());
        assert!(Poly::from_bytes(&bytes, other.context()).is_err());
        assert!(Poly::from_bytes(&bytes[1..], params.context()).is_err());

        let rq = Rq::from_poly(&p);
        assert_eq!(rq.degree, 8);
        assert!(rq.to_poly(params.context(), Some(representation)).unwrap().equals(&p));
        let asked = if representation == Representation::Ntt {
            Representation::PowerBasis
        } else {
            Representation::Ntt
        };
        assert_eq!(
            rq.to_poly(params.context(), Some(asked)).unwrap_err().to_string(),
            "The representation asked for does not match the representation in the serialization"
        );
        assert!(Rq::from_bytes(&rq.to_bytes()).is_ok());
    }
}
