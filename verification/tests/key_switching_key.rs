use bfv::key_switching_key::KeySwitchingKey;
use bfv::parameters::BfvParameters;
use bfv::rq::{Poly, Representation};
use bfv::secret_key::SecretKey;
use std::sync::Arc;

fn seed(byte: u8) -> [u8; 32] {
    [byte; 32]
}

#[test]
fn test_constructor() {
    for params in [
        Arc::new(BfvParameters::default(1).unwrap()),
        Arc::new(BfvParameters::default(2).unwrap()),
    ] {
        let sk = SecretKey::random(&params);
        let p =
            Poly::small_from_seed(params.context(), Representation::PowerBasis, 10, seed(1)).unwrap();
        let ksk = KeySwitchingKey::new(&sk, &p);
        assert!(ksk.is_ok());
    }
}

#[test]
fn test_key_switch() {
    for params in [Arc::new(BfvParameters::default(2).unwrap())] {
        let sk = SecretKey::random(&params);
        let mut s =
            Poly::small_from_seed(params.context(), Representation::PowerBasis, 10, seed(2)).unwrap();
        let ksk = KeySwitchingKey::new(&sk, &s).unwrap();

        let mut input = Poly::random_from_seed(params.context(), Representation::PowerBasis, seed(3));
        let output = ksk.key_switch(&input);
        assert!(output.is_ok());
        let (c0, c1) = output.unwrap();

        let mut c2 = c0.add(&c1.mul(sk.key()));
        c2.change_representation(Representation::PowerBasis);

        input.change_representation(Representation::Ntt);
        s.change_representation(Representation::Ntt);
        let mut c3 = input.mul(&s);
        c3.change_representation(Representation::PowerBasis);

        let q = params.context().rns_context().modulus().copy();
        c2.sub(&c3).to_vec_big().iter().for_each(|b| {
            assert!(std::cmp::min(b.bits(), q.checked_sub(b).unwrap().bits()) <= 70)
        });
    }
}

#[test]
fn key_switching_refuses_other_representations() {
    let params = Arc::new(BfvParameters::default(2).unwrap());
    let other = Arc::new(BfvParameters::default(1).unwrap());
    let sk = SecretKey::random(&params);
    let text = "The polynomial is not in the power basis of the ciphertext context";
    let ntt = Poly::small_from_seed(params.context(), Representation::Ntt, 10, seed(4)).unwrap();
    assert_eq!(KeySwitchingKey::new(&sk, &ntt).unwrap_err(), text);
    let foreign =
        Poly::small_from_seed(other.context(), Representation::PowerBasis, 10, seed(4)).unwrap();
    assert_eq!(KeySwitchingKey::new(&sk, &foreign).unwrap_err(), text);
    let good =
        Poly::small_from_seed(params.context(), Representation::PowerBasis, 10, seed(4)).unwrap();
    let ksk = KeySwitchingKey::new(&sk, &good).unwrap();
    assert_eq!(ksk.key_switch(&ntt).unwrap_err(), text);
    assert_eq!(ksk.key_switch(&foreign).unwrap_err(), text);
}

#[test]
fn seeded_keys_are_reproducible() {
    let params = Arc::new(BfvParameters::default(2).unwrap());
    let sk = SecretKey::random_from_seed(&params, seed(5));
    let again = SecretKey::random_from_seed(&params, seed(5));
    assert_eq!(sk.key().coefficients(), again.key().coefficients());
    let other = SecretKey::random_from_seed(&params, seed(6));
    assert_ne!(sk.key().coefficients(), other.key().coefficients());
    let from =
        Poly::small_from_seed(params.context(), Representation::PowerBasis, 3, seed(7)).unwrap();
    let a = KeySwitchingKey::new_with_seeds(&sk, &from, seed(8), seed(9)).unwrap();
    let b = KeySwitchingKey::new_with_seeds(&sk, &from, seed(8), seed(9)).unwrap();
    let input = Poly::random_from_seed(params.context(), Representation::PowerBasis, seed(10));
    let (a0, a1) = a.key_switch(&input).unwrap();
    let (b0, b1) = b.key_switch(&input).unwrap();
    assert_eq!(a0.coefficients(), b0.coefficients());
    assert_eq!(a1.coefficients(), b1.coefficients());
}
