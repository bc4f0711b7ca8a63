//! Evaluation keys for the BFV encryption scheme: the public material that
//! the operations on ciphertexts need. This one supports the
//! relinearization of a product of two ciphertexts.
use crate::key_switching_key::{not_switchable_text, switched, KeySwitchingKey};
use crate::parameters::BfvParameters;
use crate::random::{fresh_seed, Seed};
use crate::rq::{converted, rows_combine, share, Operation, Poly, Representation};
use crate::secret_key::SecretKey;
use std::sync::Arc;
use vstd::prelude::*;

verus! {

/// The rows, in the power basis, of the square of the key.
pub open spec fn squared_rows(sk: &SecretKey) -> Seq<Seq<u64>> {
    converted(
        sk.par().ctx(),
        Representation::Ntt,
        Representation::PowerBasis,
        rows_combine(Operation::Mul, sk.s().rows(), sk.s().rows(), sk.par().spec_moduli()),
    )
}

/// The message of the error for a key without relinearization.
pub open spec fn no_relinearization_text() -> Seq<char> {
    "The evaluation key does not support relinearization"@
}

/// Evaluation key for the BFV encryption scheme.
#[derive(Debug)]
pub struct EvaluationKey {
    par: Arc<BfvParameters>,
    ksk_relin: Option<KeySwitchingKey>,
}

/// Builder for an evaluation key from the secret key.
#[derive(Debug)]
pub struct EvaluationKeyBuilder<'a> {
    sk: &'a SecretKey,
    relin: bool,
}

impl<'a> EvaluationKeyBuilder<'a> {
    /// The secret key.
    pub closed spec fn sk(&self) -> SecretKey {
        *self.sk
    }

    /// Whether the key will support relinearization.
    pub closed spec fn relin(&self) -> bool {
        self.relin
    }

    /// Creates a builder from a secret key.
    pub fn new(sk: &'a SecretKey) -> (r: EvaluationKeyBuilder<'a>)
        ensures
            r.sk() == *sk,
            !r.relin(),
    {
        EvaluationKeyBuilder { sk, relin: false }
    }

    /// Asks for the support of relinearization.
    pub fn enable_relinearization(&mut self) -> (r: &mut EvaluationKeyBuilder<'a>)
        ensures
            *final(r) == *final(self),
            r.sk() == old(self).sk(),
            r.relin(),
    {
        self.relin = true;
        self
    }

    /// The rows, in the power basis, of the square of the key.
    pub open spec fn squared_key(&self) -> Seq<Seq<u64>> {
        squared_rows(&self.sk())
    }

    /// Builds the evaluation key, with the masks that `seed` yields and the
    /// errors that `error_seed` yields. Where relinearization was asked for,
    /// the key holds the key-switching key for the square of the secret
    /// key.
    pub fn build_with_seeds(&self, seed: Seed, error_seed: Seed) -> (r: Result<EvaluationKey, String>)
        requires
            self.sk().wf(),
        ensures
            r matches Ok(ek) && ek.made_with(
                &self.sk(),
                self.relin(),
                self.squared_key(),
                seed,
                error_seed,
            ),
    {
        let par = self.sk.parameters();
        if !self.relin {
            return Ok(EvaluationKey { par: share(par), ksk_relin: None });
        }
        let mut s = self.sk.key().copy();
        s.disallow_variable_time_computations();
        let mut s2 = s.mul(self.sk.key());
        s2.change_representation(Representation::PowerBasis);
        let ksk = KeySwitchingKey::new_with_seeds(self.sk, &s2, seed, error_seed);
        // the temporaries depend on the key
        s.zeroize();
        s2.zeroize();
        match ksk {
            Ok(ksk) => Ok(EvaluationKey { par: share(par), ksk_relin: Some(ksk) }),
            Err(e) => Err(e),
        }
    }

    /// Builds the evaluation key, with fresh masks and errors.
    pub fn build(&self) -> (r: Result<EvaluationKey, String>)
        requires
            self.sk().wf(),
        ensures
            r matches Ok(ek) && exists|seed: Seed, error_seed: Seed|
                ek.made_with(&self.sk(), self.relin(), self.squared_key(), seed, error_seed),
    {
        self.build_with_seeds(fresh_seed(), fresh_seed())
    }
}

impl EvaluationKey {
    /// Whether the key is the one built under the secret key, with the
    /// masks that `seed` yields and the errors that `error_seed` yields:
    /// where relinearization was asked for, it holds the key-switching key
    /// for the polynomial with the rows `squared`.
    pub open spec fn made_with(
        &self,
        sk: &SecretKey,
        relin: bool,
        squared: Seq<Seq<u64>>,
        seed: Seed,
        error_seed: Seed,
    ) -> bool {
        &&& self.wf()
        &&& self.par() == sk.par()
        &&& self.spec_supports_relinearization() == relin
        &&& self.relin_key() matches Some(ksk) ==> ksk.made_with(sk, squared, seed, error_seed)
    }

    /// The parameters.
    pub closed spec fn par(&self) -> BfvParameters {
        *self.par
    }

    /// The key-switching key of the relinearization, if there is one.
    pub closed spec fn relin_key(&self) -> Option<KeySwitchingKey> {
        self.ksk_relin
    }

    /// Whether the key supports relinearization.
    pub open spec fn spec_supports_relinearization(&self) -> bool {
        self.relin_key().is_some()
    }

    /// Well-formedness: the key-switching key is well formed, for the same
    /// parameters.
    pub open spec fn wf(&self) -> bool {
        &&& self.par().wf()
        &&& self.relin_key() matches Some(k) ==> k.wf() && k.par() == self.par()
    }

    /// The parameters.
    pub fn parameters(&self) -> (r: &Arc<BfvParameters>)
        ensures
            **r == self.par(),
    {
        &self.par
    }

    /// Whether the key supports relinearization.
    pub fn supports_relinearization(&self) -> (r: bool)
        ensures
            r == self.spec_supports_relinearization(),
    {
        self.ksk_relin.is_some()
    }

    /// Folds the third polynomial `c2` of a product into the first two:
    /// adds to `c0` and `c1` the pair that the key-switching key makes of
    /// `c2`. Fails where the key does not support relinearization, or `c2`
    /// is not in the power basis of the ciphertext context.
    pub fn relinearizes(&self, c0: &mut Poly, c1: &mut Poly, c2: &Poly) -> (r: Result<(), String>)
        requires
            self.wf(),
            old(c0).wf(),
            old(c1).wf(),
            c2.wf(),
            old(c0).ctx().same(&self.par().ctx()),
            old(c1).ctx().same(&self.par().ctx()),
            old(c0).representation() == Representation::Ntt,
            old(c1).representation() == Representation::Ntt,
        ensures
            r.is_ok() <==> (self.spec_supports_relinearization() && c2.ctx().same(
                &self.par().ctx(),
            ) && c2.representation() == Representation::PowerBasis),
            r matches Err(e) ==> *final(c0) == *old(c0) && *final(c1) == *old(c1) && (
            if !self.spec_supports_relinearization() {
                e@ == no_relinearization_text()
            } else {
                e@ == not_switchable_text()
            }),
            r.is_ok() ==> {
                let key = self.relin_key()->Some_0;
                let m = self.par().spec_moduli();
                &&& final(c0).wf()
                &&& final(c1).wf()
                &&& final(c0).ctx() == old(c0).ctx()
                &&& final(c1).ctx() == old(c1).ctx()
                &&& final(c0).representation() == Representation::Ntt
                &&& final(c1).representation() == Representation::Ntt
                &&& final(c0).variable_time() == old(c0).variable_time()
                &&& final(c1).variable_time() == old(c1).variable_time()
                &&& final(c0).rows() == rows_combine(
                    Operation::Add,
                    old(c0).rows(),
                    switched(key.c0(), c2.rows(), self.par(), m.len()),
                    m,
                )
                &&& final(c1).rows() == rows_combine(
                    Operation::Add,
                    old(c1).rows(),
                    switched(key.c1(), c2.rows(), self.par(), m.len()),
                    m,
                )
            },
    {
        match &self.ksk_relin {
            None => Err("The evaluation key does not support relinearization".to_string()),
            Some(key) => {
                match key.key_switch(c2) {
                    Err(e) => Err(e),
                    Ok((k0, k1)) => {
                        c0.add_assign(&k0);
                        c1.add_assign(&k1);
                        Ok(())
                    },
                }
            },
        }
    }
}

} // verus!
