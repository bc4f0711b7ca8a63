//! Key-switching keys for the BFV encryption scheme.
//!
//! A key-switching key for a polynomial `from` holds, for every modulus of
//! the ciphertext context, an encryption under the secret key of `from`
//! times the Garner coefficient of that modulus. Switching a polynomial
//! takes it apart into its residues, one polynomial per modulus, and adds
//! up the products with the pairs of the key.

use crate::parameters::BfvParameters;
use crate::random::{chacha8_seeds, fresh_seed, sample_seeds, Seed};
use crate::rq::{
    as_ints, converted, power_rows, rows_combine, rows_scale, rows_zero, share, small_rows,
    uniform_rows, Operation, Poly, Representation,
};
use crate::secret_key::SecretKey;
use std::sync::Arc;
use vstd::prelude::*;

verus! {

/// The message of the error for a polynomial that is not in the power basis
/// of the ciphertext context.
pub open spec fn not_switchable_text() -> Seq<char> {
    "The polynomial is not in the power basis of the ciphertext context"@
}

/// The rows, in the power basis, of the first polynomial of the pair of
/// index `i` of the key for `from`: `e - a * s + g * from`.
pub open spec fn pair_rows(
    par: BfvParameters,
    s: Seq<Seq<u64>>,
    from: Seq<Seq<u64>>,
    seed: Seq<u8>,
    error_seed: Seq<u8>,
    i: int,
) -> Seq<Seq<u64>> {
    let m = par.spec_moduli();
    let k = m.len();
    rows_combine(
        Operation::Add,
        rows_combine(
            Operation::Sub,
            small_rows(
                par.ctx(),
                Representation::PowerBasis,
                par.spec_variance(),
                chacha8_seeds(error_seed, k)[i],
            ),
            converted(
                par.ctx(),
                Representation::Ntt,
                Representation::PowerBasis,
                rows_combine(
                    Operation::Mul,
                    uniform_rows(chacha8_seeds(seed, k)[i], m, par.spec_degree()),
                    s,
                    m,
                ),
            ),
            m,
        ),
        rows_scale(from, par.ctx().rns().garner_values()[i] as int, m),
        m,
    )
}

/// The rows of the sum, over the first `upto` moduli, of the products of
/// the residues of `p` modulo each of them with the polynomial of `key` of
/// that index.
pub open spec fn switched(key: Seq<Poly>, p: Seq<Seq<u64>>, par: BfvParameters, upto: nat) -> Seq<
    Seq<u64>,
>
    decreases upto,
{
    if upto == 0 {
        rows_zero(par.spec_moduli().len(), par.spec_degree())
    } else {
        rows_combine(
            Operation::Add,
            switched(key, p, par, (upto - 1) as nat),
            rows_combine(
                Operation::Mul,
                converted(
                    par.ctx(),
                    Representation::PowerBasis,
                    Representation::Ntt,
                    power_rows(as_ints(p[upto - 1]), par.spec_moduli(), par.spec_degree()),
                ),
                key[upto - 1].rows(),
                par.spec_moduli(),
            ),
            par.spec_moduli(),
        )
    }
}

/// Key switching key for the BFV encryption scheme.
#[derive(Debug)]
pub struct KeySwitchingKey {
    par: Arc<BfvParameters>,
    seed: Option<Seed>,
    c0: Vec<Poly>,
    c1: Vec<Poly>,
}

impl KeySwitchingKey {
    /// The parameters.
    pub closed spec fn par(&self) -> BfvParameters {
        *self.par
    }

    /// The seed that the second polynomials of the pairs came from.
    pub closed spec fn seed(&self) -> Option<Seed> {
        self.seed
    }

    /// The first polynomials of the pairs.
    pub closed spec fn c0(&self) -> Seq<Poly> {
        self.c0@
    }

    /// The second polynomials of the pairs.
    pub closed spec fn c1(&self) -> Seq<Poly> {
        self.c1@
    }

    /// Well-formedness: one pair per modulus, in the transform domain of
    /// the ciphertext context, with Shoup constants.
    pub open spec fn wf(&self) -> bool {
        &&& self.par().wf()
        &&& self.c0().len() == self.par().spec_moduli().len()
        &&& self.c1().len() == self.par().spec_moduli().len()
        &&& forall|i: int|
            0 <= i < self.c0().len() ==> (#[trigger] self.c0()[i]).wf() && self.c0()[i].ctx()
                == self.par().ctx() && self.c0()[i].representation() == Representation::NttShoup
        &&& forall|i: int|
            0 <= i < self.c1().len() ==> (#[trigger] self.c1()[i]).wf() && self.c1()[i].ctx()
                == self.par().ctx() && self.c1()[i].representation() == Representation::NttShoup
    }

    /// Whether the key is the one for the polynomial with the rows `from`
    /// under the secret key, with the masks that `seed` yields and the
    /// errors that `error_seed` yields.
    pub open spec fn made_with(
        &self,
        sk: &SecretKey,
        from: Seq<Seq<u64>>,
        seed: Seed,
        error_seed: Seed,
    ) -> bool {
        &&& self.wf()
        &&& self.par() == sk.par()
        &&& self.seed() == Some(seed)
        &&& forall|i: int|
            0 <= i < self.c1().len() ==> (#[trigger] self.c1()[i]).rows() == uniform_rows(
                chacha8_seeds(seed@, sk.par().spec_moduli().len())[i],
                sk.par().spec_moduli(),
                sk.par().spec_degree(),
            )
        &&& forall|i: int|
            0 <= i < self.c0().len() ==> (#[trigger] self.c0()[i]).rows() == converted(
                sk.par().ctx(),
                Representation::PowerBasis,
                Representation::NttShoup,
                pair_rows(sk.par(), sk.s().rows(), from, seed@, error_seed@, i),
            )
    }

    /// The key-switching key for `from` under the secret key, with the
    /// masks that `seed` yields and the errors that `error_seed` yields.
    /// Fails where `from` is not in the power basis of the ciphertext
    /// context.
    pub fn new_with_seeds(sk: &SecretKey, from: &Poly, seed: Seed, error_seed: Seed) -> (r: Result<
        KeySwitchingKey,
        String,
    >)
        requires
            sk.wf(),
            from.wf(),
        ensures
            r.is_ok() <==> (from.ctx().same(&sk.par().ctx()) && from.representation()
                == Representation::PowerBasis),
            r matches Err(e) ==> e@ == not_switchable_text(),
            r matches Ok(ksk) ==> ksk.made_with(sk, from.rows(), seed, error_seed),
    {
        let par = sk.parameters();
        let ctx = par.context();
        if !from.context().equals(ctx) {
            return Err(
                "The polynomial is not in the power basis of the ciphertext context".to_string(),
            );
        }
        match from.get_representation() {
            Representation::PowerBasis => {},
            _ => {
                return Err(
                    "The polynomial is not in the power basis of the ciphertext context".to_string(),
                );
            },
        }
        let k = par.moduli().len();
        let seeds = sample_seeds(&seed, k);
        let error_seeds = sample_seeds(&error_seed, k);
        let mut c0: Vec<Poly> = Vec::with_capacity(k);
        let mut c1: Vec<Poly> = Vec::with_capacity(k);
        let ghost m = par.spec_moduli();
        let mut i: usize = 0;
        while i < k
            invariant
                sk.wf(),
                from.wf(),
                from.ctx().same(&sk.par().ctx()),
                from.representation() == Representation::PowerBasis,
                **par == sk.par(),
                **ctx == sk.par().ctx(),
                m == sk.par().spec_moduli(),
                i <= k,
                k == m.len(),
                seeds@.len() == k,
                error_seeds@.len() == k,
                forall|l: int| 0 <= l < k ==> (#[trigger] seeds@[l])@ == chacha8_seeds(seed@, k as nat)[l],
                forall|l: int|
                    0 <= l < k ==> (#[trigger] error_seeds@[l])@ == chacha8_seeds(
                        error_seed@,
                        k as nat,
                    )[l],
                c0@.len() == i,
                c1@.len() == i,
                forall|l: int|
                    0 <= l < i ==> (#[trigger] c0@[l]).wf() && c0@[l].ctx() == sk.par().ctx()
                        && c0@[l].representation() == Representation::NttShoup && c0@[l].rows()
                        == converted(
                        sk.par().ctx(),
                        Representation::PowerBasis,
                        Representation::NttShoup,
                        pair_rows(sk.par(), sk.s().rows(), from.rows(), seed@, error_seed@, l),
                    ),
                forall|l: int|
                    0 <= l < i ==> (#[trigger] c1@[l]).wf() && c1@[l].ctx() == sk.par().ctx()
                        && c1@[l].representation() == Representation::NttShoup && c1@[l].rows()
                        == uniform_rows(
                        chacha8_seeds(seed@, k as nat)[l],
                        m,
                        sk.par().spec_degree(),
                    ),
            decreases k - i,
        {
            let mut a = Poly::random_from_seed(ctx, Representation::Ntt, seeds[i]);
            let mut a_s = a.mul(sk.key());
            a_s.change_representation(Representation::PowerBasis);
            let mut b = Poly::small_from_seed(
                ctx,
                Representation::PowerBasis,
                par.variance(),
                error_seeds[i],
            ).unwrap();
            b.sub_assign(&a_s);
            let gi = ctx.rns_context().get_garner(i).unwrap();
            let mut g_i_from = from.mul_scalar_big(gi);
            b.add_assign(&g_i_from);
            // the temporaries depend on the key
            a_s.zeroize();
            g_i_from.zeroize();
            // the pair itself is public
            a.allow_variable_time_computations();
            b.allow_variable_time_computations();
            a.change_representation(Representation::NttShoup);
            b.change_representation(Representation::NttShoup);
            c0.push(b);
            c1.push(a);
            i += 1;
        }
        Ok(KeySwitchingKey { par: share(par), seed: Some(seed), c0, c1 })
    }

    /// Generate a [`KeySwitchingKey`] to this [`SecretKey`] from a
    /// polynomial `from`, with fresh masks and errors.
    pub fn new(sk: &SecretKey, from: &Poly) -> (r: Result<KeySwitchingKey, String>)
        requires
            sk.wf(),
            from.wf(),
        ensures
            r.is_ok() <==> (from.ctx().same(&sk.par().ctx()) && from.representation()
                == Representation::PowerBasis),
            r matches Err(e) ==> e@ == not_switchable_text(),
            r matches Ok(ksk) ==> exists|seed: Seed, error_seed: Seed|
                ksk.made_with(sk, from.rows(), seed, error_seed),
    {
        KeySwitchingKey::new_with_seeds(sk, from, fresh_seed(), fresh_seed())
    }

    /// Key switch a polynomial: the pair of the sums of the products of the
    /// residues of `p` modulo each modulus with the two polynomials of the
    /// pair of that modulus. Fails where `p` is not in the power basis of
    /// the ciphertext context.
    pub fn key_switch(&self, p: &Poly) -> (r: Result<(Poly, Poly), String>)
        requires
            self.wf(),
            p.wf(),
        ensures
            r.is_ok() <==> (p.ctx().same(&self.par().ctx()) && p.representation()
                == Representation::PowerBasis),
            r matches Err(e) ==> e@ == not_switchable_text(),
            r matches Ok(pair) ==> {
                &&& pair.0.wf()
                &&& pair.1.wf()
                &&& pair.0.ctx() == self.par().ctx()
                &&& pair.1.ctx() == self.par().ctx()
                &&& pair.0.representation() == Representation::Ntt
                &&& pair.1.representation() == Representation::Ntt
                &&& pair.0.rows() == switched(
                    self.c0(),
                    p.rows(),
                    self.par(),
                    self.par().spec_moduli().len(),
                )
                &&& pair.1.rows() == switched(
                    self.c1(),
                    p.rows(),
                    self.par(),
                    self.par().spec_moduli().len(),
                )
            },
    {
        let ctx = self.par.context();
        if !p.context().equals(ctx) {
            return Err(
                "The polynomial is not in the power basis of the ciphertext context".to_string(),
            );
        }
        match p.get_representation() {
            Representation::PowerBasis => {},
            _ => {
                return Err(
                    "The polynomial is not in the power basis of the ciphertext context".to_string(),
                );
            },
        }
        let rows = p.coefficients();
        let k = rows.len();
        let mut c0 = Poly::zero(ctx, Representation::Ntt);
        let mut c1 = Poly::zero(ctx, Representation::Ntt);
        let mut i: usize = 0;
        proof {
            assert(p.rows().len() == k);
        }
        while i < k
            invariant
                self.wf(),
                p.wf(),
                p.ctx().same(&self.par().ctx()),
                **ctx == self.par().ctx(),
                crate::rq::rows_of(rows@) == p.rows(),
                i <= k,
                k == rows@.len(),
                k == self.par().spec_moduli().len(),
                c0.wf(),
                c1.wf(),
                c0.ctx() == self.par().ctx(),
                c1.ctx() == self.par().ctx(),
                c0.representation() == Representation::Ntt,
                c1.representation() == Representation::Ntt,
                c0.rows() == switched(self.c0(), p.rows(), self.par(), i as nat),
                c1.rows() == switched(self.c1(), p.rows(), self.par(), i as nat),
            decreases k - i,
        {
            proof {
                assert(p.rows()[i as int].len() == self.par().spec_degree());
                assert(p.rows()[i as int] == rows@[i as int]@);
                assert(self.c0()[i as int].wf());
                assert(self.c1()[i as int].wf());
                assert(Seq::new(rows@[i as int]@.len(), |j: int| rows@[i as int]@[j] as int)
                    =~= as_ints(p.rows()[i as int]));
            }
            let mut c2_i = Poly::from_coefficients_u64(rows[i].as_slice(), ctx).unwrap();
            c2_i.change_representation(Representation::Ntt);
            c0.add_assign(&c2_i.mul(&self.c0[i]));
            c1.add_assign(&c2_i.mul(&self.c1[i]));
            i += 1;
        }
        Ok((c0, c1))
    }
}

} // verus!
