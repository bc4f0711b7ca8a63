//! Secret keys for the BFV encryption scheme.

use crate::bigint::bit_size;
use crate::ciphertext::Ciphertext;
use crate::parameters::BfvParameters;
use crate::plaintext::Plaintext;
use crate::random::{fresh_seed, Seed};
use crate::rq::{
    converted, rows_combine, rows_in, rows_of, share, small_rows, uniform_rows, Operation, Poly,
    Representation,
};
use crate::scaler::scaled_rows;
use crate::zq::{reduced, Modulus};
use std::sync::Arc;
use vstd::prelude::*;

verus! {

/// The message of the error for a key and a ciphertext, or a plaintext,
/// with different parameters.
pub open spec fn incompatible_key_text() -> Seq<char> {
    "Incompatible BFV parameters"@
}

/// The rows of the `i`-th power of the key, for `i` at least 1.
pub open spec fn key_power(s: Seq<Seq<u64>>, moduli: Seq<u64>, i: nat) -> Seq<Seq<u64>>
    decreases i,
{
    if i <= 1 {
        s
    } else {
        rows_combine(Operation::Mul, key_power(s, moduli, (i - 1) as nat), s, moduli)
    }
}

/// The rows of `c[0] + c[1] * s + ... + c[upto - 1] * s^(upto - 1)`.
pub open spec fn phase(polys: Seq<Poly>, s: Seq<Seq<u64>>, moduli: Seq<u64>, upto: nat) -> Seq<
    Seq<u64>,
>
    decreases upto,
{
    if upto == 0 {
        Seq::empty()
    } else if upto == 1 {
        polys[0].rows()
    } else {
        rows_combine(
            Operation::Add,
            phase(polys, s, moduli, (upto - 1) as nat),
            rows_combine(
                Operation::Mul,
                polys[upto - 1].rows(),
                key_power(s, moduli, (upto - 1) as nat),
                moduli,
            ),
            moduli,
        )
    }
}

/// The coefficients modulo `t` that stand behind the residues `d` modulo
/// `q0` of numbers between `-t` and `q0 - t`.
pub open spec fn recentered(d: Seq<u64>, t: u64, q0: u64) -> Seq<u64> {
    Seq::new(d.len(), |j: int| (((d[j] + t) % (q0 as int)) % (t as int)) as u64)
}

/// Secret key for the BFV encryption scheme.
#[derive(Debug)]
pub struct SecretKey {
    par: Arc<BfvParameters>,
    s: Poly,
}

impl SecretKey {
    /// The parameters.
    pub closed spec fn par(&self) -> BfvParameters {
        *self.par
    }

    /// The key, a polynomial with small coefficients.
    pub closed spec fn s(&self) -> Poly {
        self.s
    }

    /// Well-formedness: the key is in the transform domain of the
    /// ciphertext context, with Shoup constants.
    pub open spec fn wf(&self) -> bool {
        &&& self.par().wf()
        &&& self.s().wf()
        &&& self.s().ctx() == self.par().ctx()
        &&& self.s().representation() == Representation::NttShoup
    }

    /// The rows of the key in the context of a ciphertext: the rows of the
    /// key, or, for a minimized ciphertext, the rows of the key over the
    /// first modulus alone.
    pub open spec fn key_rows(&self, minimized: bool) -> Seq<Seq<u64>> {
        if minimized {
            converted(
                self.par().plaintext_ctx(),
                Representation::PowerBasis,
                Representation::Ntt,
                seq![
                    converted(
                        self.par().ctx(),
                        Representation::NttShoup,
                        Representation::PowerBasis,
                        self.s().rows(),
                    )[0],
                ],
            )
        } else {
            self.s().rows()
        }
    }

    /// Whether `ct` is the ciphertext of `pt` with the mask that `seed`
    /// yields and the error that `error_seed` yields: the pair
    /// `(e - a * s + m, a)`, with `m` the plaintext scaled into the
    /// ciphertext modulus.
    pub open spec fn is_encryption(
        &self,
        ct: &Ciphertext,
        pt: &Plaintext,
        seed: Seed,
        error_seed: Seed,
    ) -> bool {
        let m = self.par().spec_moduli();
        let a = uniform_rows(seed@, m, self.par().spec_degree());
        &&& ct.wf()
        &&& ct.par() == self.par()
        &&& ct.seed() == Some(seed)
        &&& !ct.minimized()
        &&& ct.polys().len() == 2
        &&& ct.polys()[1].rows() == a
        &&& ct.polys()[0].rows() == rows_combine(
            Operation::Add,
            rows_combine(
                Operation::Sub,
                small_rows(
                    self.par().ctx(),
                    Representation::Ntt,
                    self.par().spec_variance(),
                    error_seed@,
                ),
                rows_combine(Operation::Mul, a, self.s().rows(), m),
                m,
            ),
            rows_combine(Operation::Mul, pt.poly().rows(), pt.par().delta().rows(), m),
            m,
        )
    }

    /// The coefficients that the ciphertext decrypts to.
    pub open spec fn decrypted(&self, ct: &Ciphertext) -> Seq<u64> {
        let sc = if ct.minimized() {
            self.par().scaler_minimized()
        } else {
            self.par().scaler()
        };
        let c = phase(
            ct.polys(),
            self.key_rows(ct.minimized()),
            ct.ctx().moduli(),
            ct.polys().len(),
        );
        recentered(
            scaled_rows(
                converted(ct.ctx(), Representation::Ntt, Representation::PowerBasis, c),
                sc.from(),
                sc.to(),
                sc.num(),
                sc.den(),
                false,
            )[0],
            self.par().spec_plaintext(),
            self.par().spec_moduli()[0],
        )
    }

    /// The key that the seed yields.
    pub fn random_from_seed(par: &Arc<BfvParameters>, seed: Seed) -> (r: SecretKey)
        requires
            par.wf(),
        ensures
            r.wf(),
            r.par() == **par,
            r.s().rows() == small_rows(
                par.ctx(),
                Representation::NttShoup,
                par.spec_variance(),
                seed@,
            ),
    {
        let s = Poly::small_from_seed(
            par.context(),
            Representation::NttShoup,
            par.variance(),
            seed,
        ).unwrap();
        SecretKey { par: share(par), s }
    }

    /// Generate a random [`SecretKey`].
    pub fn random(par: &Arc<BfvParameters>) -> (r: SecretKey)
        requires
            par.wf(),
        ensures
            r.wf(),
            r.par() == **par,
            exists|seed: Seed|
                r.s().rows() == #[trigger] small_rows(
                    par.ctx(),
                    Representation::NttShoup,
                    par.spec_variance(),
                    seed@,
                ),
    {
        SecretKey::random_from_seed(par, fresh_seed())
    }

    /// Overwrites the key with zeros.
    pub fn zeroize(&mut self)
        requires
            old(self).wf(),
        ensures
            final(self).wf(),
            final(self).par() == old(self).par(),
            final(self).s().rows() == crate::rq::rows_zero(
                old(self).par().spec_moduli().len(),
                old(self).par().spec_degree(),
            ),
    {
        self.s.zeroize();
    }

    /// The parameters.
    pub fn parameters(&self) -> (r: &Arc<BfvParameters>)
        ensures
            **r == self.par(),
    {
        &self.par
    }

    /// The key.
    pub fn key(&self) -> (r: &Poly)
        ensures
            *r == self.s(),
    {
        &self.s
    }

    /// The ciphertext of `pt` with the mask that `seed` yields and the
    /// error that `error_seed` yields: the pair `(e - a * s + m, a)`, with
    /// `m` the plaintext scaled into the ciphertext modulus. Fails where the
    /// plaintext has other parameters.
    pub fn encrypt_with_seeds(&self, pt: &Plaintext, seed: Seed, error_seed: Seed) -> (r: Result<
        Ciphertext,
        String,
    >)
        requires
            self.wf(),
            pt.wf(),
        ensures
            r.is_ok() <==> self.par().same(&pt.par()),
            r matches Err(e) ==> e@ == incompatible_key_text(),
            r matches Ok(ct) ==> self.is_encryption(&ct, pt, seed, error_seed),
    {
        if !self.par.equals(pt.parameters()) {
            return Err("Incompatible BFV parameters".to_string());
        }
        let ctx = self.par.context();
        let mut a = Poly::random_from_seed(ctx, Representation::Ntt, seed);
        let mut a_s = a.mul(&self.s);
        let mut b = Poly::small_from_seed(
            ctx,
            Representation::Ntt,
            self.par.variance(),
            error_seed,
        ).unwrap();
        b.sub_assign(&a_s);
        let mut m = pt.to_poly();
        b.add_assign(&m);
        // the temporaries depend on the key and on the message
        a_s.zeroize();
        m.zeroize();
        // the ciphertext itself is public
        a.allow_variable_time_computations();
        b.allow_variable_time_computations();
        let mut c: Vec<Poly> = Vec::with_capacity(2);
        c.push(b);
        c.push(a);
        Ok(Ciphertext::from_parts(&self.par, Some(seed), c, false))
    }

    /// Encrypts `pt` with a fresh mask and a fresh error.
    pub fn encrypt(&self, pt: &Plaintext) -> (r: Result<Ciphertext, String>)
        requires
            self.wf(),
            pt.wf(),
        ensures
            r.is_ok() <==> self.par().same(&pt.par()),
            r matches Err(e) ==> e@ == incompatible_key_text(),
            r matches Ok(ct) ==> {
                &&& ct.wf()
                &&& ct.par() == self.par()
                &&& ct.seed().is_some()
                &&& !ct.minimized()
                &&& ct.polys().len() == 2
                &&& exists|seed: Seed, error_seed: Seed|
                    self.is_encryption(&ct, pt, seed, error_seed)
            },
    {
        self.encrypt_with_seeds(pt, fresh_seed(), fresh_seed())
    }

    /// The key in the context of a ciphertext, in the transform domain.
    fn key_for(&self, minimized: bool) -> (r: Poly)
        requires
            self.wf(),
        ensures
            r.wf(),
            r.representation() == Representation::Ntt || r.representation()
                == Representation::NttShoup,
            !r.variable_time(),
            r.ctx() == (if minimized {
                self.par().plaintext_ctx()
            } else {
                self.par().ctx()
            }),
            r.rows() == self.key_rows(minimized),
    {
        let mut s = self.s.copy();
        s.disallow_variable_time_computations();
        if !minimized {
            return s;
        }
        s.change_representation(Representation::PowerBasis);
        let first = s.coefficients()[0].clone();
        proof {
            assert(first@ =~= s.rows()[0]);
            assert(s.rows()[0].len() == self.par().spec_degree());
        }
        let mut rows: Vec<Vec<u64>> = Vec::with_capacity(1);
        rows.push(first);
        proof {
            assert(rows_of(rows@) =~= seq![s.rows()[0]]);
            assert(self.par().plaintext_ctx().moduli() =~= seq![self.par().spec_moduli()[0]]);
            assert(rows_in(
                rows_of(rows@),
                self.par().plaintext_ctx().moduli(),
                self.par().plaintext_ctx().degree(),
            ));
        }
        let mut r = Poly::from_rows(
            self.par.plaintext_context(),
            Representation::PowerBasis,
            false,
            rows,
        );
        s.zeroize();
        r.change_representation(Representation::Ntt);
        r
    }

    /// Decrypts a ciphertext of any number of polynomials. Fails where the
    /// ciphertext has other parameters or holds no polynomial.
    pub fn decrypt(&self, ct: &Ciphertext) -> (r: Result<Plaintext, String>)
        requires
            self.wf(),
            ct.wf(),
        ensures
            r.is_ok() <==> (self.par().same(&ct.par()) && ct.polys().len() > 0),
            r matches Err(e) ==> (if !self.par().same(&ct.par()) {
                e@ == incompatible_key_text()
            } else {
                e@ == "The ciphertext holds no polynomial"@
            }),
            r matches Ok(pt) ==> {
                &&& pt.wf()
                &&& pt.par() == self.par()
                &&& pt.encoding().is_none()
                &&& pt.values() == self.decrypted(ct)
            },
    {
        if !self.par.equals(ct.parameters()) {
            return Err("Incompatible BFV parameters".to_string());
        }
        if ct.polynomials().len() == 0 {
            return Err("The ciphertext holds no polynomial".to_string());
        }
        let minimized = ct.is_minimized();
        let mut c = self.compute_phase(ct);
        c.change_representation(Representation::PowerBasis);
        let scaler = if minimized {
            self.par.decryption_scaler_minimized()
        } else {
            self.par.decryption_scaler()
        };
        let mut d = scaler.scale(&c, false).unwrap();
        let t = self.par.plaintext_ring();
        let q0 = Modulus::new(self.par.moduli()[0]).unwrap();
        let n = self.par.degree();
        let row = &d.coefficients()[0];
        let mut w: Vec<u64> = Vec::with_capacity(n);
        let mut j: usize = 0;
        proof {
            assert(d.rows()[0].len() == n);
            assert(row@ == d.rows()[0]);
            assert(reduced(d.rows()[0], self.par().spec_moduli()[0]));
        }
        while j < n
            invariant
                self.wf(),
                j <= n,
                n == row@.len(),
                n == self.par().spec_degree(),
                t.wf(),
                t.spec_modulus() == self.par().spec_plaintext(),
                q0.wf(),
                q0.spec_modulus() == self.par().spec_moduli()[0],
                reduced(row@, q0.spec_modulus()),
                w@.len() == j,
                forall|l: int|
                    0 <= l < j ==> #[trigger] w@[l] == recentered(
                        row@,
                        t.spec_modulus(),
                        q0.spec_modulus(),
                    )[l] && w@[l] < t.spec_modulus(),
            decreases n - j,
        {
            proof {
                vstd::arithmetic::div_mod::lemma_mod_bound(
                    ((row@[j as int] + t.spec_modulus()) % (q0.spec_modulus() as int)) as int,
                    t.spec_modulus() as int,
                );
            }
            w.push(t.reduce(q0.reduce(row[j] + t.modulus())));
            j += 1;
        }
        proof {
            assert(w@ =~= recentered(row@, t.spec_modulus(), q0.spec_modulus()));
        }
        let pt = Plaintext::from_value(w, None, &self.par);
        // the temporaries depend on the key and on the message
        c.zeroize();
        d.zeroize();
        Ok(pt)
    }

    /// The polynomial `c[0] + c[1] * s + c[2] * s^2 + ...` of a ciphertext.
    fn compute_phase(&self, ct: &Ciphertext) -> (c: Poly)
        requires
            self.wf(),
            ct.wf(),
            self.par().same(&ct.par()),
            ct.polys().len() > 0,
        ensures
            c.wf(),
            c.ctx() == ct.ctx(),
            c.representation() == Representation::Ntt,
            !c.variable_time(),
            c.rows() == phase(
                ct.polys(),
                self.key_rows(ct.minimized()),
                ct.ctx().moduli(),
                ct.polys().len(),
            ),
    {
        let polys = ct.polynomials();
        let len = polys.len();
        let minimized = ct.is_minimized();
        let mut s = self.key_for(minimized);
        let ghost key = self.key_rows(minimized);
        let ghost moduli = ct.ctx().moduli();
        proof {
            assert(ct.polys()[0].wf());
            assert(ct.par().ctx().moduli() == self.par().spec_moduli());
            assert(ct.par().plaintext_ctx().moduli() == self.par().plaintext_ctx().moduli());
        }
        let mut c = polys[0].copy();
        c.disallow_variable_time_computations();
        let mut si = s.copy();
        let mut i: usize = 1;
        while i < len
            invariant
                self.wf(),
                ct.wf(),
                self.par().same(&ct.par()),
                1 <= i <= len,
                len == polys@.len(),
                polys@ == ct.polys(),
                minimized == ct.minimized(),
                key == self.key_rows(minimized),
                moduli == ct.ctx().moduli(),
                s.wf(),
                s.rows() == key,
                s.representation() != Representation::PowerBasis,
                s.ctx().same(&ct.ctx()),
                si.wf(),
                si.ctx().same(&ct.ctx()),
                si.representation() != Representation::PowerBasis,
                i < len ==> si.rows() == key_power(key, moduli, i as nat),
                c.wf(),
                c.ctx() == ct.ctx(),
                c.representation() == Representation::Ntt,
                !c.variable_time(),
                c.rows() == phase(ct.polys(), key, moduli, i as nat),
            decreases len - i,
        {
            proof {
                assert(ct.polys()[i as int].wf());
            }
            let mut term = polys[i].mul(&si);
            c.add_assign(&term);
            term.zeroize();
            if i + 1 < len {
                let next = si.mul(&s);
                si.zeroize();
                si = next;
            }
            i += 1;
        }
        // the temporaries depend on the key
        s.zeroize();
        si.zeroize();
        c
    }

    /// The coefficients, below the product of the moduli, of what the
    /// ciphertext holds beside the scaled plaintext it decrypts to.
    pub open spec fn noise_coefficients(&self, ct: &Ciphertext) -> Seq<nat> {
        let m = self.par().spec_moduli();
        let message = rows_combine(
            Operation::Mul,
            converted(
                self.par().ctx(),
                Representation::PowerBasis,
                Representation::Ntt,
                crate::rq::power_rows(
                    crate::rq::as_ints(self.decrypted(ct)),
                    m,
                    self.par().spec_degree(),
                ),
            ),
            self.par().delta().rows(),
            m,
        );
        let rest = converted(
            ct.ctx(),
            Representation::Ntt,
            Representation::PowerBasis,
            rows_combine(
                Operation::Sub,
                phase(ct.polys(), self.s().rows(), m, ct.polys().len()),
                message,
                m,
            ),
        );
        Seq::new(
            self.par().spec_degree(),
            |j: int| ct.ctx().rns().lift_spec(crate::rq::column(rest, j)),
        )
    }

    /// The number of bits of the noise in a ciphertext: the largest number
    /// of bits of a coefficient, taken in the centered range, of what the
    /// ciphertext holds beside the scaled plaintext it decrypts to. It runs
    /// in variable time. Fails where the decryption fails or the ciphertext
    /// is minimized.
    pub fn measure_noise(&self, ct: &Ciphertext) -> (r: Result<usize, String>)
        requires
            self.wf(),
            ct.wf(),
        ensures
            r.is_ok() <==> (self.par().same(&ct.par()) && ct.polys().len() > 0
                && !ct.minimized()),
            r matches Err(e) ==> (if ct.minimized() {
                e@ == crate::ciphertext::minimized_text()
            } else if !self.par().same(&ct.par()) {
                e@ == incompatible_key_text()
            } else {
                e@ == "The ciphertext holds no polynomial"@
            }),
            r matches Ok(noise) ==> {
                let bits = largest_centered_bits(
                    self.noise_coefficients(ct),
                    self.par().big_q(),
                    self.par().spec_degree(),
                );
                noise as nat == (if bits > usize::MAX {
                    usize::MAX as nat
                } else {
                    bits
                })
            },
    {
        if ct.is_minimized() {
            return Err("A ciphertext is minimized and cannot be operated on".to_string());
        }
        let plaintext = match self.decrypt(ct) {
            Ok(pt) => pt,
            Err(e) => {
                return Err(e);
            },
        };
        let mut m = plaintext.to_poly();
        let mut c = self.compute_phase(ct);
        proof {
            assert(ct.par().ctx().moduli() == self.par().spec_moduli());
        }
        c.sub_assign(&m);
        c.change_representation(Representation::PowerBasis);
        let coefficients = c.to_vec_big();
        let q = ct.parameters().context().rns_context().modulus();
        let n = coefficients.len();
        let ghost values = Seq::new(n as nat, |j: int| coefficients@[j]@);
        proof {
            assert(q@ == self.par().big_q());
            assert(values =~= self.noise_coefficients(ct));
        }
        // the temporaries depend on the key and on the message
        c.zeroize();
        m.zeroize();
        let mut noise: u64 = 0;
        let mut j: usize = 0;
        while j < n
            invariant
                j <= n,
                n == coefficients@.len(),
                values == Seq::new(n as nat, |j: int| coefficients@[j]@),
                forall|l: int| 0 <= l < n ==> (#[trigger] coefficients@[l])@ < q@,
                noise as nat == largest_centered_bits(values, q@, j as nat),
            decreases n - j,
        {
            let coeff = &coefficients[j];
            let low = coeff.bits();
            let high = q.checked_sub(coeff).unwrap().bits();
            let bits = if low < high {
                low
            } else {
                high
            };
            proof {
                assert(values[j as int] == coeff@);
            }
            if noise < bits {
                noise = bits;
            }
            j += 1;
        }
        if noise > usize::MAX as u64 {
            Ok(usize::MAX)
        } else {
            Ok(noise as usize)
        }
    }
}

/// The number of bits of `x` modulo `q` in the centered range: the smaller
/// of the numbers of bits of `x` and of `q - x`.
pub open spec fn centered_bits(x: nat, q: nat) -> nat {
    if bit_size(x) < bit_size((q - x) as nat) {
        bit_size(x)
    } else {
        bit_size((q - x) as nat)
    }
}

/// The largest number of bits, in the centered range, among the first
/// `upto` numbers of `v`.
pub open spec fn largest_centered_bits(v: Seq<nat>, q: nat, upto: nat) -> nat
    decreases upto,
{
    if upto == 0 {
        0
    } else {
        let before = largest_centered_bits(v, q, (upto - 1) as nat);
        let bits = centered_bits(v[upto - 1], q);
        if before < bits {
            bits
        } else {
            before
        }
    }
}

impl Drop for SecretKey {
    /// Wipes the key when it goes away.
    fn drop(&mut self)
        opens_invariants none
        no_unwind
    {
        self.s.scrub();
    }
}

} // verus!
