//! Ciphertexts of the BFV encryption scheme, and the operations on them.

use crate::evaluation_key::{no_relinearization_text, EvaluationKey};
use crate::key_switching_key::switched;
use crate::parameters::{BfvParameters, MultiplicationParameters};
use crate::plaintext::Plaintext;
use crate::random::Seed;
use crate::rq::{
    converted, rows_combine, rows_neg, rows_zero, share, Context, Operation, Poly, Representation,
};
use crate::scaler::{scaled_rows, Scaler};
use std::sync::Arc;
use vstd::prelude::*;

verus! {

/// The rows that a scaler makes of rows in the transform domain: the rows
/// are brought into the power basis, scaled, and brought back into the
/// transform domain of the target context.
pub open spec fn scaled_in_ntt(rows: Seq<Seq<u64>>, s: Scaler) -> Seq<Seq<u64>> {
    converted(
        s.to(),
        Representation::PowerBasis,
        Representation::Ntt,
        scaled_rows(
            converted(s.from(), Representation::Ntt, Representation::PowerBasis, rows),
            s.from(),
            s.to(),
            s.num(),
            s.den(),
            false,
        ),
    )
}

/// Scales a polynomial in the transform domain into the target context of
/// the scaler, rounding to the nearest integer.
pub fn scale_ntt(s: &Scaler, p: &Poly) -> (r: Poly)
    requires
        s.wf(),
        p.wf(),
        p.ctx().same(&s.from()),
        p.representation() == Representation::Ntt,
    ensures
        r.wf(),
        r.ctx() == s.to(),
        r.representation() == Representation::Ntt,
        r.variable_time() == p.variable_time(),
        r.rows() == scaled_in_ntt(p.rows(), *s),
{
    let mut q = Poly::from_rows(
        s.source(),
        Representation::Ntt,
        p.is_variable_time(),
        crate::rq::clone_rows(p.coefficients()),
    );
    q.change_representation(Representation::PowerBasis);
    let mut r = s.scale(&q, false).unwrap();
    r.change_representation(Representation::Ntt);
    r
}

/// The message of the error for operands with different parameters.
pub open spec fn incompatible_text() -> Seq<char> {
    "Incompatible parameters"@
}

/// The message of the error for a minimized operand.
pub open spec fn minimized_text() -> Seq<char> {
    "A ciphertext is minimized and cannot be operated on"@
}

/// The message of the error for operands with different numbers of
/// polynomials.
pub open spec fn size_text() -> Seq<char> {
    "The ciphertexts do not have the same number of polynomials"@
}

/// A ciphertext encrypting a plaintext.
#[derive(Debug)]
pub struct Ciphertext {
    par: Arc<BfvParameters>,
    seed: Option<Seed>,
    c: Vec<Poly>,
    minimized: bool,
}

impl Ciphertext {
    /// The parameters.
    pub closed spec fn par(&self) -> BfvParameters {
        *self.par
    }

    /// The seed that the last polynomial of a fresh ciphertext came from.
    pub closed spec fn seed(&self) -> Option<Seed> {
        self.seed
    }

    /// The polynomials.
    pub closed spec fn polys(&self) -> Seq<Poly> {
        self.c@
    }

    /// Whether the ciphertext was minimized.
    pub closed spec fn minimized(&self) -> bool {
        self.minimized
    }

    /// The context of the polynomials: the plaintext context once the
    /// ciphertext is minimized, the ciphertext context before.
    pub open spec fn ctx(&self) -> Context {
        if self.minimized() {
            self.par().plaintext_ctx()
        } else {
            self.par().ctx()
        }
    }

    /// Well-formedness: every polynomial is in the transform domain of the
    /// context of the ciphertext.
    pub open spec fn wf(&self) -> bool {
        &&& self.par().wf()
        &&& forall|i: int|
            0 <= i < self.polys().len() ==> (#[trigger] self.polys()[i]).wf() && self.polys()[i].ctx()
                == self.ctx() && self.polys()[i].representation() == Representation::Ntt
        &&& self.seed() matches Some(seed) ==> self.seeded_by(seed)
    }

    /// Whether the last polynomial is the one that the seed yields, in a
    /// ciphertext that is not minimized.
    pub open spec fn seeded_by(&self, seed: Seed) -> bool {
        &&& !self.minimized()
        &&& self.polys().len() >= 1
        &&& self.polys().last().rows() == crate::rq::uniform_rows(
            seed@,
            self.par().spec_moduli(),
            self.par().spec_degree(),
        )
    }

    /// The ciphertext with the given parts.
    pub fn from_parts(par: &Arc<BfvParameters>, seed: Option<Seed>, c: Vec<Poly>, minimized: bool) -> (r:
        Ciphertext)
        ensures
            r.par() == **par,
            r.seed() == seed,
            r.polys() == c@,
            r.minimized() == minimized,
    {
        Ciphertext { par: share(par), seed, c, minimized }
    }

    /// Generate the zero ciphertext, which holds no polynomial.
    pub fn zero(par: &Arc<BfvParameters>) -> (r: Ciphertext)
        ensures
            r.par() == **par,
            r.seed().is_none(),
            r.polys().len() == 0,
            !r.minimized(),
            par.wf() ==> r.wf(),
    {
        Ciphertext { par: share(par), seed: None, c: Vec::new(), minimized: false }
    }

    /// The parameters.
    pub fn parameters(&self) -> (r: &Arc<BfvParameters>)
        ensures
            **r == self.par(),
    {
        &self.par
    }

    /// The polynomials.
    pub fn polynomials(&self) -> (r: &Vec<Poly>)
        ensures
            r@ == self.polys(),
    {
        &self.c
    }

    /// The seed that the last polynomial of a fresh ciphertext came from.
    pub fn get_seed(&self) -> (r: Option<Seed>)
        ensures
            r == self.seed(),
    {
        self.seed
    }

    /// Whether the ciphertext was minimized.
    pub fn is_minimized(&self) -> (r: bool)
        ensures
            r == self.minimized(),
    {
        self.minimized
    }

    /// A copy of the ciphertext.
    pub fn copy(&self) -> (r: Ciphertext)
        requires
            self.wf(),
        ensures
            r.wf(),
            r.par() == self.par(),
            r.seed() == self.seed(),
            r.minimized() == self.minimized(),
            r.polys().len() == self.polys().len(),
            forall|i: int|
                0 <= i < self.polys().len() ==> (#[trigger] r.polys()[i]).rows()
                    == self.polys()[i].rows() && r.polys()[i].variable_time()
                    == self.polys()[i].variable_time(),
    {
        let k = self.c.len();
        let mut c: Vec<Poly> = Vec::with_capacity(k);
        let mut i: usize = 0;
        while i < k
            invariant
                self.wf(),
                i <= k,
                k == self.c@.len(),
                c@.len() == i,
                forall|l: int|
                    0 <= l < i ==> (#[trigger] c@[l]).wf() && c@[l].ctx() == self.ctx()
                        && c@[l].representation() == Representation::Ntt && c@[l].rows()
                        == self.c@[l].rows() && c@[l].variable_time() == self.c@[l].variable_time(),
            decreases k - i,
        {
            proof {
                assert(self.polys()[i as int].wf());
            }
            c.push(self.c[i].copy());
            i += 1;
        }
        Ciphertext { par: share(&self.par), seed: self.seed, c, minimized: self.minimized }
    }

    /// Minimizes the ciphertext for communication: every polynomial is
    /// scaled into the plaintext context. The seed is dropped, as it no
    /// longer yields the last polynomial.
    pub fn minimizes(&mut self)
        requires
            old(self).wf(),
            !old(self).minimized(),
        ensures
            final(self).wf(),
            final(self).minimized(),
            final(self).par() == old(self).par(),
            final(self).seed().is_none(),
            final(self).polys().len() == old(self).polys().len(),
            forall|i: int|
                0 <= i < old(self).polys().len() ==> (#[trigger] final(self).polys()[i]).rows()
                    == scaled_in_ntt(old(self).polys()[i].rows(), old(self).par().modswitch()),
    {
        let k = self.c.len();
        let mut c: Vec<Poly> = Vec::with_capacity(k);
        let mut i: usize = 0;
        while i < k
            invariant
                self.wf(),
                !self.minimized(),
                i <= k,
                k == self.c@.len(),
                c@.len() == i,
                forall|l: int|
                    0 <= l < i ==> (#[trigger] c@[l]).wf() && c@[l].ctx()
                        == self.par().plaintext_ctx() && c@[l].representation()
                        == Representation::Ntt && c@[l].rows() == scaled_in_ntt(
                        self.c@[l].rows(),
                        self.par().modswitch(),
                    ),
            decreases k - i,
        {
            proof {
                assert(self.polys()[i as int].wf());
            }
            c.push(scale_ntt(self.par.minimization_scaler(), &self.c[i]));
            i += 1;
        }
        self.c = c;
        self.seed = None;
        self.minimized = true;
    }

    /// Which error, if any, keeps two ciphertexts from being combined.
    pub open spec fn combine_error(&self, rhs: &Ciphertext) -> Option<Seq<char>> {
        if !self.par().same(&rhs.par()) {
            Some(incompatible_text())
        } else if self.minimized() || rhs.minimized() {
            Some(minimized_text())
        } else if self.polys().len() != 0 && self.polys().len() != rhs.polys().len() {
            Some(size_text())
        } else {
            None
        }
    }

    /// Checks that two ciphertexts can be combined.
    fn check_combine(&self, rhs: &Ciphertext) -> (r: Result<(), String>)
        ensures
            r.is_ok() <==> self.combine_error(rhs).is_none(),
            r matches Err(e) ==> self.combine_error(rhs) == Some(e@),
    {
        if !self.par.equals(&rhs.par) {
            Err("Incompatible parameters".to_string())
        } else if self.minimized || rhs.minimized {
            Err("A ciphertext is minimized and cannot be operated on".to_string())
        } else if self.c.len() != 0 && self.c.len() != rhs.c.len() {
            Err("The ciphertexts do not have the same number of polynomials".to_string())
        } else {
            Ok(())
        }
    }

    /// Combines the polynomials of the ciphertext with those of `rhs`.
    fn combine(&mut self, rhs: &Ciphertext, op: Operation)
        requires
            old(self).wf(),
            rhs.wf(),
            old(self).par().ctx().same(&rhs.par().ctx()),
            !old(self).minimized(),
            !rhs.minimized(),
            old(self).polys().len() == rhs.polys().len(),
            op != Operation::Mul,
        ensures
            final(self).wf(),
            final(self).par() == old(self).par(),
            !final(self).minimized(),
            final(self).seed().is_none(),
            final(self).polys().len() == old(self).polys().len(),
            forall|i: int|
                0 <= i < old(self).polys().len() ==> (#[trigger] final(self).polys()[i]).rows()
                    == rows_combine(
                    op,
                    old(self).polys()[i].rows(),
                    rhs.polys()[i].rows(),
                    old(self).par().spec_moduli(),
                ),
    {
        let k = self.c.len();
        let mut i: usize = 0;
        while i < k
            invariant
                i <= k,
                k == self.c@.len(),
                k == rhs.c@.len(),
                old(self).wf(),
                rhs.wf(),
                old(self).par().ctx().same(&rhs.par().ctx()),
                !rhs.minimized(),
                op != Operation::Mul,
                self.par == old(self).par,
                self.minimized == old(self).minimized,
                !self.minimized,
                k == old(self).c@.len(),
                forall|l: int| i <= l < k ==> #[trigger] self.c@[l] == old(self).c@[l],
                forall|l: int|
                    0 <= l < i ==> (#[trigger] self.c@[l]).wf() && self.c@[l].ctx() == self.ctx()
                        && self.c@[l].representation() == Representation::Ntt && self.c@[l].rows()
                        == rows_combine(
                        op,
                        old(self).c@[l].rows(),
                        rhs.c@[l].rows(),
                        old(self).par().spec_moduli(),
                    ),
            decreases k - i,
        {
            proof {
                assert(old(self).polys()[i as int].wf());
                assert(rhs.polys()[i as int].wf());
            }
            match op {
                Operation::Add => self.c[i].add_assign(&rhs.c[i]),
                _ => self.c[i].sub_assign(&rhs.c[i]),
            }
            i += 1;
        }
        self.seed = None;
    }

    /// Adds `rhs` to the ciphertext; a ciphertext that holds no polynomial
    /// becomes a copy of `rhs`. Fails where the parameters differ, an
    /// operand is minimized, or the numbers of polynomials differ.
    pub fn add_assign(&mut self, rhs: &Ciphertext) -> (r: Result<(), String>)
        requires
            old(self).wf(),
            rhs.wf(),
        ensures
            final(self).wf(),
            r.is_ok() <==> old(self).combine_error(rhs).is_none(),
            r matches Err(e) ==> old(self).combine_error(rhs) == Some(e@) && *final(self) == *old(
                self,
            ),
            r.is_ok() ==> {
                &&& final(self).par().same(&old(self).par())
                &&& old(self).polys().len() != 0 ==> final(self).par() == old(self).par()
                &&& !final(self).minimized()
                &&& final(self).polys().len() == rhs.polys().len()
                &&& if old(self).polys().len() == 0 {
                    &&& final(self).seed() == rhs.seed()
                    &&& forall|i: int|
                        0 <= i < rhs.polys().len() ==> (#[trigger] final(self).polys()[i]).rows()
                            == rhs.polys()[i].rows()
                } else {
                    &&& final(self).seed().is_none()
                    &&& forall|i: int|
                        0 <= i < rhs.polys().len() ==> (#[trigger] final(self).polys()[i]).rows()
                            == rows_combine(
                            Operation::Add,
                            old(self).polys()[i].rows(),
                            rhs.polys()[i].rows(),
                            old(self).par().spec_moduli(),
                        )
                }
            },
    {
        match self.check_combine(rhs) {
            Err(e) => {
                return Err(e);
            },
            Ok(_) => {},
        }
        if self.c.len() == 0 {
            *self = rhs.copy();
        } else {
            self.combine(rhs, Operation::Add);
        }
        Ok(())
    }

    /// The sum of two ciphertexts.
    pub fn add(&self, rhs: &Ciphertext) -> (r: Result<Ciphertext, String>)
        requires
            self.wf(),
            rhs.wf(),
        ensures
            r.is_ok() <==> self.combine_error(rhs).is_none(),
            r matches Err(e) ==> self.combine_error(rhs) == Some(e@),
            r matches Ok(ct) ==> {
                &&& ct.wf()
                &&& ct.par().same(&self.par())
                &&& self.polys().len() != 0 ==> ct.par() == self.par()
                &&& !ct.minimized()
                &&& ct.polys().len() == rhs.polys().len()
                &&& if self.polys().len() == 0 {
                    &&& ct.seed() == rhs.seed()
                    &&& forall|i: int|
                        0 <= i < rhs.polys().len() ==> (#[trigger] ct.polys()[i]).rows()
                            == rhs.polys()[i].rows()
                } else {
                    &&& ct.seed().is_none()
                    &&& forall|i: int|
                        0 <= i < rhs.polys().len() ==> (#[trigger] ct.polys()[i]).rows()
                            == rows_combine(
                            Operation::Add,
                            self.polys()[i].rows(),
                            rhs.polys()[i].rows(),
                            self.par().spec_moduli(),
                        )
                }
            },
    {
        let mut ct = self.copy();
        match ct.add_assign(rhs) {
            Err(e) => Err(e),
            Ok(_) => Ok(ct),
        }
    }

    /// The negation of a ciphertext. Fails where it is minimized.
    pub fn neg(&self) -> (r: Result<Ciphertext, String>)
        requires
            self.wf(),
        ensures
            r.is_ok() <==> !self.minimized(),
            r matches Err(e) ==> e@ == minimized_text(),
            r matches Ok(ct) ==> {
                &&& ct.wf()
                &&& ct.par() == self.par()
                &&& !ct.minimized()
                &&& ct.seed().is_none()
                &&& ct.polys().len() == self.polys().len()
                &&& forall|i: int|
                    0 <= i < self.polys().len() ==> (#[trigger] ct.polys()[i]).rows() == rows_neg(
                        self.polys()[i].rows(),
                        self.par().spec_moduli(),
                    )
            },
    {
        if self.minimized {
            return Err("A ciphertext is minimized and cannot be operated on".to_string());
        }
        let k = self.c.len();
        let mut c: Vec<Poly> = Vec::with_capacity(k);
        let mut i: usize = 0;
        while i < k
            invariant
                self.wf(),
                !self.minimized(),
                i <= k,
                k == self.c@.len(),
                c@.len() == i,
                forall|l: int|
                    0 <= l < i ==> (#[trigger] c@[l]).wf() && c@[l].ctx() == self.par().ctx()
                        && c@[l].representation() == Representation::Ntt && c@[l].rows()
                        == rows_neg(self.c@[l].rows(), self.par().spec_moduli()),
            decreases k - i,
        {
            proof {
                assert(self.polys()[i as int].wf());
            }
            c.push(self.c[i].neg());
            i += 1;
        }
        Ok(Ciphertext { par: share(&self.par), seed: None, c, minimized: false })
    }

    /// Subtracts `rhs` from the ciphertext; a ciphertext that holds no
    /// polynomial becomes the negation of `rhs`. Fails where the parameters
    /// differ, an operand is minimized, or the numbers of polynomials
    /// differ.
    pub fn sub_assign(&mut self, rhs: &Ciphertext) -> (r: Result<(), String>)
        requires
            old(self).wf(),
            rhs.wf(),
        ensures
            final(self).wf(),
            r.is_ok() <==> old(self).combine_error(rhs).is_none(),
            r matches Err(e) ==> old(self).combine_error(rhs) == Some(e@) && *final(self) == *old(
                self,
            ),
            r.is_ok() ==> {
                &&& final(self).par().same(&old(self).par())
                &&& old(self).polys().len() != 0 ==> final(self).par() == old(self).par()
                &&& !final(self).minimized()
                &&& final(self).seed().is_none()
                &&& final(self).polys().len() == rhs.polys().len()
                &&& forall|i: int|
                    0 <= i < rhs.polys().len() ==> (#[trigger] final(self).polys()[i]).rows() == (
                    if old(self).polys().len() == 0 {
                        rows_neg(rhs.polys()[i].rows(), rhs.par().spec_moduli())
                    } else {
                        rows_combine(
                            Operation::Sub,
                            old(self).polys()[i].rows(),
                            rhs.polys()[i].rows(),
                            old(self).par().spec_moduli(),
                        )
                    })
            },
    {
        match self.check_combine(rhs) {
            Err(e) => {
                return Err(e);
            },
            Ok(_) => {},
        }
        if self.c.len() == 0 {
            *self = rhs.neg().unwrap();
        } else {
            self.combine(rhs, Operation::Sub);
        }
        Ok(())
    }

    /// The difference of two ciphertexts.
    pub fn sub(&self, rhs: &Ciphertext) -> (r: Result<Ciphertext, String>)
        requires
            self.wf(),
            rhs.wf(),
        ensures
            r.is_ok() <==> self.combine_error(rhs).is_none(),
            r matches Err(e) ==> self.combine_error(rhs) == Some(e@),
            r matches Ok(ct) ==> {
                &&& ct.wf()
                &&& ct.par().same(&self.par())
                &&& self.polys().len() != 0 ==> ct.par() == self.par()
                &&& !ct.minimized()
                &&& ct.seed().is_none()
                &&& ct.polys().len() == rhs.polys().len()
                &&& forall|i: int|
                    0 <= i < rhs.polys().len() ==> (#[trigger] ct.polys()[i]).rows() == (
                    if self.polys().len() == 0 {
                        rows_neg(rhs.polys()[i].rows(), rhs.par().spec_moduli())
                    } else {
                        rows_combine(
                            Operation::Sub,
                            self.polys()[i].rows(),
                            rhs.polys()[i].rows(),
                            self.par().spec_moduli(),
                        )
                    })
            },
    {
        let mut ct = self.copy();
        match ct.sub_assign(rhs) {
            Err(e) => Err(e),
            Ok(_) => Ok(ct),
        }
    }

    /// Which error, if any, keeps the ciphertext from being multiplied by a
    /// plaintext.
    pub open spec fn scale_error(&self, rhs: &Plaintext) -> Option<Seq<char>> {
        if !self.par().same(&rhs.par()) {
            Some(incompatible_text())
        } else if self.minimized() {
            Some(minimized_text())
        } else {
            None
        }
    }

    /// Multiplies the ciphertext by a plaintext. Fails where the parameters
    /// differ or the ciphertext is minimized.
    pub fn mul_assign(&mut self, rhs: &Plaintext) -> (r: Result<(), String>)
        requires
            old(self).wf(),
            rhs.wf(),
        ensures
            final(self).wf(),
            r.is_ok() <==> old(self).scale_error(rhs).is_none(),
            r matches Err(e) ==> old(self).scale_error(rhs) == Some(e@) && *final(self) == *old(
                self,
            ),
            r.is_ok() ==> {
                &&& final(self).par() == old(self).par()
                &&& !final(self).minimized()
                &&& final(self).seed().is_none()
                &&& final(self).polys().len() == old(self).polys().len()
                &&& forall|i: int|
                    0 <= i < old(self).polys().len() ==> (#[trigger] final(self).polys()[i]).rows()
                        == rows_combine(
                        Operation::Mul,
                        old(self).polys()[i].rows(),
                        rhs.poly().rows(),
                        old(self).par().spec_moduli(),
                    )
            },
    {
        if !self.par.equals(rhs.parameters()) {
            return Err("Incompatible parameters".to_string());
        }
        if self.minimized {
            return Err("A ciphertext is minimized and cannot be operated on".to_string());
        }
        let k = self.c.len();
        let mut i: usize = 0;
        while i < k
            invariant
                i <= k,
                k == self.c@.len(),
                old(self).wf(),
                rhs.wf(),
                old(self).par().same(&rhs.par()),
                self.par == old(self).par,
                self.minimized == old(self).minimized,
                !self.minimized,
                k == old(self).c@.len(),
                forall|l: int| i <= l < k ==> #[trigger] self.c@[l] == old(self).c@[l],
                forall|l: int|
                    0 <= l < i ==> (#[trigger] self.c@[l]).wf() && self.c@[l].ctx() == self.ctx()
                        && self.c@[l].representation() == Representation::Ntt && self.c@[l].rows()
                        == rows_combine(
                        Operation::Mul,
                        old(self).c@[l].rows(),
                        rhs.poly().rows(),
                        old(self).par().spec_moduli(),
                    ),
            decreases k - i,
        {
            proof {
                assert(old(self).polys()[i as int].wf());
            }
            self.c[i].mul_assign(rhs.poly_ntt());
            i += 1;
        }
        self.seed = None;
        Ok(())
    }

    /// The product of a ciphertext and a plaintext.
    pub fn mul_plaintext(&self, rhs: &Plaintext) -> (r: Result<Ciphertext, String>)
        requires
            self.wf(),
            rhs.wf(),
        ensures
            r.is_ok() <==> self.scale_error(rhs).is_none(),
            r matches Err(e) ==> self.scale_error(rhs) == Some(e@),
            r matches Ok(ct) ==> {
                &&& ct.wf()
                &&& ct.par() == self.par()
                &&& !ct.minimized()
                &&& ct.seed().is_none()
                &&& ct.polys().len() == self.polys().len()
                &&& forall|i: int|
                    0 <= i < self.polys().len() ==> (#[trigger] ct.polys()[i]).rows()
                        == rows_combine(
                        Operation::Mul,
                        self.polys()[i].rows(),
                        rhs.poly().rows(),
                        self.par().spec_moduli(),
                    )
            },
    {
        let mut ct = self.copy();
        match ct.mul_assign(rhs) {
            Err(e) => Err(e),
            Ok(_) => Ok(ct),
        }
    }
}

/// The rows that a scaler makes of rows in the transform domain, left in
/// the power basis of the target context.
pub open spec fn scaled_from_ntt(rows: Seq<Seq<u64>>, s: Scaler) -> Seq<Seq<u64>> {
    scaled_rows(
        converted(s.from(), Representation::Ntt, Representation::PowerBasis, rows),
        s.from(),
        s.to(),
        s.num(),
        s.den(),
        false,
    )
}

/// The three polynomials of the product of two ciphertexts of two
/// polynomials each, in the power basis of the ciphertext context: the
/// operands are extended, multiplied as polynomials in the key, and scaled
/// back.
pub open spec fn product_rows(
    ct0: &Ciphertext,
    ct1: &Ciphertext,
    mp: MultiplicationParameters,
    index: int,
) -> Seq<Seq<u64>> {
    let m = mp.to().moduli();
    let c00 = scaled_in_ntt(ct0.polys()[0].rows(), mp.extender_self());
    let c01 = scaled_in_ntt(ct0.polys()[1].rows(), mp.extender_self());
    let c10 = scaled_in_ntt(ct1.polys()[0].rows(), mp.extender_other());
    let c11 = scaled_in_ntt(ct1.polys()[1].rows(), mp.extender_other());
    let t = if index == 0 {
        rows_combine(Operation::Mul, c00, c10, m)
    } else if index == 1 {
        rows_combine(
            Operation::Add,
            rows_combine(Operation::Mul, c00, c11, m),
            rows_combine(Operation::Mul, c01, c10, m),
            m,
        )
    } else {
        rows_combine(Operation::Mul, c01, c11, m)
    };
    scaled_from_ntt(t, mp.down_scaler())
}

/// Which error, if any, keeps two ciphertexts from being multiplied and
/// relinearized. The tests come in this order: the key supports
/// relinearization, the operands have the same parameters, neither is
/// minimized, there is more than one modulus, both hold two polynomials,
/// and, last, the key has the parameters of the operands.
pub open spec fn mul_error(ct0: &Ciphertext, ct1: &Ciphertext, ek: &EvaluationKey) -> Option<
    Seq<char>,
> {
    if !ek.spec_supports_relinearization() {
        Some(no_relinearization_text())
    } else if !ct0.par().same(&ct1.par()) {
        Some(incompatible_text())
    } else if ct0.minimized() || ct1.minimized() {
        Some(minimized_text())
    } else if ct0.par().spec_moduli().len() == 1 {
        Some("Parameters do not allow for multiplication"@)
    } else if ct0.polys().len() != 2 || ct1.polys().len() != 2 {
        Some("Multiplication can only be performed on ciphertexts of size 2"@)
    } else if !ct0.par().same(&ek.par()) {
        Some(incompatible_text())
    } else {
        None
    }
}

/// Whether `ct` is the relinearized product of `ct0` and `ct1`.
pub open spec fn is_product(
    ct: &Ciphertext,
    ct0: &Ciphertext,
    ct1: &Ciphertext,
    ek: &EvaluationKey,
    mp: MultiplicationParameters,
) -> bool {
    let par = ct0.par();
    let m = par.spec_moduli();
    let key = ek.relin_key()->Some_0;
    let c2 = product_rows(ct0, ct1, mp, 2);
    &&& ct.wf()
    &&& ct.par() == par
    &&& ct.seed().is_none()
    &&& !ct.minimized()
    &&& ct.polys().len() == 2
    &&& ct.polys()[0].rows() == rows_combine(
        Operation::Add,
        converted(
            par.ctx(),
            Representation::PowerBasis,
            Representation::Ntt,
            product_rows(ct0, ct1, mp, 0),
        ),
        switched(key.c0(), c2, ek.par(), m.len()),
        m,
    )
    &&& ct.polys()[1].rows() == rows_combine(
        Operation::Add,
        converted(
            par.ctx(),
            Representation::PowerBasis,
            Representation::Ntt,
            product_rows(ct0, ct1, mp, 1),
        ),
        switched(key.c1(), c2, ek.par(), m.len()),
        m,
    )
}

/// Multiply two ciphertexts and relinearize, with the given parameters of
/// the multiplication.
pub fn mul_internal(
    ct0: &Ciphertext,
    ct1: &Ciphertext,
    ek: &EvaluationKey,
    mp: &MultiplicationParameters,
) -> (r: Result<Ciphertext, String>)
    requires
        ct0.wf(),
        ct1.wf(),
        ek.wf(),
        mp.wf(),
        mp.from() == ct0.par().ctx(),
    ensures
        r.is_ok() <==> mul_error(ct0, ct1, ek).is_none(),
        r matches Err(e) ==> mul_error(ct0, ct1, ek) == Some(e@),
        r matches Ok(ct) ==> is_product(&ct, ct0, ct1, ek, *mp),
{
    if !ek.supports_relinearization() {
        return Err("The evaluation key does not support relinearization".to_string());
    }
    if !ct0.par.equals(&ct1.par) {
        return Err("Incompatible parameters".to_string());
    }
    if ct0.minimized || ct1.minimized {
        return Err("A ciphertext is minimized and cannot be operated on".to_string());
    }
    if ct0.par.moduli().len() == 1 {
        return Err("Parameters do not allow for multiplication".to_string());
    }
    if ct0.c.len() != 2 || ct1.c.len() != 2 {
        return Err("Multiplication can only be performed on ciphertexts of size 2".to_string());
    }
    // the key switch needs a key of the same parameters
    if !ct0.par.equals(ek.parameters()) {
        return Err("Incompatible parameters".to_string());
    }
    proof {
        assert(ct0.polys()[0].wf() && ct0.polys()[1].wf());
        assert(ct1.polys()[0].wf() && ct1.polys()[1].wf());
        assert(ct1.par().ctx().same(&ct0.par().ctx()));
    }
    // Extend
    let c00 = scale_ntt(mp.get_extender_self(), &ct0.c[0]);
    let c01 = scale_ntt(mp.get_extender_self(), &ct0.c[1]);
    let c10 = scale_ntt(mp.get_extender_other(), &ct1.c[0]);
    let c11 = scale_ntt(mp.get_extender_other(), &ct1.c[1]);
    // Multiply
    let mut c0 = c00.mul(&c10);
    let mut c1 = c00.mul(&c11);
    c1.add_assign(&c01.mul(&c10));
    let mut c2 = c01.mul(&c11);
    c0.change_representation(Representation::PowerBasis);
    c1.change_representation(Representation::PowerBasis);
    c2.change_representation(Representation::PowerBasis);
    // Scale
    let mut c0 = mp.get_down_scaler().scale(&c0, false).unwrap();
    let mut c1 = mp.get_down_scaler().scale(&c1, false).unwrap();
    let c2 = mp.get_down_scaler().scale(&c2, false).unwrap();
    // Relinearize
    c0.change_representation(Representation::Ntt);
    c1.change_representation(Representation::Ntt);
    proof {
        assert(ek.par().ctx().same(&ct0.par().ctx()));
        assert(ek.par().spec_moduli() == ct0.par().spec_moduli());
    }
    match ek.relinearizes(&mut c0, &mut c1, &c2) {
        Err(e) => {
            return Err(e);
        },
        Ok(_) => {},
    }
    let mut c: Vec<Poly> = Vec::with_capacity(2);
    c.push(c0);
    c.push(c1);
    Ok(Ciphertext { par: share(&ct0.par), seed: None, c, minimized: false })
}

/// Multiply two ciphertexts and relinearize, with the wide extension.
pub fn mul(ct0: &Ciphertext, ct1: &Ciphertext, ek: &EvaluationKey) -> (r: Result<Ciphertext, String>)
    requires
        ct0.wf(),
        ct1.wf(),
        ek.wf(),
    ensures
        r.is_ok() <==> mul_error(ct0, ct1, ek).is_none(),
        r matches Err(e) ==> mul_error(ct0, ct1, ek) == Some(e@),
        r matches Ok(ct) ==> is_product(&ct, ct0, ct1, ek, ct0.par().mul_1_params()),
{
    mul_internal(ct0, ct1, ek, ct0.par.multiplication_1())
}

/// Multiply two ciphertexts and relinearize, with the balanced extension.
pub fn mul2(ct0: &Ciphertext, ct1: &Ciphertext, ek: &EvaluationKey) -> (r: Result<Ciphertext, String>)
    requires
        ct0.wf(),
        ct1.wf(),
        ek.wf(),
    ensures
        r.is_ok() <==> mul_error(ct0, ct1, ek).is_none(),
        r matches Err(e) ==> mul_error(ct0, ct1, ek) == Some(e@),
        r matches Ok(ct) ==> is_product(&ct, ct0, ct1, ek, ct0.par().mul_2_params()),
{
    mul_internal(ct0, ct1, ek, ct0.par.multiplication_2())
}

/// The polynomials of the product of the polynomials `a` and `b` in the
/// key, after the first `steps` products of a polynomial of `a` with one of
/// `b` were added up, `a[0] * b[0]` first and `a[0] * b[1]` next.
pub open spec fn tensor(
    a: Seq<Seq<Seq<u64>>>,
    b: Seq<Seq<Seq<u64>>>,
    moduli: Seq<u64>,
    n: nat,
    steps: nat,
) -> Seq<Seq<Seq<u64>>>
    decreases steps,
{
    if steps == 0 {
        Seq::new((a.len() + b.len() - 1) as nat, |l: int| rows_zero(moduli.len(), n))
    } else {
        let i = (steps - 1) / (b.len() as int);
        let j = (steps - 1) % (b.len() as int);
        let before = tensor(a, b, moduli, n, (steps - 1) as nat);
        before.update(
            i + j,
            rows_combine(
                Operation::Add,
                before[i + j],
                rows_combine(Operation::Mul, a[i], b[j], moduli),
                moduli,
            ),
        )
    }
}

/// The rows of the polynomials of a ciphertext, each extended by the
/// scaler.
pub open spec fn extended(ct: &Ciphertext, s: Scaler) -> Seq<Seq<Seq<u64>>> {
    Seq::new(ct.polys().len(), |i: int| scaled_in_ntt(ct.polys()[i].rows(), s))
}

/// Which error, if any, keeps two ciphertexts from being multiplied
/// without relinearization.
pub open spec fn tensor_error(ct0: &Ciphertext, ct1: &Ciphertext) -> Option<Seq<char>> {
    if !ct0.par().same(&ct1.par()) {
        Some(incompatible_text())
    } else if ct0.minimized() || ct1.minimized() {
        Some(minimized_text())
    } else if ct0.polys().len() == 0 || ct1.polys().len() == 0 {
        Some("Multiplication needs ciphertexts that hold polynomials"@)
    } else {
        None
    }
}

impl Ciphertext {
    /// The polynomials of the ciphertext, each extended by the scaler.
    fn extend(&self, s: &Scaler) -> (r: Vec<Poly>)
        requires
            self.wf(),
            s.wf(),
            self.ctx().same(&s.from()),
        ensures
            r@.len() == self.polys().len(),
            forall|i: int|
                0 <= i < r@.len() ==> (#[trigger] r@[i]).wf() && r@[i].ctx() == s.to()
                    && r@[i].representation() == Representation::Ntt && r@[i].rows() == extended(
                    self,
                    *s,
                )[i],
    {
        let k = self.c.len();
        let mut r: Vec<Poly> = Vec::with_capacity(k);
        let mut i: usize = 0;
        while i < k
            invariant
                self.wf(),
                s.wf(),
                self.ctx().same(&s.from()),
                i <= k,
                k == self.c@.len(),
                r@.len() == i,
                forall|l: int|
                    0 <= l < i ==> (#[trigger] r@[l]).wf() && r@[l].ctx() == s.to()
                        && r@[l].representation() == Representation::Ntt && r@[l].rows()
                        == extended(self, *s)[l],
            decreases k - i,
        {
            proof {
                assert(self.polys()[i as int].wf());
            }
            r.push(scale_ntt(s, &self.c[i]));
            i += 1;
        }
        r
    }

    /// The product of two ciphertexts, without relinearization: a
    /// ciphertext with one polynomial less than the two operands have
    /// together. The operands are extended, multiplied as polynomials in the
    /// key, and scaled back. Fails where the parameters differ, an operand
    /// is minimized, or an operand holds no polynomial.
    pub fn mul(&self, rhs: &Ciphertext) -> (r: Result<Ciphertext, String>)
        requires
            self.wf(),
            rhs.wf(),
            self.polys().len() + rhs.polys().len() <= usize::MAX,
        ensures
            r.is_ok() <==> tensor_error(self, rhs).is_none(),
            r matches Err(e) ==> tensor_error(self, rhs) == Some(e@),
            r matches Ok(ct) ==> {
                let mp = self.par().mul_1_params();
                let t = tensor(
                    extended(self, mp.extender_self()),
                    extended(rhs, mp.extender_self()),
                    mp.to().moduli(),
                    self.par().spec_degree(),
                    self.polys().len() * rhs.polys().len(),
                );
                &&& ct.wf()
                &&& ct.par() == self.par()
                &&& ct.seed().is_none()
                &&& !ct.minimized()
                &&& ct.polys().len() == self.polys().len() + rhs.polys().len() - 1
                &&& forall|l: int|
                    0 <= l < ct.polys().len() ==> (#[trigger] ct.polys()[l]).rows() == converted(
                        self.par().ctx(),
                        Representation::PowerBasis,
                        Representation::Ntt,
                        scaled_from_ntt(t[l], mp.down_scaler()),
                    )
            },
    {
        if !self.par.equals(&rhs.par) {
            return Err("Incompatible parameters".to_string());
        }
        if self.minimized || rhs.minimized {
            return Err("A ciphertext is minimized and cannot be operated on".to_string());
        }
        if self.c.len() == 0 || rhs.c.len() == 0 {
            return Err("Multiplication needs ciphertexts that hold polynomials".to_string());
        }
        let mp = self.par.multiplication_1();
        let to = mp.get_to();
        // Scale all ciphertexts
        let self_c = self.extend(mp.get_extender_self());
        let other_c = rhs.extend(mp.get_extender_self());
        let la = self_c.len();
        let lb = other_c.len();
        let ghost a = extended(self, mp.extender_self());
        let ghost b = extended(rhs, mp.extender_self());
        let ghost moduli = mp.to().moduli();
        let ghost n = self.par().spec_degree();
        // Multiply
        let mut c: Vec<Poly> = Vec::with_capacity(la + lb - 1);
        let mut l: usize = 0;
        while l < la + lb - 1
            invariant
                l <= la + lb - 1,
                la >= 1,
                lb >= 1,
                la + lb <= usize::MAX,
                to.wf(),
                **to == mp.to(),
                c@.len() == l,
                forall|x: int|
                    0 <= x < l ==> (#[trigger] c@[x]).wf() && c@[x].ctx() == mp.to()
                        && c@[x].representation() == Representation::Ntt && c@[x].rows()
                        == rows_zero(mp.to().moduli().len(), mp.to().degree()),
            decreases la + lb - 1 - l,
        {
            c.push(Poly::zero(to, Representation::Ntt));
            l += 1;
        }
        proof {
            assert(mp.to().degree() == n);
            assert forall|x: int| 0 <= x < c@.len() implies (#[trigger] c@[x]).rows() == tensor(
                a,
                b,
                moduli,
                n,
                0,
            )[x] by {}
        }
        let mut i: usize = 0;
        while i < la
            invariant
                i <= la,
                la >= 1,
                lb >= 1,
                la + lb <= usize::MAX,
                la == self_c@.len(),
                lb == other_c@.len(),
                la == a.len(),
                lb == b.len(),
                c@.len() == la + lb - 1,
                mp.wf(),
                moduli == mp.to().moduli(),
                n == mp.to().degree(),
                forall|x: int|
                    0 <= x < la ==> (#[trigger] self_c@[x]).wf() && self_c@[x].ctx() == mp.to()
                        && self_c@[x].representation() == Representation::Ntt && self_c@[x].rows()
                        == a[x],
                forall|x: int|
                    0 <= x < lb ==> (#[trigger] other_c@[x]).wf() && other_c@[x].ctx() == mp.to()
                        && other_c@[x].representation() == Representation::Ntt
                        && other_c@[x].rows() == b[x],
                forall|x: int|
                    0 <= x < c@.len() ==> (#[trigger] c@[x]).wf() && c@[x].ctx() == mp.to()
                        && c@[x].representation() == Representation::Ntt && c@[x].rows()
                        == tensor(a, b, moduli, n, (i * lb) as nat)[x],
            decreases la - i,
        {
            let mut j: usize = 0;
            while j < lb
                invariant
                    i < la,
                    j <= lb,
                    la >= 1,
                    lb >= 1,
                    la + lb <= usize::MAX,
                    la == self_c@.len(),
                    lb == other_c@.len(),
                    la == a.len(),
                    lb == b.len(),
                    c@.len() == la + lb - 1,
                    mp.wf(),
                    moduli == mp.to().moduli(),
                    n == mp.to().degree(),
                    forall|x: int|
                        0 <= x < la ==> (#[trigger] self_c@[x]).wf() && self_c@[x].ctx() == mp.to()
                            && self_c@[x].representation() == Representation::Ntt
                            && self_c@[x].rows() == a[x],
                    forall|x: int|
                        0 <= x < lb ==> (#[trigger] other_c@[x]).wf() && other_c@[x].ctx()
                            == mp.to() && other_c@[x].representation() == Representation::Ntt
                            && other_c@[x].rows() == b[x],
                    forall|x: int|
                        0 <= x < c@.len() ==> (#[trigger] c@[x]).wf() && c@[x].ctx() == mp.to()
                            && c@[x].representation() == Representation::Ntt && c@[x].rows()
                            == tensor(a, b, moduli, n, (i * lb + j) as nat)[x],
                decreases lb - j,
            {
                let ghost steps = (i * lb + j) as nat;
                let ghost before = tensor(a, b, moduli, n, steps);
                proof {
                    vstd::arithmetic::div_mod::lemma_fundamental_div_mod_converse(
                        steps as int,
                        lb as int,
                        i as int,
                        j as int,
                    );
                    assert(steps + 1 <= la * lb) by (nonlinear_arith)
                        requires
                            steps == i * lb + j,
                            i < la,
                            j < lb,
                    ;
                    assert(before.len() == la + lb - 1) by {
                        lemma_tensor_len(a, b, moduli, n, steps);
                    }
                }
                let term = self_c[i].mul(&other_c[j]);
                c[i + j].add_assign(&term);
                proof {
                    assert forall|x: int| 0 <= x < c@.len() implies (#[trigger] c@[x]).rows()
                        == tensor(a, b, moduli, n, steps + 1)[x] by {}
                    assert(i * lb + (j + 1) == steps + 1);
                }
                j += 1;
            }
            proof {
                assert((i + 1) * lb == i * lb + lb) by (nonlinear_arith);
            }
            i += 1;
        }
        // Scale
        let down = mp.get_down_scaler();
        let total = c.len();
        let ghost t = tensor(a, b, moduli, n, (la * lb) as nat);
        let mut out: Vec<Poly> = Vec::with_capacity(total);
        let mut l: usize = 0;
        while l < total
            invariant
                l <= total,
                total == c@.len(),
                self.wf(),
                mp.wf(),
                *down == mp.down_scaler(),
                *mp == self.par().mul_1_params(),
                mp.from() == self.par().ctx(),
                forall|x: int|
                    0 <= x < c@.len() ==> (#[trigger] c@[x]).wf() && c@[x].ctx() == mp.to()
                        && c@[x].representation() == Representation::Ntt && c@[x].rows() == t[x],
                out@.len() == l,
                forall|x: int|
                    0 <= x < l ==> (#[trigger] out@[x]).wf() && out@[x].ctx() == self.par().ctx()
                        && out@[x].representation() == Representation::Ntt && out@[x].rows()
                        == converted(
                        self.par().ctx(),
                        Representation::PowerBasis,
                        Representation::Ntt,
                        scaled_from_ntt(t[x], mp.down_scaler()),
                    ),
            decreases total - l,
        {
            out.push(scale_ntt(down, &c[l]));
            l += 1;
        }
        Ok(Ciphertext { par: share(&self.par), seed: None, c: out, minimized: false })
    }
}

/// The product has one polynomial less than the two operands together.
pub proof fn lemma_tensor_len(
    a: Seq<Seq<Seq<u64>>>,
    b: Seq<Seq<Seq<u64>>>,
    moduli: Seq<u64>,
    n: nat,
    steps: nat,
)
    requires
        a.len() >= 1,
        b.len() >= 1,
        steps <= a.len() * b.len(),
    ensures
        tensor(a, b, moduli, n, steps).len() == a.len() + b.len() - 1,
    decreases steps,
{
    if steps > 0 {
        lemma_tensor_len(a, b, moduli, n, (steps - 1) as nat);
        let i = (steps - 1) / (b.len() as int);
        let j = (steps - 1) % (b.len() as int);
        vstd::arithmetic::div_mod::lemma_fundamental_div_mod(steps - 1, b.len() as int);
        vstd::arithmetic::div_mod::lemma_mod_bound(steps - 1, b.len() as int);
        assert(0 <= i < a.len()) by (nonlinear_arith)
            requires
                steps - 1 == b.len() * i + j,
                0 <= j < b.len(),
                0 <= steps - 1 < a.len() * b.len(),
        ;
    }
}

impl Ciphertext {
    /// Whether two ciphertexts hold the same polynomials, the same seed and
    /// the same flag under the same parameters.
    pub open spec fn same(&self, other: &Ciphertext) -> bool {
        &&& self.par().same(&other.par())
        &&& self.minimized() == other.minimized()
        &&& self.seed().is_some() == other.seed().is_some()
        &&& self.seed().is_some() ==> self.seed()->Some_0@ == other.seed()->Some_0@
        &&& self.polys().len() == other.polys().len()
        &&& forall|i: int|
            0 <= i < self.polys().len() ==> (#[trigger] self.polys()[i]).rows()
                == other.polys()[i].rows()
    }

    /// Whether two ciphertexts hold the same polynomials, the same seed and
    /// the same flag under the same parameters.
    pub fn equals(&self, other: &Ciphertext) -> (r: bool)
        requires
            self.wf(),
            other.wf(),
        ensures
            r == self.same(other),
    {
        if !self.par.equals(&other.par) || self.minimized != other.minimized || self.c.len()
            != other.c.len() {
            return false;
        }
        let seeds_agree = match (&self.seed, &other.seed) {
            (Some(a), Some(b)) => same_seed(a, b),
            (None, None) => true,
            _ => false,
        };
        if !seeds_agree {
            return false;
        }
        let k = self.c.len();
        let mut i: usize = 0;
        while i < k
            invariant
                self.wf(),
                other.wf(),
                self.par().same(&other.par()),
                self.minimized() == other.minimized(),
                i <= k,
                k == self.c@.len(),
                k == other.c@.len(),
                forall|l: int| 0 <= l < i ==> (#[trigger] self.c@[l]).rows() == other.c@[l].rows(),
            decreases k - i,
        {
            proof {
                assert(self.polys()[i as int].wf());
                assert(other.polys()[i as int].wf());
            }
            if !self.c[i].equals(&other.c[i]) {
                return false;
            }
            i += 1;
        }
        true
    }
}

/// Whether two seeds hold the same bytes.
pub fn same_seed(a: &Seed, b: &Seed) -> (r: bool)
    ensures
        r == (a@ == b@),
{
    let mut i: usize = 0;
    while i < 32
        invariant
            i <= 32,
            forall|j: int| 0 <= j < i ==> a@[j] == b@[j],
        decreases 32 - i,
    {
        if a[i] != b[i] {
            return false;
        }
        i += 1;
    }
    proof {
        assert(a@ =~= b@);
    }
    true
}

/// Every operation on a minimized ciphertext fails: the sum and the
/// difference with any ciphertext on either side, the product with any
/// plaintext, and the product with any ciphertext on either side, with or
/// without relinearization.
pub proof fn lemma_minimized_is_refused(
    ct: &Ciphertext,
    other: &Ciphertext,
    pt: &Plaintext,
    ek: &EvaluationKey,
)
    requires
        ct.minimized(),
    ensures
        ct.combine_error(other).is_some(),
        other.combine_error(ct).is_some(),
        ct.scale_error(pt).is_some(),
        tensor_error(ct, other).is_some(),
        tensor_error(other, ct).is_some(),
        mul_error(ct, other, ek).is_some(),
        mul_error(other, ct, ek).is_some(),
{
}

} // verus!
