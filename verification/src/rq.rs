//! Polynomials modulo `x^n + 1` over a residue number system.
//!
//! A [`Context`] fixes the degree `n` and the list of moduli; a [`Poly`] holds
//! one row of `n` residues per modulus, tagged with the representation the
//! rows are in. Operations on two polynomials ask that they are over the
//! same moduli and degree.

use crate::arith::shoup_ratio;
use crate::bigint::BigNat;
use crate::errors::Error;
use crate::random::{chacha8_seeds, chacha8_uniform, chacha8_words, sample_seeds, sample_words, Seed};
use crate::ntt::{has_transform, negacyclic_product, pointwise_product, shoup_of, NttOperator};
use crate::rns::{all_in_range, pairwise_coprime, RnsContext};
use crate::zq::{reduced, Modulus};
use std::sync::Arc;
use vstd::arithmetic::power2::{is_pow2, pow2};
use vstd::prelude::*;

verus! {

/// `Arc::clone`: another handle to the same value.
#[verifier::external_body]
pub(crate) fn share<T>(a: &Arc<T>) -> (r: Arc<T>)
    ensures
        r == *a,
{
    a.clone()
}

/// Whether `n` is a power of two.
pub fn is_power_of_two(n: usize) -> (r: bool)
    ensures
        r == is_pow2(n as int),
{
    let mut m = n;
    proof {
        reveal(is_pow2);
    }
    if m == 0 {
        return false;
    }
    while m % 2 == 0
        invariant
            m >= 1,
            is_pow2(m as int) == is_pow2(n as int),
        decreases m,
    {
        proof {
            reveal(is_pow2);
        }
        m = m / 2;
    }
    proof {
        reveal(is_pow2);
    }
    m == 1
}

/// Whether a transform of size `n` can be built modulo each of the moduli.
pub open spec fn all_support_ntt(moduli: Seq<u64>, n: nat) -> bool {
    forall|i: int| 0 <= i < moduli.len() ==> has_transform(#[trigger] moduli[i], n)
}

/// Whether a context exists for the moduli and the degree.
pub open spec fn valid_context(moduli: Seq<u64>, degree: nat) -> bool {
    &&& is_pow2(degree as int)
    &&& 8 <= degree < 0x4000_0000
    &&& moduli.len() > 0
    &&& all_in_range(moduli)
    &&& pairwise_coprime(moduli)
    &&& all_support_ntt(moduli, degree)
}

/// The description of the reason for which no context exists for the moduli
/// and the degree.
pub open spec fn context_error_text(moduli: Seq<u64>, degree: nat) -> Seq<char> {
    if !(is_pow2(degree as int) && degree >= 8) {
        "The degree is not a power of two larger or equal to 8"@
    } else if moduli.len() == 0 {
        "The list of moduli is empty"@
    } else if !all_in_range(moduli) {
        crate::errors::invalid_modulus_text()
    } else if !pairwise_coprime(moduli) {
        "The moduli are not coprime"@
    } else {
        "Impossible to construct a Ntt operator"@
    }
}

/// The moduli and the degree of a polynomial ring, with what the arithmetic
/// in it needs.
#[derive(Clone, Debug)]
pub struct Context {
    moduli: Vec<u64>,
    q: Vec<Modulus>,
    rns: RnsContext,
    ops: Vec<NttOperator>,
    degree: usize,
}

impl Context {
    /// The moduli.
    pub closed spec fn moduli(&self) -> Seq<u64> {
        self.moduli@
    }

    /// The degree.
    pub closed spec fn degree(&self) -> nat {
        self.degree as nat
    }

    /// The transforms, one per modulus.
    pub closed spec fn ops(&self) -> Seq<NttOperator> {
        self.ops@
    }

    /// The residue number system of the moduli.
    pub closed spec fn rns(&self) -> RnsContext {
        self.rns
    }

    /// The tables agree with the moduli.
    pub closed spec fn tables_ok(&self) -> bool {
        &&& self.q@.len() == self.moduli@.len()
        &&& forall|i: int|
            0 <= i < self.q@.len() ==> (#[trigger] self.q@[i]).wf() && self.q@[i].spec_modulus()
                == self.moduli@[i]
    }

    /// Well-formedness: the degree is a power of two that is at least 8, and
    /// there is a transform of that size for every modulus.
    pub open spec fn wf(&self) -> bool {
        &&& is_pow2(self.degree() as int)
        &&& 8 <= self.degree() < 0x4000_0000
        &&& self.moduli().len() > 0
        &&& all_in_range(self.moduli())
        &&& self.rns().wf()
        &&& self.rns().moduli() == self.moduli()
        &&& self.ops().len() == self.moduli().len()
        &&& forall|i: int|
            0 <= i < self.moduli().len() ==> (#[trigger] self.ops()[i]).wf()
                && self.ops()[i].modulus() == self.moduli()[i] && self.ops()[i].size()
                == self.degree()
        &&& self.tables_ok()
    }

    /// Whether every transform of the context uses the reference tables.
    pub fn uses_reference_tables(&self) -> (r: bool)
        requires
            self.wf(),
        ensures
            r == (forall|i: int|
                0 <= i < self.ops().len() ==> !(#[trigger] self.ops()[i]).accelerated()),
    {
        let mut i: usize = 0;
        while i < self.ops.len()
            invariant
                i <= self.ops@.len(),
                forall|l: int| 0 <= l < i ==> !(#[trigger] self.ops@[l]).accelerated(),
            decreases self.ops@.len() - i,
        {
            if self.ops[i].is_accelerated() {
                assert(self.ops()[i as int].accelerated());
                return false;
            }
            i += 1;
        }
        true
    }

    /// Whether two contexts are over the same moduli and degree.
    pub open spec fn same(&self, other: &Context) -> bool {
        self.moduli() == other.moduli() && self.degree() == other.degree()
    }

    /// The context of the moduli and the degree. Fails where the degree is
    /// not a power of two that is at least 8, where the moduli do not form a
    /// residue number system, or where one of them has no transform of that
    /// size.
    pub fn new(moduli: &[u64], degree: usize) -> (r: Result<Context, Error>)
        requires
            degree < 0x4000_0000,
        ensures
            r.is_ok() <==> valid_context(moduli@, degree as nat),
            r matches Ok(ctx) ==> ctx.wf() && ctx.moduli() == moduli@ && ctx.degree() == degree,
            r matches Ok(ctx) ==> (degree < 16 ==> forall|i: int|
                0 <= i < ctx.ops().len() ==> !(#[trigger] ctx.ops()[i]).accelerated()),
            r matches Err(e) ==> e.text() == context_error_text(moduli@, degree as nat),
    {
        if !is_power_of_two(degree) || degree < 8 {
            return Err(Error::other("The degree is not a power of two larger or equal to 8"));
        }
        let rns = match RnsContext::new(moduli) {
            Err(e) => {
                return Err(e);
            },
            Ok(rns) => rns,
        };
        let k = moduli.len();
        let mut q: Vec<Modulus> = Vec::with_capacity(k);
        let mut ops: Vec<NttOperator> = Vec::with_capacity(k);
        let mut own: Vec<u64> = Vec::with_capacity(k);
        let mut i: usize = 0;
        while i < k
            invariant
                i <= k,
                k == moduli@.len(),
                is_pow2(degree as int),
                8 <= degree < 0x4000_0000,
                all_in_range(moduli@),
                q@.len() == i,
                ops@.len() == i,
                own@ == moduli@.subrange(0, i as int),
                forall|j: int|
                    0 <= j < i ==> (#[trigger] q@[j]).wf() && q@[j].spec_modulus() == moduli@[j],
                forall|j: int|
                    0 <= j < i ==> (#[trigger] ops@[j]).wf() && ops@[j].modulus() == moduli@[j]
                        && ops@[j].size() == degree,
                forall|j: int| 0 <= j < i ==> has_transform(#[trigger] moduli@[j], degree as nat),
                moduli@.len() > 0,
                pairwise_coprime(moduli@),
            decreases k - i,
        {
            let qi = match Modulus::new(moduli[i]) {
                Err(e) => {
                    return Err(e);
                },
                Ok(qi) => qi,
            };
            match NttOperator::new(&qi, degree) {
                None => {
                    return Err(Error::other("Impossible to construct a Ntt operator"));
                },
                Some(op) => {
                    q.push(qi);
                    ops.push(op);
                    own.push(moduli[i]);
                },
            }
            i += 1;
        }
        proof {
            assert(own@ =~= moduli@);
        }
        let ctx = Context { moduli: own, q, rns, ops, degree };
        proof {
            if degree < 16 {
                lemma_small_degrees(ctx);
            }
        }
        Ok(ctx)
    }

    /// The moduli of the context.
    pub fn moduli_u64(&self) -> (r: &Vec<u64>)
        ensures
            r@ == self.moduli(),
    {
        &self.moduli
    }

    /// The degree of the context.
    pub fn ring_degree(&self) -> (r: usize)
        ensures
            r == self.degree(),
    {
        self.degree
    }

    /// The residue number system of the moduli.
    pub fn rns_context(&self) -> (r: &RnsContext)
        ensures
            *r == self.rns(),
    {
        &self.rns
    }

    /// Whether two contexts are over the same moduli and degree.
    pub fn equals(&self, other: &Context) -> (r: bool)
        requires
            self.wf(),
            other.wf(),
        ensures
            r == self.same(other),
    {
        if self.degree != other.degree || self.moduli.len() != other.moduli.len() {
            return false;
        }
        let k = self.moduli.len();
        let mut i: usize = 0;
        while i < k
            invariant
                i <= k,
                k == self.moduli@.len(),
                k == other.moduli@.len(),
                forall|j: int| 0 <= j < i ==> self.moduli@[j] == other.moduli@[j],
            decreases k - i,
        {
            if self.moduli[i] != other.moduli[i] {
                return false;
            }
            i += 1;
        }
        assert(self.moduli@ =~= other.moduli@);
        true
    }
}

/// The representations of a polynomial.
#[derive(Clone, Copy, Debug, PartialEq, Eq, Structural)]
pub enum Representation {
    /// The coefficients of the powers of `x`.
    PowerBasis,
    /// The values of the forward transform.
    Ntt,
    /// The values of the forward transform, with their Shoup constants.
    NttShoup,
}

/// The operations that combine two rows element by element.
#[derive(Clone, Copy, Debug, PartialEq, Eq, Structural)]
pub enum Operation {
    /// Addition.
    Add,
    /// Subtraction.
    Sub,
    /// Multiplication.
    Mul,
}

/// The integer that `op` makes of `x` and `y`, before the reduction.
pub open spec fn op_value(op: Operation, x: int, y: int) -> int {
    match op {
        Operation::Add => x + y,
        Operation::Sub => x - y,
        Operation::Mul => x * y,
    }
}

/// The rows that `op` makes of the rows `a` and `b`, element by element and
/// modulo the modulus of each row.
pub open spec fn rows_combine(
    op: Operation,
    a: Seq<Seq<u64>>,
    b: Seq<Seq<u64>>,
    moduli: Seq<u64>,
) -> Seq<Seq<u64>> {
    Seq::new(
        a.len(),
        |i: int|
            Seq::new(
                a[i].len(),
                |j: int| (op_value(op, a[i][j] as int, b[i][j] as int) % (moduli[i] as int)) as u64,
            ),
    )
}

/// The rows of `a` negated modulo the modulus of each row.
pub open spec fn rows_neg(a: Seq<Seq<u64>>, moduli: Seq<u64>) -> Seq<Seq<u64>> {
    Seq::new(
        a.len(),
        |i: int| Seq::new(a[i].len(), |j: int| ((-(a[i][j] as int)) % (moduli[i] as int)) as u64),
    )
}

/// The rows with `n` zeros each, one per modulus.
pub open spec fn rows_zero(k: nat, n: nat) -> Seq<Seq<u64>> {
    Seq::new(k, |i: int| Seq::new(n, |j: int| 0u64))
}

/// Whether there is one row of `n` reduced residues for every modulus.
pub open spec fn rows_in(rows: Seq<Seq<u64>>, moduli: Seq<u64>, n: nat) -> bool {
    &&& rows.len() == moduli.len()
    &&& forall|i: int|
        0 <= i < rows.len() ==> (#[trigger] rows[i]).len() == n && reduced(rows[i], moduli[i])
}

/// The rows that a vector of vectors holds.
pub open spec fn rows_of(v: Seq<Vec<u64>>) -> Seq<Seq<u64>> {
    Seq::new(v.len(), |i: int| v[i]@)
}

/// Combines the rows of `a` with those of `b`, in place.
fn combine_rows(
    op: Operation,
    q: &Vec<Modulus>,
    a: &mut Vec<Vec<u64>>,
    b: &Vec<Vec<u64>>,
    vt: bool,
    Ghost(moduli): Ghost<Seq<u64>>,
    Ghost(n): Ghost<nat>,
)
    requires
        q@.len() == moduli.len(),
        forall|i: int|
            0 <= i < q@.len() ==> (#[trigger] q@[i]).wf() && q@[i].spec_modulus() == moduli[i],
        rows_in(rows_of(old(a)@), moduli, n),
        rows_in(rows_of(b@), moduli, n),
    ensures
        rows_of(final(a)@) == rows_combine(op, rows_of(old(a)@), rows_of(b@), moduli),
        rows_in(rows_of(final(a)@), moduli, n),
{
    let k = q.len();
    let ghost a0 = rows_of(a@);
    let ghost b0 = rows_of(b@);
    let mut i: usize = 0;
    proof {
        assert(rows_of(a@).len() == k);
        assert(rows_of(b@).len() == k);
    }
    while i < k
        invariant
            i <= k,
            k == q@.len(),
            k == moduli.len(),
            a@.len() == k,
            b@.len() == k,
            a0 == rows_of(old(a)@),
            b0 == rows_of(b@),
            forall|l: int|
                0 <= l < q@.len() ==> (#[trigger] q@[l]).wf() && q@[l].spec_modulus() == moduli[l],
            rows_in(a0, moduli, n),
            rows_in(b0, moduli, n),
            forall|l: int| i <= l < k ==> (#[trigger] a@[l])@ == a0[l],
            forall|l: int|
                0 <= l < i ==> (#[trigger] a@[l])@ == rows_combine(op, a0, b0, moduli)[l]
                    && reduced(a@[l]@, moduli[l]),
        decreases k - i,
    {
        let ghost p = moduli[i as int];
        proof {
            assert(a0[i as int].len() == n && reduced(a0[i as int], p));
            assert(b0[i as int].len() == n && reduced(b0[i as int], p));
            assert(b@[i as int]@ == b0[i as int]);
        }
        match op {
            Operation::Add => {
                if vt {
                    q[i].add_vec_vt(a[i].as_mut_slice(), b[i].as_slice());
                } else {
                    q[i].add_vec(a[i].as_mut_slice(), b[i].as_slice());
                }
            },
            Operation::Sub => {
                if vt {
                    q[i].sub_vec_vt(a[i].as_mut_slice(), b[i].as_slice());
                } else {
                    q[i].sub_vec(a[i].as_mut_slice(), b[i].as_slice());
                }
            },
            Operation::Mul => {
                if vt {
                    q[i].mul_vec_vt(a[i].as_mut_slice(), b[i].as_slice());
                } else {
                    q[i].mul_vec(a[i].as_mut_slice(), b[i].as_slice());
                }
            },
        }
        proof {
            let row = a@[i as int]@;
            let want = rows_combine(op, a0, b0, moduli)[i as int];
            assert forall|j: int| 0 <= j < row.len() implies row[j] == want[j] && row[j] < p by {
                let x = a0[i as int][j] as int;
                let y = b0[i as int][j] as int;
                vstd::arithmetic::div_mod::lemma_mod_bound(op_value(op, x, y), p as int);
                assert(row[j] as int == op_value(op, x, y) % (p as int));
            }
            assert(row =~= want);
        }
        i += 1;
    }
    proof {
        assert(rows_of(a@) =~= rows_combine(op, a0, b0, moduli));
    }
}

/// A polynomial modulo `x^n + 1` and every modulus of its context.
#[derive(Clone, Debug)]
pub struct Poly {
    ctx: Arc<Context>,
    representation: Representation,
    allow_variable_time: bool,
    coefficients: Vec<Vec<u64>>,
    coefficients_shoup: Option<Vec<Vec<u64>>>,
}

impl Poly {
    /// The context.
    pub closed spec fn ctx(&self) -> Context {
        *self.ctx
    }

    /// The representation that the rows are in.
    pub closed spec fn representation(&self) -> Representation {
        self.representation
    }

    /// Whether the operations on this polynomial may run in variable time.
    pub closed spec fn variable_time(&self) -> bool {
        self.allow_variable_time
    }

    /// The rows, one per modulus.
    pub closed spec fn rows(&self) -> Seq<Seq<u64>> {
        rows_of(self.coefficients@)
    }

    /// The Shoup constants are there exactly in the representation that has
    /// them, and belong to the rows.
    pub closed spec fn shoup_ok(&self) -> bool {
        &&& self.coefficients_shoup.is_some() <==> self.representation == Representation::NttShoup
        &&& self.coefficients_shoup matches Some(sh) ==> {
            &&& sh@.len() == self.coefficients@.len()
            &&& forall|i: int|
                0 <= i < sh@.len() ==> shoup_of(
                    (#[trigger] sh@[i])@,
                    self.coefficients@[i]@,
                    self.ctx.moduli@[i],
                )
        }
    }

    /// Well-formedness: one row of reduced residues per modulus.
    pub open spec fn wf(&self) -> bool {
        &&& self.ctx().wf()
        &&& rows_in(self.rows(), self.ctx().moduli(), self.ctx().degree())
        &&& self.shoup_ok()
    }

    /// The context of the polynomial.
    pub fn context(&self) -> (r: &Arc<Context>)
        ensures
            **r == self.ctx(),
    {
        &self.ctx
    }

    /// The representation of the polynomial.
    pub fn get_representation(&self) -> (r: Representation)
        ensures
            r == self.representation(),
    {
        self.representation
    }

    /// The rows of the polynomial.
    pub fn coefficients(&self) -> (r: &Vec<Vec<u64>>)
        ensures
            rows_of(r@) == self.rows(),
    {
        &self.coefficients
    }

    /// Lets the operations on this polynomial run in variable time. The
    /// caller vouches that its value does not depend on a secret.
    pub fn allow_variable_time_computations(&mut self)
        ensures
            final(self).variable_time(),
            final(self).ctx() == old(self).ctx(),
            final(self).rows() == old(self).rows(),
            final(self).representation() == old(self).representation(),
            old(self).wf() ==> final(self).wf(),
    {
        self.allow_variable_time = true;
    }

    /// Makes the operations on this polynomial run in constant time again.
    pub fn disallow_variable_time_computations(&mut self)
        ensures
            !final(self).variable_time(),
            final(self).ctx() == old(self).ctx(),
            final(self).rows() == old(self).rows(),
            final(self).representation() == old(self).representation(),
            old(self).wf() ==> final(self).wf(),
    {
        self.allow_variable_time = false;
    }

    /// The rows of Shoup constants of `rows`.
    fn shoup_rows(ctx: &Context, rows: &Vec<Vec<u64>>) -> (r: Vec<Vec<u64>>)
        requires
            ctx.wf(),
            rows_in(rows_of(rows@), ctx.moduli(), ctx.degree()),
        ensures
            r@.len() == rows@.len(),
            forall|i: int|
                0 <= i < r@.len() ==> shoup_of((#[trigger] r@[i])@, rows@[i]@, ctx.moduli@[i]),
    {
        let k = rows.len();
        let mut r: Vec<Vec<u64>> = Vec::with_capacity(k);
        let mut i: usize = 0;
        proof {
            assert(rows_of(rows@).len() == k);
        }
        while i < k
            invariant
                ctx.wf(),
                i <= k,
                k == rows@.len(),
                k == ctx.q@.len(),
                rows_in(rows_of(rows@), ctx.moduli(), ctx.degree()),
                r@.len() == i,
                forall|l: int|
                    0 <= l < i ==> shoup_of((#[trigger] r@[l])@, rows@[l]@, ctx.moduli@[l]),
            decreases k - i,
        {
            proof {
                assert(rows_of(rows@)[i as int] == rows@[i as int]@);
                assert(ctx.q@[i as int].wf());
            }
            r.push(ctx.q[i].shoup_vec(rows[i].as_slice()));
            i += 1;
        }
        r
    }

    /// The zero polynomial.
    pub fn zero(ctx: &Arc<Context>, representation: Representation) -> (r: Poly)
        requires
            ctx.wf(),
        ensures
            r.wf(),
            r.ctx() == **ctx,
            r.representation() == representation,
            !r.variable_time(),
            r.rows() == rows_zero(ctx.moduli().len(), ctx.degree()),
    {
        let k = ctx.moduli.len();
        let n = ctx.degree;
        let mut rows: Vec<Vec<u64>> = Vec::with_capacity(k);
        let mut i: usize = 0;
        while i < k
            invariant
                ctx.wf(),
                i <= k,
                k == ctx.moduli@.len(),
                n == ctx.degree,
                rows@.len() == i,
                forall|l: int|
                    0 <= l < i ==> (#[trigger] rows@[l])@ == Seq::new(n as nat, |j: int| 0u64),
            decreases k - i,
        {
            let row: Vec<u64> = vec![0u64; n];
            proof {
                assert(row@ =~= Seq::new(n as nat, |j: int| 0u64));
            }
            rows.push(row);
            i += 1;
        }
        proof {
            assert(rows_of(rows@) =~= rows_zero(k as nat, n as nat));
            assert(rows_in(rows_of(rows@), ctx.moduli(), ctx.degree())) by {
                assert forall|l: int| 0 <= l < k implies (#[trigger] rows_of(rows@)[l]).len() == n
                    && reduced(rows_of(rows@)[l], ctx.moduli()[l]) by {
                    assert(2 <= ctx.moduli()[l]);
                }
            }
        }
        let coefficients_shoup = match representation {
            Representation::NttShoup => Some(Poly::shoup_rows(ctx, &rows)),
            _ => None,
        };
        Poly {
            ctx: share(ctx),
            representation,
            allow_variable_time: false,
            coefficients: rows,
            coefficients_shoup,
        }
    }

    /// Adds `rhs` to the polynomial.
    pub fn add_assign(&mut self, rhs: &Poly)
        requires
            old(self).wf(),
            rhs.wf(),
            old(self).ctx().same(&rhs.ctx()),
            old(self).representation() != Representation::NttShoup,
            old(self).representation() == rhs.representation(),
        ensures
            final(self).wf(),
            final(self).ctx() == old(self).ctx(),
            final(self).representation() == old(self).representation(),
            final(self).variable_time() == old(self).variable_time(),
            final(self).rows() == rows_combine(
                Operation::Add,
                old(self).rows(),
                rhs.rows(),
                old(self).ctx().moduli(),
            ),
    {
        combine_rows(
            Operation::Add,
            &self.ctx.q,
            &mut self.coefficients,
            &rhs.coefficients,
            self.allow_variable_time,
            Ghost(self.ctx.moduli@),
            Ghost(self.ctx.degree as nat),
        );
    }

    /// Subtracts `rhs` from the polynomial.
    pub fn sub_assign(&mut self, rhs: &Poly)
        requires
            old(self).wf(),
            rhs.wf(),
            old(self).ctx().same(&rhs.ctx()),
            old(self).representation() != Representation::NttShoup,
            old(self).representation() == rhs.representation(),
        ensures
            final(self).wf(),
            final(self).ctx() == old(self).ctx(),
            final(self).representation() == old(self).representation(),
            final(self).variable_time() == old(self).variable_time(),
            final(self).rows() == rows_combine(
                Operation::Sub,
                old(self).rows(),
                rhs.rows(),
                old(self).ctx().moduli(),
            ),
    {
        combine_rows(
            Operation::Sub,
            &self.ctx.q,
            &mut self.coefficients,
            &rhs.coefficients,
            self.allow_variable_time,
            Ghost(self.ctx.moduli@),
            Ghost(self.ctx.degree as nat),
        );
    }

    /// Multiplies the polynomial, which is in the transform domain, by
    /// `rhs`, which is in the transform domain with or without Shoup
    /// constants.
    pub fn mul_assign(&mut self, rhs: &Poly)
        requires
            old(self).wf(),
            rhs.wf(),
            old(self).ctx().same(&rhs.ctx()),
            old(self).representation() == Representation::Ntt,
            rhs.representation() != Representation::PowerBasis,
        ensures
            final(self).wf(),
            final(self).ctx() == old(self).ctx(),
            final(self).representation() == Representation::Ntt,
            final(self).variable_time() == old(self).variable_time(),
            final(self).rows() == rows_combine(
                Operation::Mul,
                old(self).rows(),
                rhs.rows(),
                old(self).ctx().moduli(),
            ),
    {
        match &rhs.coefficients_shoup {
            Some(shoup) => {
                multiply_rows_shoup(
                    &self.ctx.q,
                    &mut self.coefficients,
                    &rhs.coefficients,
                    shoup,
                    self.allow_variable_time,
                    Ghost(self.ctx.moduli@),
                    Ghost(self.ctx.degree as nat),
                );
            },
            None => {
                combine_rows(
                    Operation::Mul,
                    &self.ctx.q,
                    &mut self.coefficients,
                    &rhs.coefficients,
                    self.allow_variable_time,
                    Ghost(self.ctx.moduli@),
                    Ghost(self.ctx.degree as nat),
                );
            },
        }
    }
}

/// Multiplies the rows of `a` by those of `b`, in place, with the Shoup
/// constants of `b`.
fn multiply_rows_shoup(
    q: &Vec<Modulus>,
    a: &mut Vec<Vec<u64>>,
    b: &Vec<Vec<u64>>,
    b_shoup: &Vec<Vec<u64>>,
    vt: bool,
    Ghost(moduli): Ghost<Seq<u64>>,
    Ghost(n): Ghost<nat>,
)
    requires
        q@.len() == moduli.len(),
        forall|i: int|
            0 <= i < q@.len() ==> (#[trigger] q@[i]).wf() && q@[i].spec_modulus() == moduli[i],
        rows_in(rows_of(old(a)@), moduli, n),
        rows_in(rows_of(b@), moduli, n),
        b_shoup@.len() == b@.len(),
        forall|i: int| 0 <= i < b@.len() ==> shoup_of((#[trigger] b_shoup@[i])@, b@[i]@, moduli[i]),
    ensures
        rows_of(final(a)@) == rows_combine(Operation::Mul, rows_of(old(a)@), rows_of(b@), moduli),
        rows_in(rows_of(final(a)@), moduli, n),
{
    let k = q.len();
    let ghost a0 = rows_of(a@);
    let ghost b0 = rows_of(b@);
    let mut i: usize = 0;
    proof {
        assert(rows_of(a@).len() == k);
        assert(rows_of(b@).len() == k);
    }
    while i < k
        invariant
            i <= k,
            k == q@.len(),
            k == moduli.len(),
            a@.len() == k,
            b@.len() == k,
            b_shoup@.len() == k,
            a0 == rows_of(old(a)@),
            b0 == rows_of(b@),
            forall|l: int|
                0 <= l < q@.len() ==> (#[trigger] q@[l]).wf() && q@[l].spec_modulus() == moduli[l],
            forall|l: int|
                0 <= l < b@.len() ==> shoup_of((#[trigger] b_shoup@[l])@, b@[l]@, moduli[l]),
            rows_in(a0, moduli, n),
            rows_in(b0, moduli, n),
            forall|l: int| i <= l < k ==> (#[trigger] a@[l])@ == a0[l],
            forall|l: int|
                0 <= l < i ==> (#[trigger] a@[l])@ == rows_combine(Operation::Mul, a0, b0, moduli)[l]
                    && reduced(a@[l]@, moduli[l]),
        decreases k - i,
    {
        let ghost p = moduli[i as int];
        proof {
            assert(a0[i as int].len() == n && reduced(a0[i as int], p));
            assert(b0[i as int].len() == n && reduced(b0[i as int], p));
            assert(b@[i as int]@ == b0[i as int]);
            assert(shoup_of(b_shoup@[i as int]@, b@[i as int]@, p));
        }
        if vt {
            q[i].mul_shoup_vec_vt(a[i].as_mut_slice(), b[i].as_slice(), b_shoup[i].as_slice());
        } else {
            q[i].mul_shoup_vec(a[i].as_mut_slice(), b[i].as_slice(), b_shoup[i].as_slice());
        }
        proof {
            let row = a@[i as int]@;
            let want = rows_combine(Operation::Mul, a0, b0, moduli)[i as int];
            assert forall|j: int| 0 <= j < row.len() implies row[j] == want[j] && row[j] < p by {
                let x = a0[i as int][j] as int;
                let y = b0[i as int][j] as int;
                vstd::arithmetic::div_mod::lemma_mod_bound(x * y, p as int);
                assert(row[j] as int == (x * y) % (p as int));
            }
            assert(row =~= want);
        }
        i += 1;
    }
    proof {
        assert(rows_of(a@) =~= rows_combine(Operation::Mul, a0, b0, moduli));
    }
}

/// A copy of the rows.
pub fn clone_rows(rows: &Vec<Vec<u64>>) -> (r: Vec<Vec<u64>>)
    ensures
        rows_of(r@) == rows_of(rows@),
{
    copy_rows(rows)
}

/// A copy of the rows.
fn copy_rows(rows: &Vec<Vec<u64>>) -> (r: Vec<Vec<u64>>)
    ensures
        r@.len() == rows@.len(),
        forall|i: int| 0 <= i < r@.len() ==> (#[trigger] r@[i])@ == rows@[i]@,
        rows_of(r@) == rows_of(rows@),
{
    let k = rows.len();
    let mut r: Vec<Vec<u64>> = Vec::with_capacity(k);
    let mut i: usize = 0;
    while i < k
        invariant
            i <= k,
            k == rows@.len(),
            r@.len() == i,
            forall|l: int| 0 <= l < i ==> (#[trigger] r@[l])@ == rows@[l]@,
        decreases k - i,
    {
        let row = rows[i].clone();
        proof {
            assert(row@ =~= rows@[i as int]@);
        }
        r.push(row);
        i += 1;
    }
    proof {
        assert(rows_of(r@) =~= rows_of(rows@));
    }
    r
}

/// The rows after a change of representation: the forward transform of each
/// row on the way into the transform domain, the backward transform on the
/// way out of it, and the same rows otherwise.
pub open spec fn converted(
    ctx: Context,
    from: Representation,
    to: Representation,
    rows: Seq<Seq<u64>>,
) -> Seq<Seq<u64>> {
    if (from == Representation::PowerBasis) == (to == Representation::PowerBasis) {
        rows
    } else if from == Representation::PowerBasis {
        Seq::new(rows.len(), |i: int| ctx.ops()[i].forward_spec(rows[i]))
    } else {
        Seq::new(rows.len(), |i: int| ctx.ops()[i].backward_spec(rows[i]))
    }
}

impl Poly {
    /// A copy of the polynomial.
    pub fn copy(&self) -> (r: Poly)
        requires
            self.wf(),
        ensures
            r.wf(),
            r.ctx() == self.ctx(),
            r.representation() == self.representation(),
            r.variable_time() == self.variable_time(),
            r.rows() == self.rows(),
    {
        let coefficients = copy_rows(&self.coefficients);
        let coefficients_shoup = match &self.coefficients_shoup {
            Some(sh) => Some(copy_rows(sh)),
            None => None,
        };
        Poly {
            ctx: share(&self.ctx),
            representation: self.representation,
            allow_variable_time: self.allow_variable_time,
            coefficients,
            coefficients_shoup,
        }
    }

    /// The negation of the polynomial.
    pub fn neg(&self) -> (r: Poly)
        requires
            self.wf(),
            self.representation() != Representation::NttShoup,
        ensures
            r.wf(),
            r.ctx() == self.ctx(),
            r.representation() == self.representation(),
            r.variable_time() == self.variable_time(),
            r.rows() == rows_neg(self.rows(), self.ctx().moduli()),
    {
        let k = self.coefficients.len();
        let mut rows = copy_rows(&self.coefficients);
        let ghost a0 = self.rows();
        let ghost moduli = self.ctx.moduli@;
        let mut i: usize = 0;
        proof {
            assert(a0.len() == k);
        }
        while i < k
            invariant
                self.wf(),
                i <= k,
                k == rows@.len(),
                k == self.ctx.q@.len(),
                a0 == self.rows(),
                moduli == self.ctx.moduli@,
                forall|l: int| i <= l < k ==> (#[trigger] rows@[l])@ == a0[l],
                forall|l: int|
                    0 <= l < i ==> (#[trigger] rows@[l])@ == rows_neg(a0, moduli)[l] && reduced(
                        rows@[l]@,
                        moduli[l],
                    ),
            decreases k - i,
        {
            proof {
                assert(a0[i as int].len() == self.ctx.degree && reduced(
                    a0[i as int],
                    moduli[i as int],
                ));
                assert(self.ctx.q@[i as int].wf());
            }
            if self.allow_variable_time {
                self.ctx.q[i].neg_vec_vt(rows[i].as_mut_slice());
            } else {
                self.ctx.q[i].neg_vec(rows[i].as_mut_slice());
            }
            proof {
                let row = rows@[i as int]@;
                let want = rows_neg(a0, moduli)[i as int];
                let p = moduli[i as int];
                assert forall|j: int| 0 <= j < row.len() implies row[j] == want[j] && row[j]
                    < p by {
                    vstd::arithmetic::div_mod::lemma_mod_bound(-(a0[i as int][j] as int), p as int);
                }
                assert(row =~= want);
            }
            i += 1;
        }
        proof {
            assert(rows_of(rows@) =~= rows_neg(a0, moduli));
        }
        Poly {
            ctx: share(&self.ctx),
            representation: self.representation,
            allow_variable_time: self.allow_variable_time,
            coefficients: rows,
            coefficients_shoup: None,
        }
    }

    /// The sum of two polynomials.
    pub fn add(&self, rhs: &Poly) -> (r: Poly)
        requires
            self.wf(),
            rhs.wf(),
            self.ctx().same(&rhs.ctx()),
            self.representation() != Representation::NttShoup,
            self.representation() == rhs.representation(),
        ensures
            r.wf(),
            r.ctx() == self.ctx(),
            r.representation() == self.representation(),
            r.variable_time() == self.variable_time(),
            r.rows() == rows_combine(Operation::Add, self.rows(), rhs.rows(), self.ctx().moduli()),
    {
        let mut r = self.copy();
        r.add_assign(rhs);
        r
    }

    /// The difference of two polynomials.
    pub fn sub(&self, rhs: &Poly) -> (r: Poly)
        requires
            self.wf(),
            rhs.wf(),
            self.ctx().same(&rhs.ctx()),
            self.representation() != Representation::NttShoup,
            self.representation() == rhs.representation(),
        ensures
            r.wf(),
            r.ctx() == self.ctx(),
            r.representation() == self.representation(),
            r.variable_time() == self.variable_time(),
            r.rows() == rows_combine(Operation::Sub, self.rows(), rhs.rows(), self.ctx().moduli()),
    {
        let mut r = self.copy();
        r.sub_assign(rhs);
        r
    }

    /// The product of two polynomials in the transform domain, either of
    /// which may carry Shoup constants; the product carries none.
    pub fn mul(&self, rhs: &Poly) -> (r: Poly)
        requires
            self.wf(),
            rhs.wf(),
            self.ctx().same(&rhs.ctx()),
            self.representation() != Representation::PowerBasis,
            rhs.representation() != Representation::PowerBasis,
        ensures
            r.wf(),
            r.ctx() == self.ctx(),
            r.representation() == Representation::Ntt,
            r.rows() == rows_combine(Operation::Mul, self.rows(), rhs.rows(), self.ctx().moduli()),
    {
        let mut r = Poly {
            ctx: share(&self.ctx),
            representation: Representation::Ntt,
            allow_variable_time: match self.representation {
                Representation::NttShoup => rhs.allow_variable_time,
                _ => self.allow_variable_time,
            },
            coefficients: copy_rows(&self.coefficients),
            coefficients_shoup: None,
        };
        r.mul_assign(rhs);
        r
    }

    /// Brings the polynomial into the representation `to`.
    pub fn change_representation(&mut self, to: Representation)
        requires
            old(self).wf(),
        ensures
            final(self).wf(),
            final(self).ctx() == old(self).ctx(),
            final(self).representation() == to,
            final(self).variable_time() == old(self).variable_time(),
            final(self).rows() == converted(
                old(self).ctx(),
                old(self).representation(),
                to,
                old(self).rows(),
            ),
    {
        let from = self.representation;
        let from_power = match from {
            Representation::PowerBasis => true,
            _ => false,
        };
        let to_power = match to {
            Representation::PowerBasis => true,
            _ => false,
        };
        let ghost a0 = self.rows();
        let ghost ctx = self.ctx();
        if from_power != to_power {
            let k = self.coefficients.len();
            let mut i: usize = 0;
            proof {
                assert(a0.len() == k);
            }
            while i < k
                invariant
                    i <= k,
                    ctx == self.ctx(),
                    ctx.wf(),
                    k == self.coefficients@.len(),
                    k == ctx.ops@.len(),
                    rows_in(a0, ctx.moduli(), ctx.degree()),
                    from_power != to_power,
                    self.representation == old(self).representation,
                    self.allow_variable_time == old(self).allow_variable_time,
                    self.coefficients_shoup == old(self).coefficients_shoup,
                    forall|l: int| i <= l < k ==> (#[trigger] self.coefficients@[l])@ == a0[l],
                    forall|l: int|
                        0 <= l < i ==> (#[trigger] self.coefficients@[l])@.len() == ctx.degree()
                            && reduced(self.coefficients@[l]@, ctx.moduli()[l]),
                    from_power ==> forall|l: int|
                        0 <= l < i ==> (#[trigger] self.coefficients@[l])@
                            == ctx.ops@[l].forward_spec(a0[l]),
                    !from_power ==> forall|l: int|
                        0 <= l < i ==> (#[trigger] self.coefficients@[l])@
                            == ctx.ops@[l].backward_spec(a0[l]),
                decreases k - i,
            {
                proof {
                    assert(a0[i as int].len() == ctx.degree() && reduced(
                        a0[i as int],
                        ctx.moduli()[i as int],
                    ));
                    assert(ctx.ops()[i as int].wf());
                }
                if from_power {
                    if self.allow_variable_time {
                        self.ctx.ops[i].forward_vt(self.coefficients[i].as_mut_slice());
                    } else {
                        self.ctx.ops[i].forward(self.coefficients[i].as_mut_slice());
                    }
                } else {
                    if self.allow_variable_time {
                        self.ctx.ops[i].backward_vt(self.coefficients[i].as_mut_slice());
                    } else {
                        self.ctx.ops[i].backward(self.coefficients[i].as_mut_slice());
                    }
                }
                i += 1;
            }
        }
        proof {
            assert(rows_of(self.coefficients@) =~= converted(ctx, from, to, a0));
        }
        self.coefficients_shoup = match to {
            Representation::NttShoup => Some(Poly::shoup_rows(&self.ctx, &self.coefficients)),
            _ => None,
        };
        self.representation = to;
    }
}

/// The number of ones among the lowest `bits` bits of `x`.
pub open spec fn bit_count(x: nat, bits: nat) -> nat
    decreases bits,
{
    if bits == 0 {
        0
    } else {
        x % 2 + bit_count(x / 2, (bits - 1) as nat)
    }
}

/// The sample of the centered binomial distribution that a word of random
/// bits gives: the number of ones among its lowest `2 * variance` bits minus
/// the number of ones among the next `2 * variance` bits.
pub open spec fn centered_binomial(word: u64, variance: nat) -> int {
    bit_count(word as nat, 2 * variance) - bit_count(
        word as nat / pow2(2 * variance),
        2 * variance,
    )
}

/// The number of ones among the lowest `bits` bits of `x`.
fn count_bits(x: u64, bits: u32) -> (r: u32)
    requires
        bits <= 64,
    ensures
        r == bit_count(x as nat, bits as nat),
        r <= bits,
{
    let mut r: u32 = 0;
    let mut y: u64 = x;
    let mut i: u32 = 0;
    while i < bits
        invariant
            i <= bits <= 64,
            r <= i,
            r + bit_count(y as nat, (bits - i) as nat) == bit_count(x as nat, bits as nat),
        decreases bits - i,
    {
        proof {
            assert(y & 1 == y % 2) by (bit_vector);
            assert(y >> 1 == y / 2) by (bit_vector);
        }
        r = r + (y & 1) as u32;
        y = y >> 1;
        i += 1;
    }
    r
}

/// The sample of the centered binomial distribution that `word` gives.
pub fn sample_centered_binomial(word: u64, variance: usize) -> (r: i64)
    requires
        1 <= variance <= 16,
    ensures
        r == centered_binomial(word, variance as nat),
        -2 * variance <= r <= 2 * variance,
{
    let bits: u32 = 2 * (variance as u32);
    proof {
        vstd::bits::lemma_u64_shr_is_div(word, bits as u64);
    }
    let plus = count_bits(word, bits);
    let minus = count_bits(word >> bits, bits);
    (plus as i64) - (minus as i64)
}

/// The rows of the polynomial with the coefficients `c`, padded with zeros.
pub open spec fn power_rows(c: Seq<int>, moduli: Seq<u64>, n: nat) -> Seq<Seq<u64>> {
    Seq::new(
        moduli.len(),
        |i: int|
            Seq::new(
                n,
                |j: int|
                    if j < c.len() {
                        (c[j] % (moduli[i] as int)) as u64
                    } else {
                        0u64
                    },
            ),
    )
}

/// The values of a vector seen as integers.
pub open spec fn as_ints(v: Seq<u64>) -> Seq<int> {
    Seq::new(v.len(), |j: int| v[j] as int)
}

/// The rows of `a` multiplied by `g` modulo the modulus of each row.
pub open spec fn rows_scale(a: Seq<Seq<u64>>, g: int, moduli: Seq<u64>) -> Seq<Seq<u64>> {
    Seq::new(
        a.len(),
        |i: int|
            Seq::new(
                a[i].len(),
                |j: int| ((a[i][j] * (g % (moduli[i] as int))) % (moduli[i] as int)) as u64,
            ),
    )
}

/// The residues of the coefficient of index `j`, one per row.
pub open spec fn column(rows: Seq<Seq<u64>>, j: int) -> Seq<u64> {
    Seq::new(rows.len(), |i: int| rows[i][j])
}

/// The rows that a seed yields: the row of index `i` holds the uniform
/// residues that the `i`-th seed drawn from the seed's stream yields.
pub open spec fn uniform_rows(seed: Seq<u8>, moduli: Seq<u64>, n: nat) -> Seq<Seq<u64>> {
    Seq::new(
        moduli.len(),
        |i: int| chacha8_uniform(chacha8_seeds(seed, moduli.len())[i], moduli[i], n),
    )
}

/// The small coefficients that a seed yields: the coefficient of index `j`
/// is the sample of the centered binomial distribution that the `j`-th word
/// of the seed's stream gives.
pub open spec fn small_coefficients(seed: Seq<u8>, variance: nat, n: nat) -> Seq<int> {
    Seq::new(n, |j: int| centered_binomial(chacha8_words(seed, n)[j], variance))
}

/// The rows, in the representation `to`, of the polynomial with the small
/// coefficients that a seed yields.
pub open spec fn small_rows(ctx: Context, to: Representation, variance: nat, seed: Seq<u8>) -> Seq<
    Seq<u64>,
> {
    converted(
        ctx,
        Representation::PowerBasis,
        to,
        power_rows(small_coefficients(seed, variance, ctx.degree()), ctx.moduli(), ctx.degree()),
    )
}

impl Poly {
    /// Pads every row with zeros up to the degree, and makes the polynomial
    /// of them in the power basis.
    fn from_power_rows(ctx: &Arc<Context>, rows: Vec<Vec<u64>>, Ghost(c): Ghost<Seq<int>>) -> (r:
        Poly)
        requires
            ctx.wf(),
            c.len() <= ctx.degree(),
            rows@.len() == ctx.moduli().len(),
            forall|i: int|
                0 <= i < rows@.len() ==> (#[trigger] rows@[i])@.len() == c.len() && forall|j: int|
                    0 <= j < c.len() ==> (#[trigger] rows@[i]@[j]) as int == c[j] % (
                    ctx.moduli()[i] as int),
        ensures
            r.wf(),
            r.ctx() == **ctx,
            r.representation() == Representation::PowerBasis,
            !r.variable_time(),
            r.rows() == power_rows(c, ctx.moduli(), ctx.degree()),
    {
        let mut rows = rows;
        let k = rows.len();
        let n = ctx.degree;
        let ghost given = rows@;
        let mut i: usize = 0;
        while i < k
            invariant
                ctx.wf(),
                i <= k,
                k == rows@.len(),
                k == given.len(),
                k == ctx.moduli().len(),
                n == ctx.degree,
                c.len() <= n,
                forall|l: int|
                    0 <= l < k ==> (#[trigger] given[l])@.len() == c.len() && forall|j: int|
                        0 <= j < c.len() ==> (#[trigger] given[l]@[j]) as int == c[j] % (
                        ctx.moduli()[l] as int),
                forall|l: int| i <= l < k ==> #[trigger] rows@[l] == given[l],
                forall|l: int|
                    0 <= l < i ==> (#[trigger] rows@[l])@ == power_rows(
                        c,
                        ctx.moduli(),
                        ctx.degree(),
                    )[l],
            decreases k - i,
        {
            rows[i].resize(n, 0);
            proof {
                let row = rows@[i as int]@;
                let want = power_rows(c, ctx.moduli(), ctx.degree())[i as int];
                assert forall|j: int| 0 <= j < n implies row[j] == want[j] by {
                    if j < c.len() {
                        assert(row[j] == given[i as int]@[j]);
                    }
                }
                assert(row =~= want);
            }
            i += 1;
        }
        proof {
            assert(rows_of(rows@) =~= power_rows(c, ctx.moduli(), ctx.degree()));
            assert forall|l: int| 0 <= l < k implies (#[trigger] rows_of(rows@)[l]).len() == n
                && reduced(rows_of(rows@)[l], ctx.moduli()[l]) by {
                assert(2 <= ctx.moduli()[l]);
                assert forall|j: int| 0 <= j < n implies #[trigger] rows_of(rows@)[l][j]
                    < ctx.moduli()[l] by {
                    if j < c.len() {
                        vstd::arithmetic::div_mod::lemma_mod_bound(c[j], ctx.moduli()[l] as int);
                    }
                }
            }
        }
        Poly {
            ctx: share(ctx),
            representation: Representation::PowerBasis,
            allow_variable_time: false,
            coefficients: rows,
            coefficients_shoup: None,
        }
    }

    /// The polynomial in the power basis whose coefficients are those of
    /// `v`, reduced modulo every modulus. Fails where `v` is longer than the
    /// degree.
    pub fn from_coefficients_u64(v: &[u64], ctx: &Arc<Context>) -> (r: Result<Poly, Error>)
        requires
            ctx.wf(),
        ensures
            r.is_ok() <==> v@.len() <= ctx.degree(),
            r matches Ok(p) ==> {
                &&& p.wf()
                &&& p.ctx() == **ctx
                &&& p.representation() == Representation::PowerBasis
                &&& !p.variable_time()
                &&& p.rows() == power_rows(
                    Seq::new(v@.len(), |j: int| v@[j] as int),
                    ctx.moduli(),
                    ctx.degree(),
                )
            },
    {
        if v.len() > ctx.degree {
            return Err(Error::other("The slice has more coefficients than the degree"));
        }
        let ghost c = Seq::new(v@.len(), |j: int| v@[j] as int);
        let k = ctx.moduli.len();
        let mut rows: Vec<Vec<u64>> = Vec::with_capacity(k);
        let mut i: usize = 0;
        while i < k
            invariant
                ctx.wf(),
                i <= k,
                k == ctx.moduli().len(),
                k == ctx.q@.len(),
                c == Seq::new(v@.len(), |j: int| v@[j] as int),
                rows@.len() == i,
                forall|l: int|
                    0 <= l < i ==> (#[trigger] rows@[l])@.len() == c.len() && forall|j: int|
                        0 <= j < c.len() ==> (#[trigger] rows@[l]@[j]) as int == c[j] % (
                        ctx.moduli()[l] as int),
            decreases k - i,
        {
            proof {
                assert(ctx.q@[i as int].wf());
            }
            rows.push(ctx.q[i].reduce_vec_new(v));
            i += 1;
        }
        Ok(Poly::from_power_rows(ctx, rows, Ghost(c)))
    }

    /// The polynomial in the power basis whose coefficients are those of
    /// `v`, reduced modulo every modulus. Fails where `v` is longer than the
    /// degree.
    pub fn from_coefficients_i64(v: &[i64], ctx: &Arc<Context>) -> (r: Result<Poly, Error>)
        requires
            ctx.wf(),
        ensures
            r.is_ok() <==> v@.len() <= ctx.degree(),
            r matches Ok(p) ==> {
                &&& p.wf()
                &&& p.ctx() == **ctx
                &&& p.representation() == Representation::PowerBasis
                &&& !p.variable_time()
                &&& p.rows() == power_rows(
                    Seq::new(v@.len(), |j: int| v@[j] as int),
                    ctx.moduli(),
                    ctx.degree(),
                )
            },
    {
        if v.len() > ctx.degree {
            return Err(Error::other("The slice has more coefficients than the degree"));
        }
        let ghost c = Seq::new(v@.len(), |j: int| v@[j] as int);
        let k = ctx.moduli.len();
        let mut rows: Vec<Vec<u64>> = Vec::with_capacity(k);
        let mut i: usize = 0;
        while i < k
            invariant
                ctx.wf(),
                i <= k,
                k == ctx.moduli().len(),
                k == ctx.q@.len(),
                c == Seq::new(v@.len(), |j: int| v@[j] as int),
                rows@.len() == i,
                forall|l: int|
                    0 <= l < i ==> (#[trigger] rows@[l])@.len() == c.len() && forall|j: int|
                        0 <= j < c.len() ==> (#[trigger] rows@[l]@[j]) as int == c[j] % (
                        ctx.moduli()[l] as int),
            decreases k - i,
        {
            proof {
                assert(ctx.q@[i as int].wf());
            }
            rows.push(ctx.q[i].reduce_vec_i64(v));
            i += 1;
        }
        Ok(Poly::from_power_rows(ctx, rows, Ghost(c)))
    }

    /// The polynomial in the power basis whose coefficients are those of
    /// `v`, reduced modulo every modulus. Fails where `v` is longer than the
    /// degree.
    pub fn from_coefficients_big(v: &[BigNat], ctx: &Arc<Context>) -> (r: Result<Poly, Error>)
        requires
            ctx.wf(),
        ensures
            r.is_ok() <==> v@.len() <= ctx.degree(),
            r matches Ok(p) ==> {
                &&& p.wf()
                &&& p.ctx() == **ctx
                &&& p.representation() == Representation::PowerBasis
                &&& !p.variable_time()
                &&& p.rows() == power_rows(
                    Seq::new(v@.len(), |j: int| v@[j]@ as int),
                    ctx.moduli(),
                    ctx.degree(),
                )
            },
    {
        if v.len() > ctx.degree {
            return Err(Error::other("The slice has more coefficients than the degree"));
        }
        let ghost c = Seq::new(v@.len(), |j: int| v@[j]@ as int);
        let k = ctx.moduli.len();
        let m = v.len();
        let mut rows: Vec<Vec<u64>> = Vec::with_capacity(k);
        let mut i: usize = 0;
        while i < k
            invariant
                ctx.wf(),
                i <= k,
                k == ctx.moduli().len(),
                m == v@.len(),
                c == Seq::new(v@.len(), |j: int| v@[j]@ as int),
                rows@.len() == i,
                forall|l: int|
                    0 <= l < i ==> (#[trigger] rows@[l])@.len() == c.len() && forall|j: int|
                        0 <= j < c.len() ==> (#[trigger] rows@[l]@[j]) as int == c[j] % (
                        ctx.moduli()[l] as int),
            decreases k - i,
        {
            let qi = BigNat::from_u64(ctx.moduli[i]);
            let mut row: Vec<u64> = Vec::with_capacity(m);
            let mut j: usize = 0;
            proof {
                assert(2 <= ctx.moduli()[i as int]);
            }
            while j < m
                invariant
                    j <= m,
                    m == v@.len(),
                    i < k,
                    k == ctx.moduli().len(),
                    2 <= ctx.moduli()[i as int] < 0x4000_0000_0000_0000,
                    qi@ == ctx.moduli()[i as int],
                    c == Seq::new(v@.len(), |j: int| v@[j]@ as int),
                    row@.len() == j,
                    forall|t: int|
                        0 <= t < j ==> (#[trigger] row@[t]) as int == c[t] % (
                        ctx.moduli()[i as int] as int),
                decreases m - j,
            {
                let (_, rest) = v[j].div_rem(&qi).unwrap();
                proof {
                    vstd::arithmetic::div_mod::lemma_mod_bound(
                        v@[j as int]@ as int,
                        ctx.moduli()[i as int] as int,
                    );
                }
                row.push(rest.to_u64().unwrap());
                j += 1;
            }
            rows.push(row);
            i += 1;
        }
        Ok(Poly::from_power_rows(ctx, rows, Ghost(c)))
    }

    /// The polynomial whose rows the seed yields: the row of index `i` holds
    /// the uniform residues that the `i`-th seed drawn from the seed's stream
    /// yields.
    pub fn random_from_seed(ctx: &Arc<Context>, representation: Representation, seed: Seed) -> (r:
        Poly)
        requires
            ctx.wf(),
        ensures
            r.wf(),
            r.ctx() == **ctx,
            r.representation() == representation,
            !r.variable_time(),
            r.rows() == uniform_rows(seed@, ctx.moduli(), ctx.degree()),
    {
        let k = ctx.moduli.len();
        let seeds = sample_seeds(&seed, k);
        let mut rows: Vec<Vec<u64>> = Vec::with_capacity(k);
        let mut i: usize = 0;
        while i < k
            invariant
                ctx.wf(),
                i <= k,
                k == ctx.moduli().len(),
                k == ctx.q@.len(),
                seeds@.len() == k,
                forall|l: int|
                    0 <= l < k ==> (#[trigger] seeds@[l])@ == chacha8_seeds(seed@, k as nat)[l],
                rows@.len() == i,
                forall|l: int|
                    0 <= l < i ==> (#[trigger] rows@[l])@ == chacha8_uniform(
                        chacha8_seeds(seed@, k as nat)[l],
                        ctx.moduli()[l],
                        ctx.degree(),
                    ) && rows@[l]@.len() == ctx.degree() && reduced(rows@[l]@, ctx.moduli()[l]),
            decreases k - i,
        {
            proof {
                assert(ctx.q@[i as int].wf());
            }
            rows.push(ctx.q[i].random_vec_from_seed(ctx.degree, seeds[i]));
            i += 1;
        }
        proof {
            assert(rows_of(rows@) =~= uniform_rows(seed@, ctx.moduli(), ctx.degree()));
        }
        let coefficients_shoup = match representation {
            Representation::NttShoup => Some(Poly::shoup_rows(ctx, &rows)),
            _ => None,
        };
        Poly {
            ctx: share(ctx),
            representation,
            allow_variable_time: false,
            coefficients: rows,
            coefficients_shoup,
        }
    }

    /// The polynomial with small coefficients that the seed yields: the
    /// coefficient of index `j` is the sample of the centered binomial
    /// distribution that the `j`-th word of the seed's stream gives. Fails
    /// unless the variance is between 1 and 16.
    pub fn small_from_seed(
        ctx: &Arc<Context>,
        representation: Representation,
        variance: usize,
        seed: Seed,
    ) -> (r: Result<Poly, Error>)
        requires
            ctx.wf(),
        ensures
            r.is_ok() <==> 1 <= variance <= 16,
            r matches Ok(p) ==> {
                &&& p.wf()
                &&& p.ctx() == **ctx
                &&& p.representation() == representation
                &&& !p.variable_time()
                &&& p.rows() == small_rows(**ctx, representation, variance as nat, seed@)
            },
            r matches Err(e) ==> e.text() == "The variance should be an integer between 1 and 16"@,
    {
        if variance < 1 || variance > 16 {
            return Err(Error::other("The variance should be an integer between 1 and 16"));
        }
        let n = ctx.degree;
        let words = sample_words(&seed, n);
        let mut small: Vec<i64> = Vec::with_capacity(n);
        let mut j: usize = 0;
        while j < n
            invariant
                j <= n,
                n == words@.len(),
                1 <= variance <= 16,
                small@.len() == j,
                forall|t: int|
                    0 <= t < j ==> (#[trigger] small@[t]) as int == centered_binomial(
                        words@[t],
                        variance as nat,
                    ),
            decreases n - j,
        {
            small.push(sample_centered_binomial(words[j], variance));
            j += 1;
        }
        proof {
            assert(Seq::new(small@.len(), |j: int| small@[j] as int) =~= small_coefficients(
                seed@,
                variance as nat,
                ctx.degree(),
            ));
        }
        let mut p = Poly::from_coefficients_i64(small.as_slice(), ctx).unwrap();
        p.change_representation(representation);
        Ok(p)
    }

    /// Overwrites every residue, and every Shoup constant, with zero.
    pub fn zeroize(&mut self)
        requires
            old(self).wf(),
        ensures
            final(self).wf(),
            final(self).ctx() == old(self).ctx(),
            final(self).representation() == old(self).representation(),
            final(self).variable_time() == old(self).variable_time(),
            final(self).rows() == rows_zero(
                old(self).ctx().moduli().len(),
                old(self).ctx().degree(),
            ),
    {
        let ghost n = self.ctx.degree as nat;
        proof {
            assert forall|i: int| 0 <= i < self.coefficients@.len() implies (
            #[trigger] self.coefficients@[i])@.len() == n by {
                assert(self.rows()[i].len() == n);
            }
        }
        wipe_rows(&mut self.coefficients, Ghost(n));
        match &mut self.coefficients_shoup {
            Some(sh) => {
                wipe_rows(sh, Ghost(n));
            },
            None => {},
        }
        proof {
            assert(self.rows() =~= rows_zero(self.ctx().moduli().len(), n));
            assert forall|l: int| 0 <= l < self.rows().len() implies (
            #[trigger] self.rows()[l]).len() == n && reduced(
                self.rows()[l],
                self.ctx().moduli()[l],
            ) by {
                assert(2 <= self.ctx().moduli()[l]);
            }
            if self.coefficients_shoup.is_some() {
                let sh = self.coefficients_shoup->Some_0;
                assert forall|i: int| 0 <= i < sh@.len() implies shoup_of(
                    (#[trigger] sh@[i])@,
                    self.coefficients@[i]@,
                    self.ctx.moduli@[i],
                ) by {
                    assert(2 <= self.ctx().moduli()[i]);
                    assert(sh@[i]@ == rows_zero(sh@.len(), n)[i]);
                    assert(self.coefficients@[i]@ == rows_zero(sh@.len(), n)[i]);
                    assert(shoup_ratio(0, self.ctx.moduli@[i] as int) == 0) by {
                        vstd::arithmetic::div_mod::lemma_div_basics_1(self.ctx.moduli@[i] as int);
                        assert(0 * crate::arith::two_64() == 0);
                    }
                }
            }
        }
    }
}

/// Overwrites every element of every row with zero.
fn wipe_rows(rows: &mut Vec<Vec<u64>>, Ghost(n): Ghost<nat>)
    requires
        forall|i: int| 0 <= i < old(rows)@.len() ==> (#[trigger] old(rows)@[i])@.len() == n,
    ensures
        rows_of(final(rows)@) == rows_zero(old(rows)@.len(), n),
        final(rows)@.len() == old(rows)@.len(),
{
    wipe_each(rows);
    proof {
        assert forall|i: int| 0 <= i < rows@.len() implies #[trigger] rows_of(rows@)[i]
            =~= rows_zero(rows@.len(), n)[i] by {
            assert(rows@[i]@.len() == n);
        }
        assert(rows_of(rows@) =~= rows_zero(rows@.len(), n));
    }
}

/// The residues of the coefficient of index `j`, one per row.
pub fn gather_column(rows: &Vec<Vec<u64>>, j: usize) -> (r: Vec<u64>)
    requires
        forall|i: int| 0 <= i < rows@.len() ==> j < (#[trigger] rows@[i])@.len(),
    ensures
        r@ == column(rows_of(rows@), j as int),
{
    let k = rows.len();
    let mut r: Vec<u64> = Vec::with_capacity(k);
    let mut i: usize = 0;
    while i < k
        invariant
            i <= k,
            k == rows@.len(),
            forall|l: int| 0 <= l < rows@.len() ==> j < (#[trigger] rows@[l])@.len(),
            r@.len() == i,
            forall|l: int| 0 <= l < i ==> #[trigger] r@[l] == rows@[l]@[j as int],
        decreases k - i,
    {
        r.push(rows[i][j]);
        i += 1;
    }
    proof {
        assert(r@ =~= column(rows_of(rows@), j as int));
    }
    r
}

impl Poly {
    /// The product of the polynomial by the number `g`.
    pub fn mul_scalar_big(&self, g: &BigNat) -> (r: Poly)
        requires
            self.wf(),
            self.representation() != Representation::NttShoup,
        ensures
            r.wf(),
            r.ctx() == self.ctx(),
            r.representation() == self.representation(),
            r.variable_time() == self.variable_time(),
            r.rows() == rows_scale(self.rows(), g@ as int, self.ctx().moduli()),
    {
        let k = self.coefficients.len();
        let residues = self.ctx.rns.project(g);
        let mut rows = copy_rows(&self.coefficients);
        let ghost a0 = self.rows();
        let ghost moduli = self.ctx.moduli@;
        let mut i: usize = 0;
        proof {
            assert(a0.len() == k);
        }
        while i < k
            invariant
                self.wf(),
                i <= k,
                k == rows@.len(),
                k == self.ctx.q@.len(),
                k == residues@.len(),
                a0 == self.rows(),
                moduli == self.ctx.moduli@,
                forall|l: int|
                    0 <= l < k ==> (#[trigger] residues@[l]) as nat == g@ % (moduli[l] as nat),
                forall|l: int| i <= l < k ==> (#[trigger] rows@[l])@ == a0[l],
                forall|l: int|
                    0 <= l < i ==> (#[trigger] rows@[l])@ == rows_scale(a0, g@ as int, moduli)[l]
                        && reduced(rows@[l]@, moduli[l]),
            decreases k - i,
        {
            proof {
                assert(a0[i as int].len() == self.ctx.degree);
                assert(self.ctx.q@[i as int].wf());
                assert(2 <= self.ctx().moduli()[i as int]);
                vstd::arithmetic::div_mod::lemma_mod_bound(g@ as int, moduli[i as int] as int);
            }
            if self.allow_variable_time {
                self.ctx.q[i].scalar_mul_vec_vt(rows[i].as_mut_slice(), residues[i]);
            } else {
                self.ctx.q[i].scalar_mul_vec(rows[i].as_mut_slice(), residues[i]);
            }
            proof {
                let row = rows@[i as int]@;
                let want = rows_scale(a0, g@ as int, moduli)[i as int];
                let p = moduli[i as int];
                assert forall|j: int| 0 <= j < row.len() implies row[j] == want[j] && row[j]
                    < p by {
                    vstd::arithmetic::div_mod::lemma_mod_bound(
                        a0[i as int][j] * (g@ as int % (p as int)),
                        p as int,
                    );
                }
                assert(row =~= want);
            }
            i += 1;
        }
        proof {
            assert(rows_of(rows@) =~= rows_scale(a0, g@ as int, moduli));
        }
        Poly {
            ctx: share(&self.ctx),
            representation: self.representation,
            allow_variable_time: self.allow_variable_time,
            coefficients: rows,
            coefficients_shoup: None,
        }
    }

    /// The numbers below the product of the moduli that the residues of each
    /// coefficient stand for.
    pub fn to_vec_big(&self) -> (r: Vec<BigNat>)
        requires
            self.wf(),
        ensures
            r@.len() == self.ctx().degree(),
            forall|j: int|
                0 <= j < r@.len() ==> (#[trigger] r@[j])@ == self.ctx().rns().lift_spec(
                    column(self.rows(), j),
                ),
    {
        let n = self.ctx.degree;
        let mut r: Vec<BigNat> = Vec::with_capacity(n);
        let mut j: usize = 0;
        proof {
            assert forall|i: int| 0 <= i < self.coefficients@.len() implies (
            #[trigger] self.coefficients@[i])@.len() == n by {
                assert(self.rows()[i].len() == n);
            }
        }
        while j < n
            invariant
                self.wf(),
                j <= n,
                n == self.ctx.degree,
                forall|i: int|
                    0 <= i < self.coefficients@.len() ==> (#[trigger] self.coefficients@[i])@.len()
                        == n,
                r@.len() == j,
                forall|t: int|
                    0 <= t < j ==> (#[trigger] r@[t])@ == self.ctx().rns().lift_spec(
                        column(self.rows(), t),
                    ),
            decreases n - j,
        {
            let col = gather_column(&self.coefficients, j);
            r.push(self.ctx.rns.lift(col.as_slice()));
            j += 1;
        }
        r
    }
}

impl Poly {
    /// Whether the operations on this polynomial may run in variable time.
    pub fn is_variable_time(&self) -> (r: bool)
        ensures
            r == self.variable_time(),
    {
        self.allow_variable_time
    }

    /// The polynomial with the given rows, which hold one row of reduced
    /// residues per modulus.
    pub fn from_rows(
        ctx: &Arc<Context>,
        representation: Representation,
        variable_time: bool,
        rows: Vec<Vec<u64>>,
    ) -> (r: Poly)
        requires
            ctx.wf(),
            rows_in(rows_of(rows@), ctx.moduli(), ctx.degree()),
        ensures
            r.wf(),
            r.ctx() == **ctx,
            r.representation() == representation,
            r.variable_time() == variable_time,
            r.rows() == rows_of(rows@),
    {
        let coefficients_shoup = match representation {
            Representation::NttShoup => Some(Poly::shoup_rows(ctx, &rows)),
            _ => None,
        };
        Poly {
            ctx: share(ctx),
            representation,
            allow_variable_time: variable_time,
            coefficients: rows,
            coefficients_shoup,
        }
    }
}

impl Poly {
    /// Whether two polynomials are over the same moduli and degree, in the
    /// same representation, with the same rows.
    pub open spec fn same(&self, other: &Poly) -> bool {
        &&& self.ctx().same(&other.ctx())
        &&& self.representation() == other.representation()
        &&& self.rows() == other.rows()
    }

    /// Whether two polynomials are over the same moduli and degree, in the
    /// same representation, with the same rows.
    pub fn equals(&self, other: &Poly) -> (r: bool)
        requires
            self.wf(),
            other.wf(),
        ensures
            r == self.same(other),
    {
        if !self.ctx.equals(&other.ctx) || self.representation != other.representation {
            return false;
        }
        let k = self.coefficients.len();
        let n = self.ctx.degree;
        let mut i: usize = 0;
        proof {
            assert(self.rows().len() == k);
            assert(other.rows().len() == k);
        }
        while i < k
            invariant
                self.wf(),
                other.wf(),
                self.ctx().same(&other.ctx()),
                i <= k,
                k == self.coefficients@.len(),
                k == other.coefficients@.len(),
                n == self.ctx.degree,
                forall|l: int| 0 <= l < i ==> self.rows()[l] == other.rows()[l],
            decreases k - i,
        {
            proof {
                assert(self.rows()[i as int].len() == n);
                assert(other.rows()[i as int].len() == n);
            }
            let mut j: usize = 0;
            while j < n
                invariant
                    j <= n,
                    i < k,
                    k == self.coefficients@.len(),
                    k == other.coefficients@.len(),
                    n == self.coefficients@[i as int]@.len(),
                    n == other.coefficients@[i as int]@.len(),
                    forall|t: int|
                        0 <= t < j ==> self.coefficients@[i as int]@[t]
                            == other.coefficients@[i as int]@[t],
                decreases n - j,
            {
                if self.coefficients[i][j] != other.coefficients[i][j] {
                    proof {
                        assert(self.rows()[i as int][j as int] != other.rows()[i as int][j as int]);
                    }
                    return false;
                }
                j += 1;
            }
            proof {
                assert(self.rows()[i as int] =~= other.rows()[i as int]);
            }
            i += 1;
        }
        proof {
            assert(self.rows() =~= other.rows());
        }
        true
    }
}

/// `Zeroize::zeroize` on each row: every element of every row becomes zero.
/// The walk over the rows stands here because the key is wiped when it is
/// dropped, and what runs then may neither unwind nor open an invariant,
/// which the length and the mutable index of a vector are not known to
/// keep to.
#[verifier::external_body]
pub(crate) fn wipe_each(rows: &mut Vec<Vec<u64>>)
    ensures
        final(rows)@.len() == old(rows)@.len(),
        forall|i: int|
            0 <= i < final(rows)@.len() ==> (#[trigger] final(rows)@[i])@.len() == old(
                rows,
            )@[i]@.len(),
        forall|i: int, j: int|
            0 <= i < final(rows)@.len() && 0 <= j < final(rows)@[i]@.len() ==> (
            #[trigger] final(rows)@[i]@[j]) == 0,
    opens_invariants none
    no_unwind
{
    for row in rows.iter_mut() {
        zeroize::Zeroize::zeroize(row.as_mut_slice());
    }
}

/// The rows of the shape of `rows` that hold zeros only.
pub open spec fn wiped(rows: Seq<Seq<u64>>) -> Seq<Seq<u64>> {
    Seq::new(rows.len(), |i: int| Seq::new(rows[i].len(), |j: int| 0u64))
}

impl Poly {
    /// The Shoup constants of the rows, where the polynomial holds them.
    pub closed spec fn shoup_constants(&self) -> Option<Seq<Seq<u64>>> {
        match self.coefficients_shoup {
            Some(sh) => Some(rows_of(sh@)),
            None => None,
        }
    }

    /// Overwrites every residue, and every Shoup constant, with zero,
    /// whatever state the polynomial is in: the rows keep their shape, and
    /// a well-formed polynomial stays well formed.
    pub fn scrub(&mut self)
        ensures
            final(self).ctx() == old(self).ctx(),
            final(self).representation() == old(self).representation(),
            final(self).variable_time() == old(self).variable_time(),
            final(self).rows() == wiped(old(self).rows()),
            final(self).shoup_constants() == (match old(self).shoup_constants() {
                Some(sh) => Some(wiped(sh)),
                None => None,
            }),
            old(self).wf() ==> final(self).wf() && final(self).rows() == rows_zero(
                old(self).ctx().moduli().len(),
                old(self).ctx().degree(),
            ),
        opens_invariants none
        no_unwind
    {
        let ghost before = self.coefficients@;
        let ghost shoup_before = self.coefficients_shoup;
        wipe_each(&mut self.coefficients);
        proof {
            assert forall|i: int| 0 <= i < before.len() implies #[trigger] self.rows()[i] =~= wiped(
                rows_of(before),
            )[i] by {
                assert(self.coefficients@[i]@.len() == before[i]@.len());
            }
            assert(self.rows() =~= wiped(rows_of(before)));
        }
        match &mut self.coefficients_shoup {
            Some(sh) => {
                wipe_each(sh);
            },
            None => {},
        }
        proof {
            if shoup_before.is_some() {
                let was = shoup_before->Some_0@;
                let sh = self.coefficients_shoup->Some_0@;
                assert forall|i: int| 0 <= i < was.len() implies #[trigger] rows_of(sh)[i] =~= wiped(
                    rows_of(was),
                )[i] by {
                    assert(sh[i]@.len() == was[i]@.len());
                }
                assert(rows_of(sh) =~= wiped(rows_of(was)));
            }
            if old(self).wf() {
                let n = self.ctx.degree as nat;
                let m = self.ctx().moduli();
                assert forall|l: int| 0 <= l < self.rows().len() implies (
                #[trigger] self.rows()[l]).len() == n && reduced(self.rows()[l], m[l]) by {
                    assert(old(self).rows()[l].len() == n);
                    assert(2 <= m[l]);
                }
                assert(self.rows() =~= rows_zero(m.len(), n));
                if self.coefficients_shoup.is_some() {
                    let was = shoup_before->Some_0@;
                    let sh = self.coefficients_shoup->Some_0;
                    assert forall|i: int| 0 <= i < sh@.len() implies shoup_of(
                        (#[trigger] sh@[i])@,
                        self.coefficients@[i]@,
                        self.ctx.moduli@[i],
                    ) by {
                        assert(2 <= m[i]);
                        assert(shoup_of(was[i]@, before[i]@, self.ctx.moduli@[i]));
                        assert(sh@[i]@.len() == was[i]@.len());
                        assert(self.coefficients@[i]@.len() == before[i]@.len());
                        assert(shoup_ratio(0, self.ctx.moduli@[i] as int) == 0) by {
                            vstd::arithmetic::div_mod::lemma_div_basics_1(
                                self.ctx.moduli@[i] as int,
                            );
                            assert(0 * crate::arith::two_64() == 0);
                        }
                    }
                }
            }
        }
    }
}

/// The rows of the product of two polynomials modulo `x^n + 1` and the
/// modulus of each row.
pub open spec fn rows_product(a: Seq<Seq<u64>>, b: Seq<Seq<u64>>, moduli: Seq<u64>) -> Seq<
    Seq<u64>,
> {
    Seq::new(a.len(), |i: int| negacyclic_product(a[i], b[i], moduli[i]))
}

/// With either backend of the transforms, the product of two polynomials
/// is their product modulo `x^n + 1`: bringing both into the transform
/// domain, multiplying them there and bringing the result back gives the
/// rows of that product.
pub proof fn lemma_product_of_polynomials(ctx: Context, a: Seq<Seq<u64>>, b: Seq<Seq<u64>>)
    requires
        ctx.wf(),
        rows_in(a, ctx.moduli(), ctx.degree()),
        rows_in(b, ctx.moduli(), ctx.degree()),
    ensures
        converted(
            ctx,
            Representation::Ntt,
            Representation::PowerBasis,
            rows_combine(
                Operation::Mul,
                converted(ctx, Representation::PowerBasis, Representation::Ntt, a),
                converted(ctx, Representation::PowerBasis, Representation::Ntt, b),
                ctx.moduli(),
            ),
        ) == rows_product(a, b, ctx.moduli()),
{
    let fa = converted(ctx, Representation::PowerBasis, Representation::Ntt, a);
    let fb = converted(ctx, Representation::PowerBasis, Representation::Ntt, b);
    let fc = rows_combine(Operation::Mul, fa, fb, ctx.moduli());
    let c = converted(ctx, Representation::Ntt, Representation::PowerBasis, fc);
    assert forall|i: int| 0 <= i < a.len() implies #[trigger] c[i] == negacyclic_product(
        a[i],
        b[i],
        ctx.moduli()[i],
    ) by {
        let op = ctx.ops()[i];
        let p = ctx.moduli()[i];
        assert(op.wf() && op.modulus() == p && op.size() == ctx.degree());
        assert(a[i].len() == ctx.degree() && reduced(a[i], p));
        assert(b[i].len() == ctx.degree() && reduced(b[i], p));
        op.lemma_product_by_transforms(a[i], b[i]);
        assert(fc[i] =~= pointwise_product(op.forward_spec(a[i]), op.forward_spec(b[i]), p));
    }
    assert(c =~= rows_product(a, b, ctx.moduli()));
}

/// With either backend of the transforms, rows in the power basis come
/// back from the transform domain as they were.
pub proof fn lemma_there_and_back(ctx: Context, rows: Seq<Seq<u64>>)
    requires
        ctx.wf(),
        rows_in(rows, ctx.moduli(), ctx.degree()),
    ensures
        converted(
            ctx,
            Representation::Ntt,
            Representation::PowerBasis,
            converted(ctx, Representation::PowerBasis, Representation::Ntt, rows),
        ) == rows,
{
    let m = ctx.moduli();
    let forth = converted(ctx, Representation::PowerBasis, Representation::Ntt, rows);
    let again = converted(ctx, Representation::Ntt, Representation::PowerBasis, forth);
    assert forall|i: int| 0 <= i < m.len() implies #[trigger] again[i] == rows[i] by {
        let op = ctx.ops()[i];
        assert(op.wf() && op.modulus() == m[i] && op.size() == ctx.degree());
        assert(rows[i].len() == ctx.degree() && reduced(rows[i], m[i]));
        op.lemma_round_trip(rows[i]);
    }
    assert(again =~= rows);
}

/// A context of a degree below 16 uses the reference tables of the
/// transform for every modulus.
pub proof fn lemma_small_degrees(ctx: Context)
    requires
        ctx.wf(),
        ctx.degree() < 16,
    ensures
        forall|i: int| 0 <= i < ctx.ops().len() ==> !(#[trigger] ctx.ops()[i]).accelerated(),
{
    assert forall|i: int| 0 <= i < ctx.ops().len() implies !(#[trigger] ctx.ops()[i]).accelerated() by {
        assert(ctx.ops()[i].wf() && ctx.ops()[i].size() == ctx.degree());
        ctx.ops()[i].lemma_small_sizes();
    }
}

} // verus!
