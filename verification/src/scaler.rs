//! Scaling of a polynomial from one context to another by a rational
//! factor.
//!
//! Every coefficient is rebuilt from its residues as an integer of the
//! centered range, multiplied by the factor, rounded, and reduced modulo the
//! moduli of the target context. The arithmetic on the rebuilt integers is
//! exact, so the result does not depend on the moduli that the value was
//! held in.

use crate::bigint::BigNat;
use crate::errors::Error;
use crate::rq::{column, gather_column, rows_of, share, Context, Poly, Representation};
use crate::zq::reduced;
use std::sync::Arc;
use vstd::arithmetic::div_mod::*;
use vstd::prelude::*;

verus! {

/// A rational factor.
#[derive(Clone, Debug)]
pub struct ScalingFactor {
    numerator: BigNat,
    denominator: BigNat,
}

impl ScalingFactor {
    /// The numerator.
    pub closed spec fn num(&self) -> nat {
        self.numerator@
    }

    /// The denominator.
    pub closed spec fn den(&self) -> nat {
        self.denominator@
    }

    /// The factor `numerator / denominator`, with a denominator other than
    /// zero.
    pub fn new(numerator: &BigNat, denominator: &BigNat) -> (r: ScalingFactor)
        requires
            denominator@ != 0,
        ensures
            r.num() == numerator@,
            r.den() == denominator@,
    {
        ScalingFactor { numerator: numerator.copy(), denominator: denominator.copy() }
    }

    /// The factor 1.
    pub fn one() -> (r: ScalingFactor)
        ensures
            r.num() == 1,
            r.den() == 1,
    {
        ScalingFactor { numerator: BigNat::from_u64(1), denominator: BigNat::from_u64(1) }
    }
}

/// The representative of `x` modulo `q` in the centered range: `x - q` from
/// `q / 2` on, and `x` below.
pub open spec fn centered_lift(x: nat, q: nat) -> int {
    if x >= q / 2 {
        x - q
    } else {
        x as int
    }
}

/// `v * num / den`, rounded down where `floor` holds, and to the nearest
/// integer, halves away from zero, where not.
pub open spec fn scale_value(v: int, num: nat, den: nat, floor: bool) -> int {
    if floor {
        (v * num) / (den as int)
    } else if v >= 0 {
        (v * num + den / 2) / (den as int)
    } else {
        -((-v * num + den / 2) / (den as int))
    }
}

/// The rows of the scaled polynomial: the residues, modulo each modulus of
/// `to`, of every coefficient of `rows` rebuilt in the centered range and
/// scaled.
pub open spec fn scaled_rows(
    rows: Seq<Seq<u64>>,
    from: Context,
    to: Context,
    num: nat,
    den: nat,
    floor: bool,
) -> Seq<Seq<u64>> {
    Seq::new(
        to.moduli().len(),
        |i: int|
            Seq::new(
                from.degree(),
                |j: int|
                    (scale_value(
                        centered_lift(
                            from.rns().lift_spec(column(rows, j)),
                            from.rns().modulus_value(),
                        ),
                        num,
                        den,
                        floor,
                    ) % (to.moduli()[i] as int)) as u64,
            ),
    )
}

/// Rounding a negative quotient down is rounding its opposite up.
proof fn lemma_floor_of_negative(p: int, d: int)
    requires
        p >= 0,
        d > 0,
    ensures
        (-p) / d == -((p + d - 1) / d),
{
    let c = (p + d - 1) / d;
    crate::arith::lemma_div_bounds(p + d - 1, d);
    assert((-c) * d == -(c * d)) by (nonlinear_arith);
    crate::arith::lemma_div_unique(-p, d, -c);
}

/// A scaler from one context to another by a rational factor.
#[derive(Clone, Debug)]
pub struct Scaler {
    from: Arc<Context>,
    to: Arc<Context>,
    numerator: BigNat,
    denominator: BigNat,
    half: BigNat,
}

impl Scaler {
    /// The context of the polynomials to scale.
    pub closed spec fn from(&self) -> Context {
        *self.from
    }

    /// The context of the scaled polynomials.
    pub closed spec fn to(&self) -> Context {
        *self.to
    }

    /// The numerator of the factor.
    pub closed spec fn num(&self) -> nat {
        self.numerator@
    }

    /// The denominator of the factor.
    pub closed spec fn den(&self) -> nat {
        self.denominator@
    }

    /// The half of the product of the moduli is at hand.
    pub closed spec fn half_ok(&self) -> bool {
        self.half@ == self.from.rns().modulus_value() / 2
    }

    /// Well-formedness: both contexts are well formed, they have the same
    /// degree, and the denominator is not zero.
    pub open spec fn wf(&self) -> bool {
        &&& self.from().wf()
        &&& self.to().wf()
        &&& self.from().degree() == self.to().degree()
        &&& self.den() != 0
        &&& self.half_ok()
    }

    /// The scaler from `from` to `to` by `factor`. Fails where the two
    /// contexts differ in degree.
    pub fn new(from: &Arc<Context>, to: &Arc<Context>, factor: ScalingFactor) -> (r: Result<
        Scaler,
        Error,
    >)
        requires
            from.wf(),
            to.wf(),
            factor.den() != 0,
        ensures
            r.is_ok() <==> from.degree() == to.degree(),
            r matches Ok(s) ==> {
                &&& s.wf()
                &&& s.from() == **from
                &&& s.to() == **to
                &&& s.num() == factor.num()
                &&& s.den() == factor.den()
            },
    {
        if from.ring_degree() != to.ring_degree() {
            return Err(Error::other("The contexts differ in degree"));
        }
        let (half, _) = from.rns_context().modulus().div_rem(&BigNat::from_u64(2)).unwrap();
        Ok(
            Scaler {
                from: share(from),
                to: share(to),
                numerator: factor.numerator,
                denominator: factor.denominator,
                half,
            },
        )
    }

    /// The context of the polynomials to scale.
    pub fn source(&self) -> (r: &Arc<Context>)
        ensures
            **r == self.from(),
    {
        &self.from
    }

    /// The context of the scaled polynomials.
    pub fn target(&self) -> (r: &Arc<Context>)
        ensures
            **r == self.to(),
    {
        &self.to
    }

    /// The residues, modulo the moduli of the target context, of the
    /// coefficient with the residues `rests`, scaled.
    fn scale_coefficient(&self, rests: &[u64], floor: bool) -> (r: Vec<u64>)
        requires
            self.wf(),
            rests@.len() == self.from().moduli().len(),
        ensures
            r@.len() == self.to().moduli().len(),
            forall|i: int|
                0 <= i < r@.len() ==> (#[trigger] r@[i]) as int == scale_value(
                    centered_lift(
                        self.from().rns().lift_spec(rests@),
                        self.from().rns().modulus_value(),
                    ),
                    self.num(),
                    self.den(),
                    floor,
                ) % (self.to().moduli()[i] as int),
    {
        let rns = self.from.rns_context();
        let x = rns.lift(rests);
        let negative = !x.less_than(&self.half);
        let ghost v = centered_lift(x@, rns.modulus_value());
        let magnitude = if negative {
            rns.modulus().checked_sub(&x).unwrap()
        } else {
            x
        };
        let product = magnitude.mul(&self.numerator);
        let ghost w = scale_value(v, self.num(), self.den(), floor);
        proof {
            assert(magnitude@ == if negative {
                -v
            } else {
                v
            });
            assert(product@ == (if negative {
                -v
            } else {
                v
            }) * self.num());
        }
        let scaled = if floor {
            if negative {
                let d1 = self.denominator.checked_sub(&BigNat::from_u64(1)).unwrap();
                proof {
                    lemma_floor_of_negative(product@ as int, self.den() as int);
                    assert(v * self.num() == -(product@ as int)) by (nonlinear_arith)
                        requires
                            product@ == (-v) * self.num(),
                    ;
                }
                product.add(&d1).div_rem(&self.denominator).unwrap().0
            } else {
                product.div_rem(&self.denominator).unwrap().0
            }
        } else {
            let (half_den, _) = self.denominator.div_rem(&BigNat::from_u64(2)).unwrap();
            product.add(&half_den).div_rem(&self.denominator).unwrap().0
        };
        proof {
            assert(w == if negative {
                -(scaled@ as int)
            } else {
                scaled@ as int
            });
        }
        let residues = self.to.rns_context().project(&scaled);
        let moduli = self.to.moduli_u64();
        let k = residues.len();
        let mut r: Vec<u64> = Vec::with_capacity(k);
        let mut i: usize = 0;
        while i < k
            invariant
                self.wf(),
                i <= k,
                k == residues@.len(),
                k == self.to().moduli().len(),
                moduli@ == self.to().moduli(),
                w == if negative {
                    -(scaled@ as int)
                } else {
                    scaled@ as int
                },
                forall|l: int|
                    0 <= l < k ==> (#[trigger] residues@[l]) as nat == scaled@ % (
                    self.to().moduli()[l] as nat),
                r@.len() == i,
                forall|l: int|
                    0 <= l < i ==> (#[trigger] r@[l]) as int == w % (self.to().moduli()[l] as int),
            decreases k - i,
        {
            let q = moduli[i];
            let rest = residues[i];
            proof {
                assert(2 <= self.to().moduli()[i as int]);
                lemma_mod_bound(scaled@ as int, q as int);
                lemma_sub_mod_noop_right(0, scaled@ as int, q as int);
                lemma_mod_self_0(q as int);
            }
            let value = if negative {
                if rest == 0 {
                    0
                } else {
                    q - rest
                }
            } else {
                rest
            };
            proof {
                if negative && rest != 0 {
                    lemma_small_mod((q - rest) as nat, q as nat);
                    lemma_mod_add_multiples_vanish(-(rest as int), q as int);
                }
                if negative && rest == 0 {
                    lemma_small_mod(0, q as nat);
                }
            }
            r.push(value);
            i += 1;
        }
        r
    }

    /// The polynomial `p` of the source context, in the power basis, scaled
    /// into the target context. Fails where `p` is not over the source
    /// context or not in the power basis.
    pub fn scale(&self, p: &Poly, floor: bool) -> (r: Result<Poly, Error>)
        requires
            self.wf(),
            p.wf(),
        ensures
            r.is_ok() <==> (p.ctx().same(&self.from()) && p.representation()
                == Representation::PowerBasis),
            r matches Ok(s) ==> {
                &&& s.wf()
                &&& s.ctx() == self.to()
                &&& s.representation() == Representation::PowerBasis
                &&& s.variable_time() == p.variable_time()
                &&& s.rows() == scaled_rows(
                    p.rows(),
                    self.from(),
                    self.to(),
                    self.num(),
                    self.den(),
                    floor,
                )
            },
            r matches Err(e) ==> {
                if !p.ctx().same(&self.from()) {
                    e.text() == "The input polynomial does not have the correct context"@
                } else {
                    e.text() == "The input polynomial is not in the power basis"@
                }
            },
    {
        if !p.context().equals(&self.from) {
            return Err(Error::other("The input polynomial does not have the correct context"));
        }
        match p.get_representation() {
            Representation::PowerBasis => {},
            _ => {
                return Err(Error::other("The input polynomial is not in the power basis"));
            },
        }
        let n = self.from.ring_degree();
        let k = self.to.moduli_u64().len();
        let source = p.coefficients();
        let ghost want = scaled_rows(
            p.rows(),
            self.from(),
            self.to(),
            self.num(),
            self.den(),
            floor,
        );
        // one row per modulus of the target, filled coefficient by coefficient
        let mut rows: Vec<Vec<u64>> = Vec::with_capacity(k);
        let mut i: usize = 0;
        while i < k
            invariant
                i <= k,
                rows@.len() == i,
                forall|l: int| 0 <= l < i ==> (#[trigger] rows@[l])@.len() == 0,
            decreases k - i,
        {
            rows.push(Vec::with_capacity(n));
            i += 1;
        }
        proof {
            assert(rows_of(source@).len() == self.from().moduli().len());
            assert forall|l: int| 0 <= l < source@.len() implies (#[trigger] source@[l])@.len()
                == n by {
                assert(rows_of(source@)[l].len() == n);
            }
        }
        let mut j: usize = 0;
        while j < n
            invariant
                self.wf(),
                p.wf(),
                j <= n,
                n == self.from().degree(),
                k == self.to().moduli().len(),
                rows_of(source@) == p.rows(),
                source@.len() == self.from().moduli().len(),
                forall|l: int| 0 <= l < source@.len() ==> (#[trigger] source@[l])@.len() == n,
                want == scaled_rows(
                    p.rows(),
                    self.from(),
                    self.to(),
                    self.num(),
                    self.den(),
                    floor,
                ),
                rows@.len() == k,
                forall|l: int| 0 <= l < k ==> (#[trigger] rows@[l])@.len() == j,
                forall|l: int, t: int|
                    0 <= l < k && 0 <= t < j ==> (#[trigger] rows@[l]@[t]) == want[l][t],
            decreases n - j,
        {
            let col = gather_column(source, j);
            let scaled = self.scale_coefficient(col.as_slice(), floor);
            let ghost before = rows@;
            let mut i: usize = 0;
            while i < k
                invariant
                    i <= k,
                    j < n,
                    n == self.from().degree(),
                    k == self.to().moduli().len(),
                    k == scaled@.len(),
                    rows@.len() == k,
                    before.len() == k,
                    forall|l: int| 0 <= l < k ==> (#[trigger] before[l])@.len() == j,
                    forall|l: int, t: int|
                        0 <= l < k && 0 <= t < j ==> (#[trigger] before[l]@[t]) == want[l][t],
                    forall|l: int| 0 <= l < k ==> (#[trigger] scaled@[l]) == want[l][j as int],
                    forall|l: int| i <= l < k ==> #[trigger] rows@[l] == before[l],
                    forall|l: int|
                        0 <= l < i ==> (#[trigger] rows@[l])@ == before[l]@.push(scaled@[l]),
                decreases k - i,
            {
                rows[i].push(scaled[i]);
                i += 1;
            }
            j += 1;
        }
        proof {
            assert(rows_of(rows@) =~= want) by {
                assert forall|l: int| 0 <= l < k implies #[trigger] rows_of(rows@)[l]
                    =~= want[l] by {}
            }
            assert forall|l: int| 0 <= l < k implies (#[trigger] rows_of(rows@)[l]).len() == n
                && reduced(rows_of(rows@)[l], self.to().moduli()[l]) by {
                assert(2 <= self.to().moduli()[l]);
                assert forall|t: int| 0 <= t < n implies #[trigger] rows_of(rows@)[l][t]
                    < self.to().moduli()[l] by {
                    let value = scale_value(
                        centered_lift(
                            self.from().rns().lift_spec(column(p.rows(), t)),
                            self.from().rns().modulus_value(),
                        ),
                        self.num(),
                        self.den(),
                        floor,
                    );
                    lemma_mod_bound(value, self.to().moduli()[l] as int);
                    assert(rows_of(rows@)[l][t] == want[l][t]);
                }
            }
        }
        Ok(Poly::from_rows(&self.to, Representation::PowerBasis, p.is_variable_time(), rows))
    }
}

} // verus!
