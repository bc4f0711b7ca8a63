//! Residue number systems: a number modulo a product of moduli, held as its
//! residues modulo each of them.

use crate::bigint::BigNat;
use crate::errors::Error;
use crate::zq::Modulus;
use vstd::arithmetic::div_mod::*;
use vstd::prelude::*;

verus! {

/// The greatest common divisor, by Euclid's algorithm.
pub open spec fn gcd(a: nat, b: nat) -> nat
    decreases b,
{
    if b == 0 {
        a
    } else {
        gcd(b, a % b)
    }
}

/// The product of the numbers of `s`.
pub open spec fn product_of(s: Seq<u64>) -> nat
    decreases s.len(),
{
    if s.len() == 0 {
        1
    } else {
        product_of(s.drop_last()) * (s.last() as nat)
    }
}

/// The sum of the products `rests[i] * weights[i]`.
pub open spec fn weighted_sum(rests: Seq<u64>, weights: Seq<nat>) -> nat
    decreases rests.len(),
{
    if rests.len() == 0 || weights.len() == 0 {
        0
    } else {
        weighted_sum(rests.drop_last(), weights.drop_last()) + (rests.last() as nat)
            * weights.last()
    }
}

/// The greatest common divisor divides both numbers, and is positive where
/// one of them is.
pub proof fn lemma_gcd_divides(a: nat, b: nat)
    requires
        a > 0 || b > 0,
    ensures
        gcd(a, b) > 0,
        a % gcd(a, b) == 0,
        b % gcd(a, b) == 0,
    decreases b,
{
    if b == 0 {
        lemma_mod_self_0(a as int);
        lemma_small_mod(0, a);
    } else {
        lemma_gcd_divides(b, a % b);
        let g = gcd(a, b) as int;
        // a == b * (a / b) + a % b, and g divides both terms
        lemma_fundamental_div_mod(a as int, b as int);
        lemma_fundamental_div_mod(b as int, g);
        lemma_fundamental_div_mod((a % b) as int, g);
        let x = (b as int) / g;
        let y = ((a % b) as int) / g;
        assert(a == g * (x * (a as int / b as int) + y)) by (nonlinear_arith)
            requires
                a == (b as int) * (a as int / b as int) + (a % b),
                b == g * x,
                a % b == g * y,
        ;
        lemma_mod_multiples_basic(x * (a as int / b as int) + y, g);
        assert((x * (a as int / b as int) + y) * g == g * (x * (a as int / b as int) + y))
            by (nonlinear_arith);
    }
}

/// A prime is coprime to every positive number below it.
pub proof fn lemma_prime_is_coprime(p: nat, a: nat)
    requires
        crate::nfl::is_prime(p),
        0 < a < p,
    ensures
        gcd(p, a) == 1,
{
    lemma_gcd_divides(p, a);
    let g = gcd(p, a);
    // g divides a, so it is at most a
    lemma_fundamental_div_mod(a as int, g as int);
    let k = (a as int) / (g as int);
    assert(g <= a) by (nonlinear_arith)
        requires
            a == g * k,
            a > 0,
            g > 0,
    {
        assert(k >= 1);
    }
    if g >= 2 {
        assert(p % g != 0);
    }
}

/// One step of the congruence that the extended Euclidean algorithm keeps:
/// from `t0 * a = r0` and `t1 * a = r1` modulo `m` to the same for
/// `r0 - q * r1`.
proof fn lemma_euclid_step(a: int, m: int, r0: int, r1: int, t0: int, t1: int, q: int, t2: int)
    requires
        m > 0,
        (t0 * a) % m == r0 % m,
        (t1 * a) % m == r1 % m,
        t2 == (t0 + m - (q * t1) % m) % m,
    ensures
        (t2 * a) % m == (r0 - q * r1) % m,
{
    let u = (q * t1) % m;
    // t2 * a == (t0 - q * t1) * a (mod m)
    lemma_mul_mod_noop_left(t0 + m - u, a, m);
    assert((t0 + m - u) * a == t0 * a + m * a - u * a) by (nonlinear_arith);
    lemma_mod_multiples_vanish(a, t0 * a - u * a, m);
    assert(m * a + (t0 * a - u * a) == t0 * a + m * a - u * a);
    // u * a == q * t1 * a == q * r1 (mod m)
    lemma_mul_mod_noop_left(q * t1, a, m);
    assert((q * t1) * a == q * (t1 * a)) by (nonlinear_arith);
    lemma_mul_mod_noop_right(q, t1 * a, m);
    lemma_mul_mod_noop_right(q, r1, m);
    lemma_sub_mod_noop(t0 * a, u * a, m);
    lemma_sub_mod_noop(r0, q * r1, m);
}

/// The inverse of `a` modulo `m`, if the two are coprime.
pub fn inv_mod(a: u64, m: u64) -> (r: Option<u64>)
    requires
        2 <= m < 0x4000_0000_0000_0000,
        a < m,
    ensures
        r.is_some() <==> gcd(m as nat, a as nat) == 1,
        r matches Some(x) ==> x < m && (a * x) % (m as int) == 1,
{
    let mut r0: u64 = m;
    let mut r1: u64 = a;
    let mut t0: u64 = 0;
    let mut t1: u64 = 1;
    proof {
        lemma_mod_self_0(m as int);
        lemma_small_mod(a as nat, m as nat);
        assert(0 * a == 0);
        lemma_small_mod(0, m as nat);
    }
    while r1 != 0
        invariant
            2 <= m < 0x4000_0000_0000_0000,
            r0 <= m,
            r1 <= m,
            t0 < m,
            t1 < m,
            gcd(r0 as nat, r1 as nat) == gcd(m as nat, a as nat),
            (t0 * a) % (m as int) == r0 % m,
            (t1 * a) % (m as int) == r1 % m,
        decreases r1,
    {
        let q: u64 = r0 / r1;
        let r2: u64 = r0 % r1;
        proof {
            lemma_fundamental_div_mod(r0 as int, r1 as int);
            assert(q * t1 <= 0xffff_ffff_ffff_ffff * 0x4000_0000_0000_0000) by (nonlinear_arith)
                requires
                    0 <= q <= 0xffff_ffff_ffff_ffff,
                    0 <= t1 <= 0x4000_0000_0000_0000,
            ;
            lemma_mod_bound(q * t1, m as int);
        }
        let u: u64 = (((q as u128) * (t1 as u128)) % (m as u128)) as u64;
        let t2: u64 = (((t0 as u128) + (m as u128) - (u as u128)) % (m as u128)) as u64;
        proof {
            lemma_euclid_step(
                a as int,
                m as int,
                r0 as int,
                r1 as int,
                t0 as int,
                t1 as int,
                q as int,
                t2 as int,
            );
            assert(r0 - q * r1 == r2) by (nonlinear_arith)
                requires
                    r0 == r1 * q + r2,
            ;
        }
        r0 = r1;
        r1 = r2;
        t0 = t1;
        t1 = t2;
    }
    if r0 == 1 {
        proof {
            lemma_small_mod(1, m as nat);
            assert(a * t0 == t0 * a) by (nonlinear_arith);
        }
        Some(t0)
    } else {
        None
    }
}

/// Whether the moduli are all in `[2, 2^62)`.
pub open spec fn all_in_range(moduli: Seq<u64>) -> bool {
    forall|i: int| 0 <= i < moduli.len() ==> 2 <= #[trigger] moduli[i] < 0x4000_0000_0000_0000
}

/// Whether each modulus is coprime to the product of the others.
pub open spec fn pairwise_coprime(moduli: Seq<u64>) -> bool {
    forall|i: int|
        0 <= i < moduli.len() ==> gcd(
            (#[trigger] moduli[i]) as nat,
            (product_of(moduli) / (moduli[i] as nat)) % (moduli[i] as nat),
        ) == 1
}

/// The description of the reason for which the moduli form no residue
/// number system.
pub open spec fn rns_error_text(moduli: Seq<u64>) -> Seq<char> {
    if moduli.len() == 0 {
        "The list of moduli is empty"@
    } else if !all_in_range(moduli) {
        crate::errors::invalid_modulus_text()
    } else {
        "The moduli are not coprime"@
    }
}

/// A product of positive numbers is positive.
pub proof fn lemma_product_positive(s: Seq<u64>)
    requires
        forall|i: int| 0 <= i < s.len() ==> #[trigger] s[i] >= 1,
    ensures
        product_of(s) >= 1,
    decreases s.len(),
{
    if s.len() > 0 {
        lemma_product_positive(s.drop_last());
        assert(product_of(s.drop_last()) * (s.last() as nat) >= 1) by (nonlinear_arith)
            requires
                product_of(s.drop_last()) >= 1,
                s.last() >= 1,
        ;
    }
}

/// A residue number system over a list of pairwise coprime moduli.
#[derive(Clone, Debug)]
pub struct RnsContext {
    moduli_u64: Vec<u64>,
    moduli: Vec<Modulus>,
    q_tilde: Vec<u64>,
    garner: Vec<BigNat>,
    product: BigNat,
}

impl RnsContext {
    /// The moduli.
    pub closed spec fn moduli(&self) -> Seq<u64> {
        self.moduli_u64@
    }

    /// The product of the moduli.
    pub closed spec fn modulus_value(&self) -> nat {
        self.product@
    }

    /// The inverses of the products of the other moduli, each modulo its
    /// own modulus.
    pub closed spec fn inverses(&self) -> Seq<u64> {
        self.q_tilde@
    }

    /// The Garner coefficients: for each modulus, the product of the others
    /// times the inverse of that product modulo it.
    pub closed spec fn garner_values(&self) -> Seq<nat> {
        Seq::new(self.garner@.len(), |i: int| self.garner@[i]@)
    }

    /// The tables agree with the moduli.
    pub closed spec fn tables_ok(&self) -> bool {
        &&& self.moduli@.len() == self.moduli_u64@.len()
        &&& self.garner@.len() == self.moduli_u64@.len()
        &&& forall|i: int|
            0 <= i < self.moduli@.len() ==> (#[trigger] self.moduli@[i]).wf()
                && self.moduli@[i].spec_modulus() == self.moduli_u64@[i]
    }

    /// Well-formedness: there is at least one modulus, all are in range, and
    /// the Garner coefficients belong to them.
    pub open spec fn wf(&self) -> bool {
        &&& self.moduli().len() > 0
        &&& all_in_range(self.moduli())
        &&& self.modulus_value() == product_of(self.moduli())
        &&& self.modulus_value() >= 1
        &&& self.inverses().len() == self.moduli().len()
        &&& self.garner_values().len() == self.moduli().len()
        &&& forall|i: int|
            0 <= i < self.moduli().len() ==> {
                &&& (#[trigger] self.inverses()[i]) < self.moduli()[i]
                &&& (((self.modulus_value() / (self.moduli()[i] as nat)) % (
                self.moduli()[i] as nat)) * (self.inverses()[i] as nat)) % (
                self.moduli()[i] as nat) == 1
                &&& self.garner_values()[i] == (self.modulus_value() / (self.moduli()[i] as nat))
                    * (self.inverses()[i] as nat)
            }
        &&& self.tables_ok()
    }

    /// The number below the product of the moduli that Garner's formula
    /// gives for the residues `rests`.
    pub open spec fn lift_spec(&self, rests: Seq<u64>) -> nat {
        weighted_sum(rests, self.garner_values()) % self.modulus_value()
    }

    /// The residue number system of `moduli`. Fails where the list is empty,
    /// a modulus is not in `[2, 2^62)`, or the moduli are not pairwise
    /// coprime.
    pub fn new(moduli: &[u64]) -> (r: Result<RnsContext, Error>)
        ensures
            r.is_ok() <==> (moduli@.len() > 0 && all_in_range(moduli@) && pairwise_coprime(
                moduli@,
            )),
            r matches Ok(rns) ==> rns.wf() && rns.moduli() == moduli@,
            r matches Err(e) ==> e.text() == rns_error_text(moduli@),
    {
        let k = moduli.len();
        if k == 0 {
            return Err(Error::other("The list of moduli is empty"));
        }
        let mut moduli_u64: Vec<u64> = Vec::with_capacity(k);
        let mut q: Vec<Modulus> = Vec::with_capacity(k);
        let mut product = BigNat::from_u64(1);
        let mut i: usize = 0;
        while i < k
            invariant
                i <= k,
                k == moduli@.len(),
                moduli_u64@ == moduli@.subrange(0, i as int),
                q@.len() == i,
                forall|j: int| 0 <= j < i ==> 2 <= #[trigger] moduli@[j] < 0x4000_0000_0000_0000,
                forall|j: int|
                    0 <= j < i ==> (#[trigger] q@[j]).wf() && q@[j].spec_modulus() == moduli@[j],
                product@ == product_of(moduli@.subrange(0, i as int)),
            decreases k - i,
        {
            match Modulus::new(moduli[i]) {
                Err(e) => {
                    return Err(e);
                },
                Ok(m) => {
                    proof {
                        assert(moduli@.subrange(0, i + 1).drop_last() =~= moduli@.subrange(
                            0,
                            i as int,
                        ));
                    }
                    product = product.mul(&BigNat::from_u64(moduli[i]));
                    moduli_u64.push(moduli[i]);
                    q.push(m);
                },
            }
            i += 1;
        }
        proof {
            assert(moduli@.subrange(0, k as int) =~= moduli@);
            lemma_product_positive(moduli@);
        }
        let mut q_tilde: Vec<u64> = Vec::with_capacity(k);
        let mut garner: Vec<BigNat> = Vec::with_capacity(k);
        let mut i: usize = 0;
        while i < k
            invariant
                i <= k,
                k == moduli@.len(),
                all_in_range(moduli@),
                product@ == product_of(moduli@),
                q_tilde@.len() == i,
                garner@.len() == i,
                forall|j: int|
                    0 <= j < i ==> gcd(
                        (#[trigger] moduli@[j]) as nat,
                        (product@ / (moduli@[j] as nat)) % (moduli@[j] as nat),
                    ) == 1,
                forall|j: int|
                    0 <= j < i ==> {
                        &&& (#[trigger] q_tilde@[j]) < moduli@[j]
                        &&& (((product@ / (moduli@[j] as nat)) % (moduli@[j] as nat)) * (
                        q_tilde@[j] as nat)) % (moduli@[j] as nat) == 1
                        &&& garner@[j]@ == (product@ / (moduli@[j] as nat)) * (
                        q_tilde@[j] as nat)
                    },
            decreases k - i,
        {
            let qi = BigNat::from_u64(moduli[i]);
            let (q_star, _) = product.div_rem(&qi).unwrap();
            let (_, rest) = q_star.div_rem(&qi).unwrap();
            proof {
                lemma_mod_bound(q_star@ as int, moduli@[i as int] as int);
            }
            let a = rest.to_u64().unwrap();
            match inv_mod(a, moduli[i]) {
                None => {
                    return Err(Error::other("The moduli are not coprime"));
                },
                Some(x) => {
                    garner.push(q_star.mul(&BigNat::from_u64(x)));
                    q_tilde.push(x);
                },
            }
            i += 1;
        }
        let rns = RnsContext { moduli_u64, moduli: q, q_tilde, garner, product };
        proof {
            assert(rns.garner_values().len() == k);
            assert(rns.moduli() =~= moduli@);
        }
        Ok(rns)
    }

    /// The product of the moduli.
    pub fn modulus(&self) -> (r: &BigNat)
        ensures
            r@ == self.modulus_value(),
    {
        &self.product
    }

    /// The Garner coefficient of the modulus of index `i`, if there is one.
    pub fn get_garner(&self, i: usize) -> (r: Option<&BigNat>)
        requires
            self.wf(),
        ensures
            r.is_some() <==> i < self.moduli().len(),
            r matches Some(g) ==> g@ == self.garner_values()[i as int],
    {
        if i < self.garner.len() {
            Some(&self.garner[i])
        } else {
            None
        }
    }

    /// The residues of `a` modulo each modulus.
    pub fn project(&self, a: &BigNat) -> (r: Vec<u64>)
        requires
            self.wf(),
        ensures
            r@.len() == self.moduli().len(),
            forall|i: int|
                0 <= i < r@.len() ==> (#[trigger] r@[i]) as nat == a@ % (self.moduli()[i] as nat),
    {
        let k = self.moduli_u64.len();
        let mut r: Vec<u64> = Vec::with_capacity(k);
        let mut i: usize = 0;
        while i < k
            invariant
                self.wf(),
                i <= k,
                k == self.moduli_u64@.len(),
                r@.len() == i,
                forall|j: int|
                    0 <= j < i ==> (#[trigger] r@[j]) as nat == a@ % (self.moduli_u64@[j] as nat),
            decreases k - i,
        {
            let qi = BigNat::from_u64(self.moduli_u64[i]);
            let (_, rest) = a.div_rem(&qi).unwrap();
            proof {
                assert(2 <= self.moduli()[i as int]);
                lemma_mod_bound(a@ as int, self.moduli_u64@[i as int] as int);
            }
            r.push(rest.to_u64().unwrap());
            i += 1;
        }
        r
    }

    /// The number below the product of the moduli with the residues `rests`,
    /// by Garner's formula.
    pub fn lift(&self, rests: &[u64]) -> (r: BigNat)
        requires
            self.wf(),
            rests@.len() == self.moduli().len(),
        ensures
            r@ == self.lift_spec(rests@),
            r@ < self.modulus_value(),
            forall|i: int|
                0 <= i < rests@.len() ==> r@ % (#[trigger] self.moduli()[i] as nat)
                    == rests@[i] as nat % (self.moduli()[i] as nat),
    {
        let k = rests.len();
        let mut sum = BigNat::from_u64(0);
        let mut i: usize = 0;
        while i < k
            invariant
                self.wf(),
                i <= k,
                k == rests@.len(),
                k == self.garner@.len(),
                sum@ == weighted_sum(
                    rests@.subrange(0, i as int),
                    self.garner_values().subrange(0, i as int),
                ),
            decreases k - i,
        {
            proof {
                assert(rests@.subrange(0, i + 1).drop_last() =~= rests@.subrange(0, i as int));
                assert(self.garner_values().subrange(0, i + 1).drop_last()
                    =~= self.garner_values().subrange(0, i as int));
            }
            sum = sum.add(&self.garner[i].mul(&BigNat::from_u64(rests[i])));
            proof {
                assert(self.garner@[i as int]@ * (rests@[i as int] as nat) == (
                rests@[i as int] as nat) * self.garner_values()[i as int]) by (nonlinear_arith)
                    requires
                        self.garner@[i as int]@ == self.garner_values()[i as int],
                ;
            }
            i += 1;
        }
        proof {
            assert(rests@.subrange(0, k as int) =~= rests@);
            assert(self.garner_values().subrange(0, k as int) =~= self.garner_values());
            lemma_mod_bound(sum@ as int, self.product@ as int);
        }
        let (_, r) = sum.div_rem(&self.product).unwrap();
        proof {
            assert forall|i: int| 0 <= i < rests@.len() implies r@ % (
            #[trigger] self.moduli()[i] as nat) == rests@[i] as nat % (self.moduli()[i] as nat) by {
                self.lemma_lift_residues(rests@, i);
            }
        }
        r
    }
}

/// A product is a multiple of each of its factors.
pub proof fn lemma_factor_divides(s: Seq<u64>, i: int)
    requires
        0 <= i < s.len(),
        forall|j: int| 0 <= j < s.len() ==> #[trigger] s[j] >= 1,
    ensures
        product_of(s) % (s[i] as nat) == 0,
    decreases s.len(),
{
    let rest = product_of(s.drop_last()) as int;
    let last = s.last() as int;
    let d = s[i] as int;
    if i == s.len() - 1 {
        lemma_mod_multiples_basic(rest, last);
    } else {
        lemma_factor_divides(s.drop_last(), i);
        lemma_mul_mod_noop_left(rest, last, d);
        assert(0 * last == 0);
        lemma_small_mod(0, d as nat);
    }
}

/// A product is a multiple of the product of any two of its factors.
pub proof fn lemma_two_factors_divide(s: Seq<u64>, i: int, j: int)
    requires
        0 <= i < s.len(),
        0 <= j < s.len(),
        i != j,
        forall|l: int| 0 <= l < s.len() ==> #[trigger] s[l] >= 1,
    ensures
        product_of(s) % ((s[i] as nat) * (s[j] as nat)) == 0,
    decreases s.len(),
{
    let rest = product_of(s.drop_last()) as int;
    let last = s.last() as int;
    let a = s[i] as int;
    let b = s[j] as int;
    assert(a * b >= 1) by (nonlinear_arith)
        requires
            a >= 1,
            b >= 1,
    ;
    if i < s.len() - 1 && j < s.len() - 1 {
        lemma_two_factors_divide(s.drop_last(), i, j);
        lemma_mul_mod_noop_left(rest, last, a * b);
        assert(0 * last == 0);
        lemma_small_mod(0, (a * b) as nat);
    } else {
        // one of the two is the last factor
        let other = if i == s.len() - 1 {
            j
        } else {
            i
        };
        let c = s[other] as int;
        lemma_factor_divides(s.drop_last(), other);
        lemma_fundamental_div_mod(rest, c);
        assert(c * last == a * b) by (nonlinear_arith)
            requires
                (c == a && last == b) || (c == b && last == a),
        ;
        assert(rest * last == (rest / c) * (a * b)) by (nonlinear_arith)
            requires
                rest == c * (rest / c),
                c * last == a * b,
        ;
        lemma_mod_multiples_basic(rest / c, a * b);
    }
}

/// The product of the other factors is a multiple of every factor but the
/// one left out.
pub proof fn lemma_other_factors(s: Seq<u64>, i: int, j: int)
    requires
        0 <= i < s.len(),
        0 <= j < s.len(),
        i != j,
        forall|l: int| 0 <= l < s.len() ==> #[trigger] s[l] >= 1,
    ensures
        (product_of(s) / (s[j] as nat)) % (s[i] as nat) == 0,
{
    let q = product_of(s) as int;
    let a = s[i] as int;
    let b = s[j] as int;
    assert(a * b >= 1) by (nonlinear_arith)
        requires
            a >= 1,
            b >= 1,
    ;
    lemma_two_factors_divide(s, i, j);
    lemma_fundamental_div_mod(q, a * b);
    let c = q / (a * b);
    assert(q == b * (c * a)) by (nonlinear_arith)
        requires
            q == (a * b) * c,
    ;
    lemma_div_multiples_vanish(c * a, b);
    lemma_mod_multiples_basic(c, a);
}

/// A sum of products of which all weights but one are multiples of `q`,
/// and that one is 1 modulo `q`, is congruent to the factor of that weight.
pub proof fn lemma_weighted_sum_residue(rests: Seq<u64>, weights: Seq<nat>, q: int, i: int)
    requires
        q > 0,
        rests.len() == weights.len(),
        forall|j: int|
            0 <= j < weights.len() ==> (#[trigger] weights[j]) as int % q == (if j == i {
                1int % q
            } else {
                0int
            }),
    ensures
        weighted_sum(rests, weights) as int % q == (if 0 <= i < rests.len() {
            rests[i] as int % q
        } else {
            0int
        }),
    decreases rests.len(),
{
    if rests.len() == 0 {
        lemma_small_mod(0, q as nat);
    } else {
        let m = rests.len() - 1;
        let head = weighted_sum(rests.drop_last(), weights.drop_last()) as int;
        let r = rests.last() as int;
        let w = weights.last() as int;
        lemma_weighted_sum_residue(rests.drop_last(), weights.drop_last(), q, i);
        lemma_add_mod_noop(head, r * w, q);
        lemma_mul_mod_noop_right(r, w, q);
        lemma_small_mod(0, q as nat);
        if i == m {
            lemma_mul_mod_noop_right(r, 1, q);
            assert(r * 1 == r);
            lemma_mod_twice(r, q);
        } else {
            assert(r * 0 == 0);
            if 0 <= i < m {
                lemma_mod_twice(rests[i] as int, q);
            }
        }
    }
}

impl RnsContext {
    /// The number that Garner's formula gives has the residues it was made
    /// of: modulo each modulus, it is congruent to the residue of that
    /// modulus.
    pub proof fn lemma_lift_residues(&self, rests: Seq<u64>, i: int)
        requires
            self.wf(),
            rests.len() == self.moduli().len(),
            0 <= i < rests.len(),
        ensures
            self.lift_spec(rests) % (self.moduli()[i] as nat) == rests[i] as nat % (
            self.moduli()[i] as nat),
    {
        let m = self.moduli();
        let q = m[i] as int;
        let big = self.modulus_value() as int;
        let g = self.garner_values();
        assert forall|j: int| 0 <= j < m.len() implies #[trigger] m[j] >= 1 by {}
        assert forall|j: int| 0 <= j < g.len() implies (#[trigger] g[j]) as int % q == (if j
            == i {
            1int % q
        } else {
            0int
        }) by {
            let star = (self.modulus_value() / (m[j] as nat)) as int;
            let t = self.inverses()[j] as int;
            assert(g[j] == star * t);
            lemma_mul_mod_noop_left(star, t, q);
            if j == i {
                lemma_small_mod(1, q as nat);
            } else {
                lemma_other_factors(m, i, j);
                assert(0 * t == 0);
                lemma_small_mod(0, q as nat);
            }
        }
        lemma_weighted_sum_residue(rests, g, q, i);
        // the product of the moduli is a multiple of the modulus
        lemma_factor_divides(m, i);
        lemma_fundamental_div_mod(big, q);
        lemma_div_pos_is_pos(big, q);
        if big / q == 0 {
            assert(big == 0);
        }
        lemma_mod_mod(weighted_sum(rests, g) as int, q, big / q);
    }
}

impl RnsContext {
    /// Modulo a modulus, its own Garner coefficient is one, and that of any
    /// other modulus is zero.
    pub proof fn lemma_garner_residue(&self, i: int, j: int)
        requires
            self.wf(),
            0 <= i < self.moduli().len(),
            0 <= j < self.moduli().len(),
        ensures
            self.garner_values()[j] as int % (self.moduli()[i] as int) == (if j == i {
                1int
            } else {
                0int
            }),
    {
        let m = self.moduli();
        let q = m[i] as int;
        let g = self.garner_values();
        assert forall|l: int| 0 <= l < m.len() implies #[trigger] m[l] >= 1 by {}
        let star = (self.modulus_value() / (m[j] as nat)) as int;
        let t = self.inverses()[j] as int;
        assert(g[j] == star * t);
        lemma_mul_mod_noop_left(star, t, q);
        assert(2 <= m[i]);
        if j == i {
            lemma_small_mod(1, q as nat);
        } else {
            lemma_other_factors(m, i, j);
            assert(0 * t == 0);
            lemma_small_mod(0, q as nat);
        }
    }
}

/// The product of two lists put together is the product of their products.
pub proof fn lemma_product_concat(a: Seq<u64>, b: Seq<u64>)
    ensures
        product_of(a + b) == product_of(a) * product_of(b),
    decreases b.len(),
{
    if b.len() == 0 {
        assert(a + b =~= a);
        assert(product_of(a) * 1 == product_of(a));
    } else {
        lemma_product_concat(a, b.drop_last());
        assert((a + b).drop_last() =~= a + b.drop_last());
        assert((a + b).last() == b.last());
        let x = product_of(a) as int;
        let y = product_of(b.drop_last()) as int;
        let l = b.last() as int;
        assert((x * y) * l == x * (y * l)) by (nonlinear_arith);
    }
}

/// The product of the numbers before the index `m`.
pub open spec fn product_before(s: Seq<u64>, m: int) -> nat {
    product_of(s.subrange(0, m))
}

/// The product of the numbers behind the index `m`.
pub open spec fn product_behind(s: Seq<u64>, m: int) -> nat {
    product_of(s.subrange(m + 1, s.len() as int))
}

/// The product of all the numbers but one is the product of those before it
/// times the product of those behind it.
pub proof fn lemma_product_without(s: Seq<u64>, m: int)
    requires
        0 <= m < s.len(),
        forall|l: int| 0 <= l < s.len() ==> #[trigger] s[l] >= 1,
    ensures
        product_of(s) == product_before(s, m) * (s[m] as nat) * product_behind(s, m),
        product_of(s) / (s[m] as nat) == product_before(s, m) * product_behind(s, m),
        product_before(s, m + 1) == product_before(s, m) * (s[m] as nat),
{
    let before = s.subrange(0, m);
    let upto = s.subrange(0, m + 1);
    let behind = s.subrange(m + 1, s.len() as int);
    assert(upto.drop_last() =~= before);
    assert(upto.last() == s[m]);
    assert(s =~= upto + behind);
    lemma_product_concat(upto, behind);
    let x = product_of(before) as int;
    let y = product_of(behind) as int;
    let q = s[m] as int;
    assert((x * q) * y == q * (x * y)) by (nonlinear_arith);
    lemma_div_multiples_vanish(x * y, q);
}

impl RnsContext {
    /// A number that is a multiple of every modulus is a multiple of the
    /// product of the moduli before any index.
    pub proof fn lemma_multiple_of_products(&self, d: int, m: int)
        requires
            self.wf(),
            0 <= m <= self.moduli().len(),
            forall|i: int| 0 <= i < self.moduli().len() ==> d % (#[trigger] self.moduli()[i] as int) == 0,
        ensures
            product_before(self.moduli(), m) >= 1,
            d % (product_before(self.moduli(), m) as int) == 0,
        decreases m,
    {
        let s = self.moduli();
        assert forall|l: int| 0 <= l < s.len() implies #[trigger] s[l] >= 1 by {}
        if m == 0 {
            assert(s.subrange(0, 0).len() == 0);
            assert(product_before(s, 0) == 1);
            assert(d % 1 == 0);
        } else {
            let i = m - 1;
            self.lemma_multiple_of_products(d, i);
            lemma_product_without(s, i);
            let pm = product_before(s, i) as int;
            let sm = product_behind(s, i) as int;
            let q = s[i] as int;
            let t = self.inverses()[i] as int;
            // d == pm * u
            lemma_fundamental_div_mod(d, pm);
            let u = d / pm;
            assert(d == pm * u);
            // pm * sm * t is 1 modulo q
            let star = (self.modulus_value() / (s[i] as nat)) as int;
            assert(star == pm * sm);
            lemma_mul_mod_noop_left(star, t, q);
            assert((star * t) % q == 1);
            // so u == u * (star * t) == d * (sm * t) == 0 modulo q
            lemma_mul_mod_noop_right(u, star * t, q);
            assert(u * 1 == u);
            assert(u * (star * t) == d * (sm * t)) by (nonlinear_arith)
                requires
                    star == pm * sm,
                    d == pm * u,
            ;
            lemma_mul_mod_noop_left(d, sm * t, q);
            assert(0 * (sm * t) == 0);
            lemma_small_mod(0, q as nat);
            assert(u % q == 0);
            // d == (pm * q) * (u / q)
            lemma_fundamental_div_mod(u, q);
            assert(d == (pm * q) * (u / q)) by (nonlinear_arith)
                requires
                    d == pm * u,
                    u == q * (u / q),
            ;
            assert(pm * q >= 1) by (nonlinear_arith)
                requires
                    pm >= 1,
                    q >= 1,
            ;
            lemma_mod_multiples_basic(u / q, pm * q);
        }
    }

    /// Two numbers below the product of the moduli with the same residues
    /// are the same number.
    pub proof fn lemma_residues_determine(&self, x: int, y: int)
        requires
            self.wf(),
            0 <= x < self.modulus_value(),
            0 <= y < self.modulus_value(),
            forall|i: int|
                0 <= i < self.moduli().len() ==> x % (#[trigger] self.moduli()[i] as int) == y % (
                self.moduli()[i] as int),
        ensures
            x == y,
    {
        let s = self.moduli();
        let big = self.modulus_value() as int;
        let d = if x >= y {
            x - y
        } else {
            y - x
        };
        assert forall|i: int| 0 <= i < s.len() implies d % (#[trigger] s[i] as int) == 0 by {
            let q = s[i] as int;
            lemma_sub_mod_noop(x, y, q);
            lemma_sub_mod_noop(y, x, q);
            lemma_small_mod(0, q as nat);
        }
        self.lemma_multiple_of_products(d, s.len() as int);
        assert(s.subrange(0, s.len() as int) =~= s);
        lemma_small_mod(d as nat, big as nat);
    }

    /// Garner's formula gives back a number from its residues: the number
    /// it gives for the residues of `x` is `x` modulo the product of the
    /// moduli.
    pub proof fn lemma_lift_of_residues(&self, x: int, rests: Seq<u64>)
        requires
            self.wf(),
            rests.len() == self.moduli().len(),
            forall|i: int|
                0 <= i < rests.len() ==> (#[trigger] rests[i]) as int == x % (
                self.moduli()[i] as int),
        ensures
            self.lift_spec(rests) as int == x % (self.modulus_value() as int),
    {
        let s = self.moduli();
        let big = self.modulus_value() as int;
        let y = self.lift_spec(rests) as int;
        let z = x % big;
        lemma_mod_bound(x, big);
        lemma_mod_bound(weighted_sum(rests, self.garner_values()) as int, big);
        assert forall|l: int| 0 <= l < s.len() implies #[trigger] s[l] >= 1 by {}
        assert forall|i: int| 0 <= i < s.len() implies y % (#[trigger] s[i] as int) == z % (
        s[i] as int) by {
            let q = s[i] as int;
            self.lemma_lift_residues(rests, i);
            lemma_mod_twice(x, q);
            // the product of the moduli is a multiple of the modulus
            lemma_factor_divides(s, i);
            lemma_fundamental_div_mod(big, q);
            lemma_div_pos_is_pos(big, q);
            if big / q == 0 {
                assert(big == 0);
            }
            lemma_mod_mod(x, q, big / q);
        }
        self.lemma_residues_determine(y, z);
    }
}

} // verus!
