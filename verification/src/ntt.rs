//! The negacyclic number-theoretic transform modulo a prime.
//!
//! The transform is defined by its radix-2 recursion over a table of
//! twiddle factors: the block at node `k` of the recursion tree is combined
//! with the factor `tw[k]`, and its halves are the nodes `2k` and `2k + 1`.
//! The forward transform takes coefficients in natural order to values in
//! bit-reversed order, and the backward transform undoes it.

use crate::arith::shoup_ratio;
use crate::nfl::{spec_supports_ntt, supports_ntt};
use crate::zq::{pow_mod, reduced, Modulus};
use concrete_ntt::prime64::Plan;
use vstd::arithmetic::div_mod::*;
use vstd::arithmetic::power2::is_pow2;
use vstd::prelude::*;

verus! {

/// The sums `a[j] + s * a[j + h]` modulo `p` of the two halves of `a`.
pub open spec fn butterfly_sum(a: Seq<u64>, s: u64, p: u64) -> Seq<u64> {
    Seq::new(
        (a.len() / 2) as nat,
        |j: int| ((a[j] + s * a[j + a.len() / 2]) % (p as int)) as u64,
    )
}

/// The differences `a[j] - s * a[j + h]` modulo `p` of the two halves of `a`.
pub open spec fn butterfly_diff(a: Seq<u64>, s: u64, p: u64) -> Seq<u64> {
    Seq::new(
        (a.len() / 2) as nat,
        |j: int| ((a[j] - s * a[j + a.len() / 2]) % (p as int)) as u64,
    )
}

/// The forward transform of the block `a` that stands at node `k`.
pub open spec fn forward_at(a: Seq<u64>, tw: Seq<u64>, k: int, p: u64) -> Seq<u64>
    decreases a.len(),
{
    if a.len() <= 1 {
        a
    } else {
        forward_at(butterfly_sum(a, tw[k], p), tw, 2 * k, p) + forward_at(
            butterfly_diff(a, tw[k], p),
            tw,
            2 * k + 1,
            p,
        )
    }
}

/// The halves `lo` and `hi` joined by the inverse butterfly with factor `s`:
/// `lo[j] + hi[j]` in the first half and `(lo[j] - hi[j]) * s` in the second,
/// modulo `p`.
pub open spec fn butterfly_join(lo: Seq<u64>, hi: Seq<u64>, s: u64, p: u64) -> Seq<u64> {
    Seq::new(
        lo.len() + hi.len(),
        |j: int|
            if j < lo.len() {
                ((lo[j] + hi[j]) % (p as int)) as u64
            } else {
                (((lo[j - lo.len()] - hi[j - lo.len()]) * s) % (p as int)) as u64
            },
    )
}

/// The backward transform of the block `a` that stands at node `k`, without
/// the division by the size.
pub open spec fn backward_at(a: Seq<u64>, tw_inv: Seq<u64>, k: int, p: u64) -> Seq<u64>
    decreases a.len(),
{
    if a.len() <= 1 {
        a
    } else {
        let h = (a.len() / 2) as int;
        butterfly_join(
            backward_at(a.subrange(0, h), tw_inv, 2 * k, p),
            backward_at(a.subrange(h, a.len() as int), tw_inv, 2 * k + 1, p),
            tw_inv[k],
            p,
        )
    }
}

/// Every element of `a` multiplied by `c` modulo `p`.
pub open spec fn scaled(a: Seq<u64>, c: u64, p: u64) -> Seq<u64> {
    Seq::new(a.len(), |j: int| ((a[j] * c) % (p as int)) as u64)
}

/// `shoup[i]` is the Shoup constant of `v[i]`, for every index.
pub open spec fn shoup_of(shoup: Seq<u64>, v: Seq<u64>, p: u64) -> bool {
    &&& shoup.len() == v.len()
    &&& forall|i: int|
        0 <= i < v.len() ==> (#[trigger] shoup[i]) as int == shoup_ratio(v[i] as int, p as int)
}

/// The length of a block, and the length of each transform of it.
pub proof fn lemma_transform_len(a: Seq<u64>, tw: Seq<u64>, k: int, p: u64)
    requires
        is_pow2(a.len() as int),
    ensures
        forward_at(a, tw, k, p).len() == a.len(),
        backward_at(a, tw, k, p).len() == a.len(),
    decreases a.len(),
{
    reveal(is_pow2);
    if a.len() > 1 {
        let h = (a.len() / 2) as int;
        lemma_transform_len(butterfly_sum(a, tw[k], p), tw, 2 * k, p);
        lemma_transform_len(butterfly_diff(a, tw[k], p), tw, 2 * k + 1, p);
        lemma_transform_len(a.subrange(0, h), tw, 2 * k, p);
        lemma_transform_len(a.subrange(h, a.len() as int), tw, 2 * k + 1, p);
    }
}

/// The reference transform: the tables of a prime modulus and a size.
#[derive(Clone, Debug)]
pub struct NativeNtt {
    p: Modulus,
    size: usize,
    psi: u64,
    tw: Vec<u64>,
    tw_shoup: Vec<u64>,
    tw_inv: Vec<u64>,
    tw_inv_shoup: Vec<u64>,
    size_inv: u64,
    size_inv_shoup: u64,
}

impl NativeNtt {
    /// The modulus.
    pub closed spec fn modulus(&self) -> u64 {
        self.p.spec_modulus()
    }

    /// The size of the transform.
    pub closed spec fn size(&self) -> nat {
        self.size as nat
    }

    /// The twiddle factors, by node.
    pub closed spec fn twiddles(&self) -> Seq<u64> {
        self.tw@
    }

    /// The inverses of the twiddle factors, by node.
    pub closed spec fn inverse_twiddles(&self) -> Seq<u64> {
        self.tw_inv@
    }

    /// The inverse of the size modulo `p`.
    pub closed spec fn size_inverse(&self) -> u64 {
        self.size_inv
    }

    /// The 2n-th root of unity that the twiddle factors are powers of.
    pub closed spec fn root(&self) -> u64 {
        self.psi
    }

    /// Well-formedness: the tables have one entry per node, each inverse
    /// table entry is the inverse of its twiddle factor, and the root has
    /// order `2n`.
    pub closed spec fn wf(&self) -> bool {
        &&& self.p.wf()
        &&& is_pow2(self.size as int)
        &&& 2 <= self.size < 0x4000_0000
        &&& self.size < self.p.spec_modulus()
        &&& self.tw@.len() == self.size
        &&& self.tw_inv@.len() == self.size
        &&& reduced(self.tw@, self.p.spec_modulus())
        &&& reduced(self.tw_inv@, self.p.spec_modulus())
        &&& shoup_of(self.tw_shoup@, self.tw@, self.p.spec_modulus())
        &&& shoup_of(self.tw_inv_shoup@, self.tw_inv@, self.p.spec_modulus())
        &&& forall|k: int|
            1 <= k < self.size ==> (#[trigger] self.tw@[k] * self.tw_inv@[k]) % (
            self.p.spec_modulus() as int) == 1
        &&& self.size_inv < self.p.spec_modulus()
        &&& (self.size_inv * self.size) % (self.p.spec_modulus() as int) == 1
        &&& self.size_inv_shoup as int == shoup_ratio(
            self.size_inv as int,
            self.p.spec_modulus() as int,
        )
        &&& self.psi < self.p.spec_modulus()
        &&& pow_mod(self.psi as int, self.size as nat, self.p.spec_modulus() as int)
            == self.p.spec_modulus() - 1
        &&& forall|k: int|
            0 <= k < self.size ==> (#[trigger] self.tw@[k]) as int == pow_mod(
                self.psi as int,
                twiddle_exponent(k as nat, self.size as nat),
                self.p.spec_modulus() as int,
            )
    }

    /// The forward transform of a whole vector.
    pub open spec fn forward_spec(&self, a: Seq<u64>) -> Seq<u64> {
        forward_at(a, self.twiddles(), 1, self.modulus())
    }

    /// The backward transform of a whole vector.
    pub open spec fn backward_spec(&self, a: Seq<u64>) -> Seq<u64> {
        scaled(
            backward_at(a, self.inverse_twiddles(), 1, self.modulus()),
            self.size_inverse(),
            self.modulus(),
        )
    }

    /// The forward transform of the block `a` at node `k`, in place.
    fn forward_block(&self, a: &mut [u64], k: usize, vt: bool)
        requires
            self.wf(),
            is_pow2(old(a)@.len() as int),
            (k + 1) * old(a)@.len() <= 2 * self.size,
            reduced(old(a)@, self.p.spec_modulus()),
        ensures
            final(a)@ == forward_at(old(a)@, self.tw@, k as int, self.p.spec_modulus()),
            final(a)@.len() == old(a)@.len(),
            reduced(final(a)@, self.p.spec_modulus()),
        decreases old(a)@.len(),
    {
        let len = a.len();
        if len <= 1 {
            return ;
        }
        proof {
            reveal(is_pow2);
            assert(k + 1 <= self.size) by (nonlinear_arith)
                requires
                    (k + 1) * len <= 2 * self.size,
                    len >= 2,
            ;
            assert((2 * k + 2) * (len / 2) <= 2 * self.size) by (nonlinear_arith)
                requires
                    (k + 1) * len <= 2 * self.size,
                    len == 2 * (len / 2),
            ;
            assert((2 * k + 1) * (len / 2) <= (2 * k + 2) * (len / 2)) by (nonlinear_arith)
                requires
                    len >= 0,
            ;
        }
        let h = len / 2;
        let s = self.tw[k];
        let s_shoup = self.tw_shoup[k];
        let ghost p = self.p.spec_modulus();
        let mut j: usize = 0;
        while j < h
            invariant
                self.wf(),
                p == self.p.spec_modulus(),
                j <= h,
                len == 2 * h,
                a@.len() == len,
                old(a)@.len() == len,
                k < self.size,
                s == self.tw@[k as int],
                s < p,
                s_shoup as int == shoup_ratio(s as int, p as int),
                reduced(old(a)@, p),
                forall|i: int| j <= i < h ==> #[trigger] a@[i] == old(a)@[i],
                forall|x: int| h + j <= x < len ==> #[trigger] a@[x] == old(a)@[x],
                forall|i: int|
                    0 <= i < j ==> #[trigger] a@[i] == butterfly_sum(old(a)@, s, p)[i] && a@[i]
                        < p,
                forall|x: int|
                    h <= x < h + j ==> #[trigger] a@[x] == butterfly_diff(old(a)@, s, p)[x - h]
                        && a@[x] < p,
            decreases h - j,
        {
            let u = a[j];
            let x = a[j + h];
            let v = if vt {
                self.p.mul_shoup_vt(x, s, s_shoup)
            } else {
                self.p.mul_shoup(x, s, s_shoup)
            };
            proof {
                lemma_mod_bound(x * s, p as int);
                lemma_add_mod_noop_right(u as int, s * x, p as int);
                lemma_sub_mod_noop_right(u as int, s * x, p as int);
                lemma_mod_bound(u + s * x, p as int);
                lemma_mod_bound(u - s * x, p as int);
                assert(x * s == s * x) by (nonlinear_arith);
            }
            if vt {
                a[j] = self.p.add_vt(u, v);
                a[j + h] = self.p.sub_vt(u, v);
            } else {
                a[j] = self.p.add(u, v);
                a[j + h] = self.p.sub(u, v);
            }
            j += 1;
        }
        proof {
            assert(a@.subrange(0, h as int) =~= butterfly_sum(old(a)@, s, p));
            assert(a@.subrange(h as int, len as int) =~= butterfly_diff(old(a)@, s, p));
            assert(is_pow2(h as int));
        }
        let (lo, hi) = a.split_at_mut(h);
        self.forward_block(lo, 2 * k, vt);
        self.forward_block(hi, 2 * k + 1, vt);
    }

    /// The backward transform of the block `a` at node `k`, in place and
    /// without the division by the size.
    fn backward_block(&self, a: &mut [u64], k: usize, vt: bool)
        requires
            self.wf(),
            is_pow2(old(a)@.len() as int),
            (k + 1) * old(a)@.len() <= 2 * self.size,
            reduced(old(a)@, self.p.spec_modulus()),
        ensures
            final(a)@ == backward_at(old(a)@, self.tw_inv@, k as int, self.p.spec_modulus()),
            final(a)@.len() == old(a)@.len(),
            reduced(final(a)@, self.p.spec_modulus()),
        decreases old(a)@.len(),
    {
        let len = a.len();
        if len <= 1 {
            return ;
        }
        proof {
            reveal(is_pow2);
            assert(k + 1 <= self.size) by (nonlinear_arith)
                requires
                    (k + 1) * len <= 2 * self.size,
                    len >= 2,
            ;
            assert((2 * k + 2) * (len / 2) <= 2 * self.size) by (nonlinear_arith)
                requires
                    (k + 1) * len <= 2 * self.size,
                    len == 2 * (len / 2),
            ;
            assert((2 * k + 1) * (len / 2) <= (2 * k + 2) * (len / 2)) by (nonlinear_arith)
                requires
                    len >= 0,
            ;
        }
        let h = len / 2;
        let ghost p = self.p.spec_modulus();
        let ghost lo0 = old(a)@.subrange(0, h as int);
        let ghost hi0 = old(a)@.subrange(h as int, len as int);
        {
            let (lo, hi) = a.split_at_mut(h);
            self.backward_block(lo, 2 * k, vt);
            self.backward_block(hi, 2 * k + 1, vt);
        }
        let ghost lo1 = backward_at(lo0, self.tw_inv@, 2 * k, p);
        let ghost hi1 = backward_at(hi0, self.tw_inv@, 2 * k + 1, p);
        let ghost mid = a@;
        proof {
            assert(mid =~= lo1 + hi1);
            assert(mid.len() == len);
        }
        let s = self.tw_inv[k];
        let s_shoup = self.tw_inv_shoup[k];
        let mut j: usize = 0;
        while j < h
            invariant
                self.wf(),
                p == self.p.spec_modulus(),
                j <= h,
                len == 2 * h,
                a@.len() == len,
                mid.len() == len,
                lo1.len() == h,
                hi1.len() == h,
                mid == lo1 + hi1,
                k < self.size,
                s == self.tw_inv@[k as int],
                s < p,
                s_shoup as int == shoup_ratio(s as int, p as int),
                reduced(mid, p),
                forall|i: int| j <= i < h ==> #[trigger] a@[i] == mid[i],
                forall|x: int| h + j <= x < len ==> #[trigger] a@[x] == mid[x],
                forall|i: int|
                    0 <= i < j ==> #[trigger] a@[i] == butterfly_join(lo1, hi1, s, p)[i] && a@[i]
                        < p,
                forall|x: int|
                    h <= x < h + j ==> #[trigger] a@[x] == butterfly_join(lo1, hi1, s, p)[x]
                        && a@[x] < p,
            decreases h - j,
        {
            let u = a[j];
            let v = a[j + h];
            proof {
                assert(mid[j as int] == lo1[j as int]);
                assert(mid[j + h] == hi1[j as int]);
                lemma_mod_bound(u + v, p as int);
                lemma_mod_bound((u - v) * s, p as int);
                lemma_mul_mod_noop_left(u - v, s as int, p as int);
            }
            if vt {
                a[j] = self.p.add_vt(u, v);
                a[j + h] = self.p.mul_shoup_vt(self.p.sub_vt(u, v), s, s_shoup);
            } else {
                a[j] = self.p.add(u, v);
                a[j + h] = self.p.mul_shoup(self.p.sub(u, v), s, s_shoup);
            }
            j += 1;
        }
        proof {
            assert(a@ =~= butterfly_join(lo1, hi1, s, p));
        }
    }
}

/// The exponent of the root that gives the twiddle factor of node `k` in a
/// transform of size `n`: the bits of `k` below its leading one, reversed.
pub open spec fn twiddle_exponent(k: nat, n: nat) -> nat
    decreases k,
{
    if k <= 1 {
        if k == 1 {
            n / 2
        } else {
            0
        }
    } else {
        twiddle_exponent(k / 2, n) / 2 + (k % 2) * (n / 2)
    }
}

/// Whether the power `g^((p-1)/2n)` is a root of unity of order `2n`
/// modulo `p`, that is, whether its `n`-th power is `-1`.
pub open spec fn yields_root(g: nat, p: u64, n: nat) -> bool {
    pow_mod(pow_mod(g as int, ((p - 1) / (2 * n as int)) as nat, p as int), n, p as int) == p - 1
}

/// Whether a transform of size `n` can be built modulo `p`: whether `p` is a
/// prime congruent to 1 modulo `2n` and one of the powers `g^((p-1)/2n)` is a
/// root of unity of order `2n`.
pub open spec fn has_transform(p: u64, n: nat) -> bool {
    &&& spec_supports_ntt(p, n)
    &&& exists|g: nat| 1 <= g < p && #[trigger] yields_root(g, p, n)
}

/// A transform of size `n` exists modulo `p` only where `p` is a prime
/// congruent to 1 modulo `2n` and has a root of unity of order `2n`: a
/// number whose `n`-th power is `-1`.
pub proof fn lemma_transform_needs_root(p: u64, n: nat)
    requires
        has_transform(p, n),
    ensures
        spec_supports_ntt(p, n),
        exists|x: int| 0 <= x < p && #[trigger] pow_mod(x, n, p as int) == p - 1,
{
    let g = choose|g: nat| 1 <= g < p && #[trigger] yields_root(g, p, n);
    let x = pow_mod(g as int, ((p - 1) / (2 * n as int)) as nat, p as int);
    lemma_mod_bound(vstd::arithmetic::power::pow(g as int, ((p - 1) / (2 * n as int)) as nat), p as int);
    assert(pow_mod(x, n, p as int) == p - 1);
}

/// A number with `x^n = -1` has the inverse powers `x^(2n - e)`.
proof fn lemma_root_inverse(x: int, n: nat, p: int, e: nat)
    requires
        p >= 2,
        pow_mod(x, n, p) == p - 1,
        e <= 2 * n,
    ensures
        (pow_mod(x, e, p) * pow_mod(x, (2 * n - e) as nat, p)) % p == 1,
{
    let y = vstd::arithmetic::power::pow(x, n);
    vstd::arithmetic::power::lemma_pow_adds(x, e, (2 * n - e) as nat);
    vstd::arithmetic::power::lemma_pow_adds(x, n, n);
    lemma_mul_mod_noop(
        vstd::arithmetic::power::pow(x, e),
        vstd::arithmetic::power::pow(x, (2 * n - e) as nat),
        p,
    );
    lemma_mul_mod_noop(y, y, p);
    assert((p - 1) * (p - 1) == p * (p - 2) + 1) by (nonlinear_arith);
    lemma_mod_multiples_vanish(p - 2, 1, p);
    lemma_small_mod(1, p as nat);
}

/// A number at least 2 that is congruent to 1 modulo `m` exceeds `m`.
proof fn lemma_above_modulus(p: int, m: int)
    requires
        p >= 2,
        m >= 1,
        p % m == 1,
    ensures
        p > m,
{
    if p <= m {
        if p < m {
            lemma_small_mod(p as nat, m as nat);
        } else {
            lemma_mod_self_0(m);
        }
    }
}

/// The exponents stay below the size.
proof fn lemma_twiddle_exponent_bound(k: nat, n: nat)
    requires
        n >= 2,
        n % 2 == 0,
    ensures
        twiddle_exponent(k, n) < n,
    decreases k,
{
    if k > 1 {
        lemma_twiddle_exponent_bound(k / 2, n);
        assert((k % 2) * (n / 2) <= n / 2) by (nonlinear_arith)
            requires
                k % 2 <= 1,
        ;
    }
}

impl NativeNtt {
    /// The tables of the transform of size `size` modulo `p`, if `p` is a
    /// prime congruent to 1 modulo `2 * size` and one of the numbers
    /// `g^((p-1)/(2 * size))` is a root of unity of order `2 * size`.
    pub fn new(p: &Modulus, size: usize) -> (r: Option<NativeNtt>)
        requires
            p.wf(),
            is_pow2(size as int),
            8 <= size < 0x4000_0000,
        ensures
            r.is_some() <==> has_transform(p.spec_modulus(), size as nat),
            r matches Some(op) ==> {
                &&& op.wf()
                &&& op.modulus() == p.spec_modulus()
                &&& op.size() == size
                &&& forall|k: int|
                    0 <= k < size ==> (#[trigger] op.twiddles()[k]) as int == pow_mod(
                        op.root() as int,
                        twiddle_exponent(k as nat, size as nat),
                        p.spec_modulus() as int,
                    )
            },
    {
        let q = p.modulus();
        if !supports_ntt(q, size) {
            return None;
        }
        let n64: u64 = size as u64;
        proof {
            lemma_above_modulus(q as int, 2 * size);
            reveal(is_pow2);
        }
        // a root of unity of order 2n
        let lambda: u64 = (q - 1) / (2 * n64);
        let mut g: u64 = 1;
        let mut psi: u64 = 0;
        let mut found = false;
        while g < q && !found
            invariant
                p.wf(),
                q == p.spec_modulus(),
                n64 == size,
                1 <= g <= q,
                size < q,
                lambda == (q - 1) / (2 * size as int),
                lambda < q,
                !found ==> forall|c: nat| 1 <= c < g ==> !yields_root(c, q, size as nat),
                found ==> psi < q && pow_mod(psi as int, size as nat, q as int) == q - 1,
                found ==> g < q && yields_root(g as nat, q, size as nat),
            decreases q - g + (if found { 0int } else { 1int }),
        {
            let cand = p.pow(g, lambda);
            if p.pow(cand, n64) == q - 1 {
                psi = cand;
                found = true;
            } else {
                g += 1;
            }
        }
        if !found {
            return None;
        }
        proof {
            assert(yields_root(g as nat, q, size as nat));
        }
        // the exponents of the root, by node
        let half = size / 2;
        let mut exps: Vec<usize> = Vec::with_capacity(size);
        exps.push(0);
        exps.push(half);
        let mut k: usize = 2;
        while k < size
            invariant
                2 <= k <= size,
                size >= 8,
                size % 2 == 0,
                half == size / 2,
                exps@.len() == k,
                forall|i: int|
                    0 <= i < k ==> #[trigger] exps@[i] == twiddle_exponent(i as nat, size as nat),
            decreases size - k,
        {
            proof {
                lemma_twiddle_exponent_bound((k / 2) as nat, size as nat);
            }
            let parent = exps[k / 2];
            let e = if k % 2 == 1 {
                parent / 2 + half
            } else {
                parent / 2
            };
            proof {
                assert((k % 2) * half == if k % 2 == 1 {
                    half as int
                } else {
                    0
                }) by (nonlinear_arith)
                    requires
                        k % 2 == 0 || k % 2 == 1,
                ;
            }
            exps.push(e);
            k += 1;
        }
        // the twiddle factors and their inverses
        let mut tw: Vec<u64> = Vec::with_capacity(size);
        let mut tw_inv: Vec<u64> = Vec::with_capacity(size);
        let mut i: usize = 0;
        while i < size
            invariant
                p.wf(),
                q == p.spec_modulus(),
                i <= size,
                size >= 8,
                size % 2 == 0,
                2 * size < q,
                psi < q,
                pow_mod(psi as int, size as nat, q as int) == q - 1,
                exps@.len() == size,
                forall|j: int|
                    0 <= j < size ==> #[trigger] exps@[j] == twiddle_exponent(
                        j as nat,
                        size as nat,
                    ),
                tw@.len() == i,
                tw_inv@.len() == i,
                forall|j: int|
                    0 <= j < i ==> (#[trigger] tw@[j]) as int == pow_mod(
                        psi as int,
                        twiddle_exponent(j as nat, size as nat),
                        q as int,
                    ) && tw@[j] < q,
                forall|j: int| 0 <= j < i ==> #[trigger] tw_inv@[j] < q,
                forall|j: int| 0 <= j < i ==> (#[trigger] tw@[j] * tw_inv@[j]) % (q as int) == 1,
            decreases size - i,
        {
            proof {
                lemma_twiddle_exponent_bound(i as nat, size as nat);
                lemma_root_inverse(psi as int, size as nat, q as int, exps@[i as int] as nat);
            }
            let e = exps[i] as u64;
            let x = p.pow(psi, e);
            let y = p.pow(psi, 2 * (size as u64) - e);
            tw.push(x);
            tw_inv.push(y);
            i += 1;
        }
        let tw_shoup = p.shoup_vec(tw.as_slice());
        let tw_inv_shoup = p.shoup_vec(tw_inv.as_slice());
        // the inverse of the size, as a power of the inverse of 2
        let inv2: u64 = (q + 1) / 2;
        let mut size_inv: u64 = 1;
        let mut m: usize = size;
        let ghost mut c: int = 1;
        proof {
            lemma_small_mod(1, q as nat);
            assert(q % 2 == 1) by {
                lemma_mod_mod(q as int, 2, size as int);
            }
            assert(2 * inv2 == q + 1);
            lemma_mod_multiples_vanish(1, 1, q as int);
        }
        while m > 1
            invariant
                p.wf(),
                q == p.spec_modulus(),
                is_pow2(m as int),
                1 <= m <= size,
                c >= 1,
                c * m == size,
                size_inv < q,
                inv2 < q,
                (2 * inv2) % (q as int) == 1,
                (size_inv * c) % (q as int) == 1,
            decreases m,
        {
            proof {
                reveal(is_pow2);
                let x = size_inv as int;
                lemma_mod_bound(x * inv2, q as int);
                lemma_small_mod(1, q as nat);
                // ((x * inv2) % q) * (2c) == (x * c) * (2 * inv2)  (mod q)
                lemma_mul_mod_noop_left(x * inv2, 2 * c, q as int);
                assert((x * inv2) * (2 * c) == (x * c) * (2 * inv2)) by (nonlinear_arith);
                lemma_mul_mod_noop((x * c), (2 * inv2) as int, q as int);
                assert(1 * 1 == 1);
                assert((2 * c) * (m / 2) == size) by (nonlinear_arith)
                    requires
                        c * m == size,
                        m == 2 * (m / 2),
                ;
                c = 2 * c;
            }
            size_inv = p.mul(size_inv, inv2);
            m = m / 2;
        }
        let size_inv_shoup = p.shoup(size_inv);
        proof {
            assert(c == size) by (nonlinear_arith)
                requires
                    c * m == size,
                    m == 1,
            ;
        }
        Some(
            NativeNtt {
                p: *p,
                size,
                psi,
                tw,
                tw_shoup,
                tw_inv,
                tw_inv_shoup,
                size_inv,
                size_inv_shoup,
            },
        )
    }

    /// The forward transform of `a`, in place; constant time unless `vt`.
    pub fn forward(&self, a: &mut [u64], vt: bool)
        requires
            self.wf(),
            old(a)@.len() == self.size(),
            reduced(old(a)@, self.modulus()),
        ensures
            final(a)@ == self.forward_spec(old(a)@),
            final(a)@.len() == old(a)@.len(),
            reduced(final(a)@, self.modulus()),
    {
        self.forward_block(a, 1, vt);
    }

    /// The backward transform of `a`, in place; constant time unless `vt`.
    pub fn backward(&self, a: &mut [u64], vt: bool)
        requires
            self.wf(),
            old(a)@.len() == self.size(),
            reduced(old(a)@, self.modulus()),
        ensures
            final(a)@ == self.backward_spec(old(a)@),
            final(a)@.len() == old(a)@.len(),
            reduced(final(a)@, self.modulus()),
    {
        self.backward_block(a, 1, vt);
        let ghost mid = a@;
        let ghost q = self.p.spec_modulus();
        let n = a.len();
        let mut j: usize = 0;
        while j < n
            invariant
                self.wf(),
                q == self.p.spec_modulus(),
                j <= n,
                a@.len() == n,
                mid.len() == n,
                forall|i: int| j <= i < n ==> #[trigger] a@[i] == mid[i],
                forall|i: int|
                    0 <= i < j ==> #[trigger] a@[i] == scaled(mid, self.size_inv, q)[i] && a@[i]
                        < q,
            decreases n - j,
        {
            proof {
                lemma_mod_bound(a@[j as int] * self.size_inv, q as int);
            }
            if vt {
                a[j] = self.p.mul_shoup_vt(a[j], self.size_inv, self.size_inv_shoup);
            } else {
                a[j] = self.p.mul_shoup(a[j], self.size_inv, self.size_inv_shoup);
            }
            j += 1;
        }
        proof {
            assert(a@ =~= scaled(mid, self.size_inv, q));
        }
    }
}

/// The reduced number whose product with `n` is congruent to `y` is `y`
/// times the inverse of `n`.
pub proof fn lemma_divided_unique(x: int, y: int, n: int, n_inv: int, p: int)
    requires
        p > 0,
        0 <= x < p,
        (x * n) % p == y % p,
        (n_inv * n) % p == 1,
    ensures
        x == (y * n_inv) % p,
{
    let z = ((x * n) * n_inv) % p;
    assert((x * n) * n_inv == x * (n_inv * n)) by (nonlinear_arith);
    lemma_mul_mod_noop_right(x, n_inv * n, p);
    assert(x * 1 == x);
    lemma_small_mod(x as nat, p as nat);
    lemma_mul_mod_noop_left(x * n, n_inv, p);
    lemma_mul_mod_noop_left(y, n_inv, p);
}

impl NativeNtt {
    /// Values normalized by the size are the values times the inverse of
    /// the size.
    pub proof fn lemma_normalized(&self, before: Seq<u64>, after: Seq<u64>)
        requires
            self.wf(),
            after.len() == before.len(),
            reduced(after, self.modulus()),
            forall|i: int|
                0 <= i < before.len() ==> (#[trigger] after[i] * self.size()) % (
                self.modulus() as int) == before[i] % self.modulus(),
        ensures
            after == scaled(before, self.size_inverse(), self.modulus()),
    {
        assert forall|i: int| 0 <= i < before.len() implies after[i] == scaled(
            before,
            self.size_inverse(),
            self.modulus(),
        )[i] by {
            assert(after[i] * self.size() == after[i] * (self.size() as int));
            lemma_divided_unique(
                after[i] as int,
                before[i] as int,
                self.size as int,
                self.size_inv as int,
                self.p.spec_modulus() as int,
            );
            lemma_mod_bound(before[i] * self.size_inv, self.p.spec_modulus() as int);
        }
        assert(after =~= scaled(before, self.size_inverse(), self.modulus()));
    }
}

/// Congruent numbers have congruent products with the same factor.
pub proof fn lemma_congruent_products(x: int, y: int, c: int, p: int)
    requires
        p > 0,
        x % p == y % p,
    ensures
        (x * c) % p == (y * c) % p,
{
    lemma_mul_mod_noop_left(x, c, p);
    lemma_mul_mod_noop_left(y, c, p);
}

/// The inverse butterfly undoes the butterfly, up to a factor 2: with
/// `u = a0 + s * a1` and `v = a0 - s * a1`, and both scaled by `h`, the sum
/// is `2h * a0` and the difference times the inverse of `s` is `2h * a1`.
pub proof fn lemma_butterfly_undone(a0: int, a1: int, s: int, s_inv: int, h: int, p: int)
    requires
        p > 0,
        (s * s_inv) % p == 1,
    ensures
        ({
            let lo = (h * ((a0 + s * a1) % p)) % p;
            let hi = (h * ((a0 - s * a1) % p)) % p;
            &&& (lo + hi) % p == ((2 * h) * a0) % p
            &&& ((lo - hi) * s_inv) % p == ((2 * h) * a1) % p
        }),
{
    let x = a0 + s * a1;
    let y = a0 - s * a1;
    let lo = (h * (x % p)) % p;
    let hi = (h * (y % p)) % p;
    lemma_mul_mod_noop_right(h, x, p);
    lemma_mul_mod_noop_right(h, y, p);
    // lo = h x and hi = h y modulo p
    lemma_add_mod_noop(h * x, h * y, p);
    lemma_sub_mod_noop(h * x, h * y, p);
    assert(h * x + h * y == (2 * h) * a0) by (nonlinear_arith)
        requires
            x == a0 + s * a1,
            y == a0 - s * a1,
    ;
    assert(h * x - h * y == ((2 * h) * a1) * s) by (nonlinear_arith)
        requires
            x == a0 + s * a1,
            y == a0 - s * a1,
    ;
    lemma_mod_twice(h * x, p);
    lemma_mod_twice(h * y, p);
    assert((lo + hi) % p == (h * x + h * y) % p);
    assert((lo - hi) % p == (h * x - h * y) % p);
    lemma_congruent_products(lo - hi, h * x - h * y, s_inv, p);
    assert((((2 * h) * a1) * s) * s_inv == ((2 * h) * a1) * (s * s_inv)) by (nonlinear_arith);
    lemma_mul_mod_noop_right((2 * h) * a1, s * s_inv, p);
    assert(((2 * h) * a1) * 1 == (2 * h) * a1);
}

impl NativeNtt {
    /// The backward transform of a block undoes the forward transform of the
    /// block, up to the factor of its length.
    pub proof fn lemma_block_round_trip(&self, a: Seq<u64>, k: int)
        requires
            self.wf(),
            is_pow2(a.len() as int),
            1 <= k,
            (k + 1) * a.len() <= 2 * self.size(),
            reduced(a, self.modulus()),
        ensures
            backward_at(
                forward_at(a, self.twiddles(), k, self.modulus()),
                self.inverse_twiddles(),
                k,
                self.modulus(),
            ).len() == a.len(),
            forall|j: int|
                0 <= j < a.len() ==> (#[trigger] backward_at(
                    forward_at(a, self.twiddles(), k, self.modulus()),
                    self.inverse_twiddles(),
                    k,
                    self.modulus(),
                )[j]) as int == (a.len() * a[j]) % (self.modulus() as int),
        decreases a.len(),
    {
        let p = self.p.spec_modulus();
        let tw = self.tw@;
        let tw_inv = self.tw_inv@;
        let len = a.len() as int;
        reveal(is_pow2);
        if a.len() <= 1 {
            assert forall|j: int| 0 <= j < a.len() implies (a[j]) as int == (a.len() * a[j]) % (
            p as int) by {
                lemma_small_mod(a[j] as nat, p as nat);
            }
        } else {
            let h = len / 2;
            let s = tw[k];
            let s_inv = tw_inv[k];
            assert(k + 1 <= self.size) by (nonlinear_arith)
                requires
                    (k + 1) * len <= 2 * self.size,
                    len >= 2,
            ;
            assert((2 * k + 2) * h <= 2 * self.size) by (nonlinear_arith)
                requires
                    (k + 1) * len <= 2 * self.size,
                    len == 2 * h,
            ;
            assert((2 * k + 1) * h <= (2 * k + 2) * h) by (nonlinear_arith)
                requires
                    h >= 0,
            ;
            let u = butterfly_sum(a, s, p);
            let v = butterfly_diff(a, s, p);
            assert(reduced(u, p)) by {
                assert forall|j: int| 0 <= j < u.len() implies #[trigger] u[j] < p by {
                    lemma_mod_bound(a[j] + s * a[j + h], p as int);
                }
            }
            assert(reduced(v, p)) by {
                assert forall|j: int| 0 <= j < v.len() implies #[trigger] v[j] < p by {
                    lemma_mod_bound(a[j] - s * a[j + h], p as int);
                }
            }
            let fu = forward_at(u, tw, 2 * k, p);
            let fv = forward_at(v, tw, 2 * k + 1, p);
            lemma_transform_len(u, tw, 2 * k, p);
            lemma_transform_len(v, tw, 2 * k + 1, p);
            let f = forward_at(a, tw, k, p);
            assert(f == fu + fv);
            assert(f.subrange(0, h) =~= fu);
            assert(f.subrange(h, len) =~= fv);
            self.lemma_block_round_trip(u, 2 * k);
            self.lemma_block_round_trip(v, 2 * k + 1);
            let lo = backward_at(fu, tw_inv, 2 * k, p);
            let hi = backward_at(fv, tw_inv, 2 * k + 1, p);
            let back = backward_at(f, tw_inv, k, p);
            assert(back == butterfly_join(lo, hi, s_inv, p));
            assert((tw[k] * tw_inv[k]) % (p as int) == 1);
            assert forall|j: int| 0 <= j < a.len() implies (#[trigger] back[j]) as int == (len
                * a[j]) % (p as int) by {
                let i = if j < h {
                    j
                } else {
                    j - h
                };
                lemma_butterfly_undone(
                    a[i] as int,
                    a[i + h] as int,
                    s as int,
                    s_inv as int,
                    h,
                    p as int,
                );
                assert(lo[i] as int == (h * u[i]) % (p as int));
                assert(hi[i] as int == (h * v[i]) % (p as int));
                assert(u[i] as int == (a[i] + s * a[i + h]) % (p as int)) by {
                    lemma_mod_bound(a[i] + s * a[i + h], p as int);
                }
                assert(v[i] as int == (a[i] - s * a[i + h]) % (p as int)) by {
                    lemma_mod_bound(a[i] - s * a[i + h], p as int);
                }
                lemma_mod_bound(lo[i] + hi[i], p as int);
                lemma_mod_bound((lo[i] - hi[i]) * s_inv, p as int);
                assert(2 * h == len);
            }
        }
    }

    /// The backward transform undoes the forward transform.
    pub proof fn lemma_round_trip(&self, a: Seq<u64>)
        requires
            self.wf(),
            a.len() == self.size(),
            reduced(a, self.modulus()),
        ensures
            self.backward_spec(self.forward_spec(a)) == a,
    {
        let p = self.p.spec_modulus();
        let n = self.size as int;
        self.lemma_block_round_trip(a, 1);
        let back = backward_at(self.forward_spec(a), self.tw_inv@, 1, p);
        let r = self.backward_spec(self.forward_spec(a));
        assert forall|j: int| 0 <= j < a.len() implies r[j] == a[j] by {
            // ((n a) % p) * n_inv == a * (n_inv * n) == a modulo p
            lemma_mul_mod_noop_left(n * a[j], self.size_inv as int, p as int);
            assert((n * a[j]) * self.size_inv == a[j] * (self.size_inv * n)) by (nonlinear_arith);
            lemma_mul_mod_noop_right(a[j] as int, self.size_inv * n, p as int);
            assert(a[j] * 1 == a[j]);
            lemma_small_mod(a[j] as nat, p as nat);
            lemma_mod_bound(back[j] * self.size_inv, p as int);
        }
        assert(r =~= a);
    }
}

/// The butterfly undoes the inverse butterfly, up to a factor 2: with
/// `x0 = (lo + hi) * c` and `x1 = (lo - hi) * s_inv * c`, the sum
/// `x0 + s * x1` is `2c * lo` and the difference `x0 - s * x1` is `2c * hi`.
pub proof fn lemma_join_undone(lo: int, hi: int, s: int, s_inv: int, c: int, p: int)
    requires
        p > 0,
        (s * s_inv) % p == 1,
    ensures
        ({
            let x0 = (((lo + hi) % p) * c) % p;
            let x1 = ((((lo - hi) * s_inv) % p) * c) % p;
            &&& (x0 + s * x1) % p == (((2 * c) % p) * lo) % p
            &&& (x0 - s * x1) % p == (((2 * c) % p) * hi) % p
        }),
{
    let x = (lo + hi) * c;
    let y = ((lo - hi) * s_inv) * c;
    let z = (lo - hi) * c;
    let x0 = (((lo + hi) % p) * c) % p;
    let x1 = ((((lo - hi) * s_inv) % p) * c) % p;
    lemma_mul_mod_noop_left(lo + hi, c, p);
    lemma_mul_mod_noop_left((lo - hi) * s_inv, c, p);
    assert(x0 == x % p && x1 == y % p);
    // s * x1 is z modulo p
    lemma_mul_mod_noop_right(s, y, p);
    assert(s * y == (s * s_inv) * z) by (nonlinear_arith)
        requires
            y == ((lo - hi) * s_inv) * c,
            z == (lo - hi) * c,
    ;
    lemma_mul_mod_noop_left(s * s_inv, z, p);
    assert(1 * z == z);
    assert((s * x1) % p == z % p);
    lemma_mod_twice(x, p);
    lemma_add_mod_noop(x0, s * x1, p);
    lemma_add_mod_noop(x, z, p);
    lemma_sub_mod_noop(x0, s * x1, p);
    lemma_sub_mod_noop(x, z, p);
    assert(x + z == (2 * c) * lo) by (nonlinear_arith)
        requires
            x == (lo + hi) * c,
            z == (lo - hi) * c,
    ;
    assert(x - z == (2 * c) * hi) by (nonlinear_arith)
        requires
            x == (lo + hi) * c,
            z == (lo - hi) * c,
    ;
    lemma_mul_mod_noop_left(2 * c, lo, p);
    lemma_mul_mod_noop_left(2 * c, hi, p);
}

impl NativeNtt {
    /// The forward transform of a block undoes the backward transform of
    /// the block, up to the factor of its length, whatever factor `c` the
    /// block was multiplied by in between.
    pub proof fn lemma_block_trip_back(&self, a: Seq<u64>, k: int, c: u64)
        requires
            self.wf(),
            is_pow2(a.len() as int),
            1 <= k,
            (k + 1) * a.len() <= 2 * self.size(),
            reduced(a, self.modulus()),
        ensures
            forward_at(
                scaled(
                    backward_at(a, self.inverse_twiddles(), k, self.modulus()),
                    c,
                    self.modulus(),
                ),
                self.twiddles(),
                k,
                self.modulus(),
            ).len() == a.len(),
            forall|j: int|
                0 <= j < a.len() ==> (#[trigger] forward_at(
                    scaled(
                        backward_at(a, self.inverse_twiddles(), k, self.modulus()),
                        c,
                        self.modulus(),
                    ),
                    self.twiddles(),
                    k,
                    self.modulus(),
                )[j]) as int == ((c * a.len()) * a[j]) % (self.modulus() as int),
        decreases a.len(),
    {
        let p = self.p.spec_modulus();
        let q = p as int;
        let tw = self.tw@;
        let tw_inv = self.tw_inv@;
        let len = a.len() as int;
        reveal(is_pow2);
        let back = backward_at(a, tw_inv, k, p);
        let x = scaled(back, c, p);
        let f = forward_at(x, tw, k, p);
        lemma_transform_len(a, tw_inv, k, p);
        lemma_transform_len(x, tw, k, p);
        if a.len() <= 1 {
            assert forall|j: int| 0 <= j < a.len() implies (#[trigger] f[j]) as int == ((c * len)
                * a[j]) % q by {
                lemma_mod_bound(a[j] * c, q);
                assert(a[j] * c == (c * len) * a[j]) by (nonlinear_arith)
                    requires
                        len == 1,
                ;
            }
        } else {
            let h = len / 2;
            let s = tw[k];
            let s_inv = tw_inv[k];
            assert(k + 1 <= self.size) by (nonlinear_arith)
                requires
                    (k + 1) * len <= 2 * self.size,
                    len >= 2,
            ;
            assert((2 * k + 2) * h <= 2 * self.size) by (nonlinear_arith)
                requires
                    (k + 1) * len <= 2 * self.size,
                    len == 2 * h,
            ;
            assert((2 * k + 1) * h <= (2 * k + 2) * h) by (nonlinear_arith)
                requires
                    h >= 0,
            ;
            let a0 = a.subrange(0, h);
            let a1 = a.subrange(h, len);
            let lo = backward_at(a0, tw_inv, 2 * k, p);
            let hi = backward_at(a1, tw_inv, 2 * k + 1, p);
            lemma_transform_len(a0, tw_inv, 2 * k, p);
            lemma_transform_len(a1, tw_inv, 2 * k + 1, p);
            assert(back == butterfly_join(lo, hi, s_inv, p));
            assert((tw[k] * tw_inv[k]) % q == 1);
            lemma_mod_bound(2 * c, q);
            let c2 = ((2 * c) % q) as u64;
            let u = butterfly_sum(x, s, p);
            let v = butterfly_diff(x, s, p);
            assert(x.len() == len);
            assert forall|j: int| 0 <= j < h implies u[j] == scaled(lo, c2, p)[j] && v[j]
                == scaled(hi, c2, p)[j] by {
                lemma_join_undone(lo[j] as int, hi[j] as int, s as int, s_inv as int, c as int, q);
                lemma_mod_bound(lo[j] + hi[j], q);
                lemma_mod_bound((lo[j] - hi[j]) * s_inv, q);
                lemma_mod_bound(back[j] * c, q);
                lemma_mod_bound(back[j + h] * c, q);
                lemma_mod_bound(x[j] + s * x[j + h], q);
                lemma_mod_bound(x[j] - s * x[j + h], q);
                lemma_mod_bound(lo[j] * c2, q);
                lemma_mod_bound(hi[j] * c2, q);
                assert(back[j] as int == (lo[j] + hi[j]) % q);
                assert(back[j + h] as int == ((lo[j] - hi[j]) * s_inv) % q);
                assert(x[j] as int == (back[j] * c) % q);
                assert(x[j + h] as int == (back[j + h] * c) % q);
                assert(c2 * lo[j] == lo[j] * c2) by (nonlinear_arith);
                assert(c2 * hi[j] == hi[j] * c2) by (nonlinear_arith);
            }
            assert(u =~= scaled(lo, c2, p));
            assert(v =~= scaled(hi, c2, p));
            self.lemma_block_trip_back(a0, 2 * k, c2);
            self.lemma_block_trip_back(a1, 2 * k + 1, c2);
            let fu = forward_at(u, tw, 2 * k, p);
            let fv = forward_at(v, tw, 2 * k + 1, p);
            assert(f == fu + fv);
            assert forall|j: int| 0 <= j < a.len() implies (#[trigger] f[j]) as int == ((c * len)
                * a[j]) % q by {
                let aj = a[j] as int;
                if j < h {
                    assert(f[j] == fu[j]);
                    assert(a0[j] == a[j]);
                    assert(fu[j] as int == ((c2 * h) * aj) % q);
                } else {
                    assert(f[j] == fv[j - h]);
                    assert(a1[j - h] == a[j]);
                    assert(fv[j - h] as int == ((c2 * h) * aj) % q);
                }
                lemma_mul_mod_noop_left(2 * c, h * aj, q);
                assert((c2 * h) * aj == c2 * (h * aj)) by (nonlinear_arith);
                assert((2 * c) * (h * aj) == (c * len) * aj) by (nonlinear_arith)
                    requires
                        len == 2 * h,
                ;
            }
        }
    }

    /// The forward transform undoes the backward transform.
    pub proof fn lemma_round_trip_back(&self, a: Seq<u64>)
        requires
            self.wf(),
            a.len() == self.size(),
            reduced(a, self.modulus()),
        ensures
            self.forward_spec(self.backward_spec(a)) == a,
    {
        let p = self.p.spec_modulus();
        let n = self.size as int;
        self.lemma_block_trip_back(a, 1, self.size_inv);
        let r = self.forward_spec(self.backward_spec(a));
        assert forall|j: int| 0 <= j < a.len() implies r[j] == a[j] by {
            lemma_mul_mod_noop_left(self.size_inv * n, a[j] as int, p as int);
            assert(1 * a[j] == a[j]);
            lemma_small_mod(a[j] as nat, p as nat);
        }
        assert(r =~= a);
    }
}

/// The value at `x` of the polynomial with the coefficients `a`.
pub open spec fn eval(a: Seq<u64>, x: int) -> int
    decreases a.len(),
{
    if a.len() == 0 {
        0
    } else {
        eval(a.drop_last(), x) + a.last() * vstd::arithmetic::power::pow(x, (a.len() - 1) as nat)
    }
}

/// The point that belongs to the leaf `leaf` of the recursion tree: the
/// twiddle factor of its parent for an even leaf, and the opposite of it for
/// an odd one.
pub open spec fn point(tw: Seq<u64>, leaf: int) -> int {
    if leaf % 2 == 0 {
        tw[leaf / 2] as int
    } else {
        -(tw[leaf / 2] as int)
    }
}

/// The value of a polynomial is the value of its low part plus `x^h` times
/// the value of its high part.
pub proof fn lemma_eval_split(a: Seq<u64>, h: int, x: int)
    requires
        0 <= h <= a.len(),
    ensures
        eval(a, x) == eval(a.subrange(0, h), x) + vstd::arithmetic::power::pow(x, h as nat) * eval(
            a.subrange(h, a.len() as int),
            x,
        ),
    decreases a.len() - h,
{
    let len = a.len() as int;
    let lo = a.subrange(0, h);
    let hi = a.subrange(h, len);
    if h == len {
        assert(lo =~= a);
        assert(hi.len() == 0);
    } else {
        let rest = a.drop_last();
        lemma_eval_split(rest, h, x);
        assert(rest.subrange(0, h) =~= lo);
        assert(rest.subrange(h, len - 1) =~= hi.drop_last());
        assert(hi.last() == a.last());
        vstd::arithmetic::power::lemma_pow_adds(x, h as nat, (len - 1 - h) as nat);
        let xh = vstd::arithmetic::power::pow(x, h as nat);
        let xr = vstd::arithmetic::power::pow(x, (len - 1 - h) as nat);
        let e = eval(hi.drop_last(), x);
        let l = a.last() as int;
        assert(xh * (e + l * xr) == xh * e + l * (xh * xr)) by (nonlinear_arith);
    }
}

/// The value of the combination `lo + c * hi`, taken modulo `p` coefficient
/// by coefficient, is congruent to the combination of the values.
pub proof fn lemma_eval_combination(lo: Seq<u64>, hi: Seq<u64>, u: Seq<u64>, c: int, x: int, p: int)
    requires
        p > 0,
        lo.len() == hi.len(),
        u.len() == lo.len(),
        forall|i: int| 0 <= i < u.len() ==> (#[trigger] u[i]) as int == (lo[i] + c * hi[i]) % p,
    ensures
        eval(u, x) % p == (eval(lo, x) + c * eval(hi, x)) % p,
    decreases u.len(),
{
    if u.len() == 0 {
        assert(c * 0 == 0);
    } else {
        let m = (u.len() - 1) as int;
        lemma_eval_combination(lo.drop_last(), hi.drop_last(), u.drop_last(), c, x, p);
        let w = vstd::arithmetic::power::pow(x, m as nat);
        let l = lo.last() as int;
        let t = hi.last() as int;
        let a0 = eval(u.drop_last(), x);
        let b0 = eval(lo.drop_last(), x) + c * eval(hi.drop_last(), x);
        assert(u.last() as int == (l + c * t) % p);
        lemma_mul_mod_noop_left(l + c * t, w, p);
        lemma_add_mod_noop(a0, u.last() * w, p);
        lemma_add_mod_noop(b0, (l + c * t) * w, p);
        assert(b0 + (l + c * t) * w == eval(lo, x) + c * eval(hi, x)) by (nonlinear_arith)
            requires
                b0 == eval(lo.drop_last(), x) + c * eval(hi.drop_last(), x),
                eval(lo, x) == eval(lo.drop_last(), x) + l * w,
                eval(hi, x) == eval(hi.drop_last(), x) + t * w,
        ;
    }
}

/// Congruent numbers have congruent squares.
pub proof fn lemma_congruent_squares(x: int, y: int, p: int)
    requires
        p > 0,
        x % p == y % p,
    ensures
        (x * x) % p == (y * y) % p,
{
    lemma_mul_mod_noop(x, x, p);
    lemma_mul_mod_noop(y, y, p);
}

impl NativeNtt {
    /// The squares of the twiddle factors of the children of a node are the
    /// twiddle factor of the node and its opposite.
    pub proof fn lemma_child_squares(&self, k: int)
        requires
            self.wf(),
            1 <= k,
            2 * k + 1 < self.size(),
            twiddle_exponent(k as nat, self.size()) % 2 == 0,
        ensures
            (self.twiddles()[2 * k] * self.twiddles()[2 * k]) % (self.modulus() as int)
                == self.twiddles()[k] as int % (self.modulus() as int),
            (self.twiddles()[2 * k + 1] * self.twiddles()[2 * k + 1]) % (self.modulus() as int) == (
            -(self.twiddles()[k] as int)) % (self.modulus() as int),
    {
        let p = self.p.spec_modulus() as int;
        let n = self.size as nat;
        let psi = self.psi as int;
        let e = twiddle_exponent(k as nat, n);
        let e2 = twiddle_exponent((2 * k) as nat, n);
        let e3 = twiddle_exponent((2 * k + 1) as nat, n);
        reveal(is_pow2);
        assert(e2 == e / 2) by {
            assert((2 * k) as nat / 2 == k as nat);
            assert(0 * (n / 2) == 0);
        }
        assert(e3 == e / 2 + n / 2) by {
            assert((2 * k + 1) as nat / 2 == k as nat);
            assert(1 * (n / 2) == n / 2);
        }
        let x2 = vstd::arithmetic::power::pow(psi, e2);
        let x3 = vstd::arithmetic::power::pow(psi, e3);
        let xe = vstd::arithmetic::power::pow(psi, e);
        let xn = vstd::arithmetic::power::pow(psi, n);
        vstd::arithmetic::power::lemma_pow_adds(psi, e2, e2);
        vstd::arithmetic::power::lemma_pow_adds(psi, e3, e3);
        vstd::arithmetic::power::lemma_pow_adds(psi, e, n);
        assert(e3 + e3 == e + n);
        lemma_mul_mod_noop(x2, x2, p);
        lemma_mul_mod_noop(x3, x3, p);
        lemma_mul_mod_noop(xe, xn, p);
        let t = self.tw@[k] as int;
        lemma_small_mod(t as nat, p as nat);
        // t * (p - 1) is -t modulo p
        assert(t * (p - 1) == p * t + (-t)) by (nonlinear_arith);
        lemma_mod_multiples_vanish(t, -t, p);
    }

    /// The forward transform of a block gives the values of the block, seen
    /// as a polynomial, at the points of its leaves; and the power of each
    /// of these points with the length of the block is the square of the
    /// twiddle factor of the node.
    pub proof fn lemma_block_evaluates(&self, a: Seq<u64>, k: int)
        requires
            self.wf(),
            is_pow2(a.len() as int),
            1 <= k,
            (k + 1) * a.len() <= 2 * self.size(),
            reduced(a, self.modulus()),
            self.size() % a.len() == 0,
            a.len() >= 2 ==> twiddle_exponent(k as nat, self.size()) % (a.len() / 2) == 0,
        ensures
            forward_at(a, self.twiddles(), k, self.modulus()).len() == a.len(),
            forall|j: int|
                0 <= j < a.len() ==> (#[trigger] forward_at(
                    a,
                    self.twiddles(),
                    k,
                    self.modulus(),
                )[j]) as int == eval(a, point(self.twiddles(), k * a.len() + j)) % (
                self.modulus() as int),
            a.len() >= 2 ==> forall|j: int|
                0 <= j < a.len() ==> vstd::arithmetic::power::pow(
                    #[trigger] point(self.twiddles(), k * a.len() + j),
                    a.len(),
                ) % (self.modulus() as int) == (self.twiddles()[k] * self.twiddles()[k]) % (
                self.modulus() as int),
        decreases a.len(),
    {
        let p = self.p.spec_modulus();
        let q = p as int;
        let n = self.size as int;
        let tw = self.tw@;
        let len = a.len() as int;
        reveal(is_pow2);
        lemma_transform_len(a, tw, k, p);
        if a.len() <= 1 {
            assert forall|j: int| 0 <= j < a.len() implies (#[trigger] forward_at(a, tw, k, p)[j])
                as int == eval(a, point(tw, k * len + j)) % q by {
                let x = point(tw, k * len + j);
                assert(a.drop_last().len() == 0);
                assert(eval(a.drop_last(), x) == 0);
                assert(a.last() == a[0]);
                vstd::arithmetic::power::lemma_pow0(x);
                assert(eval(a, x) == 0 + a[0] * vstd::arithmetic::power::pow(x, 0));
                lemma_small_mod(a[0] as nat, p as nat);
            }
        } else {
            let h = len / 2;
            assert(is_pow2(h));
            assert(k < n) by (nonlinear_arith)
                requires
                    (k + 1) * len <= 2 * n,
                    len >= 2,
                    k >= 1,
            {
                assert((k + 1) * 2 <= (k + 1) * len);
            }
            let s = tw[k];
            let e = twiddle_exponent(k as nat, n as nat);
            assert(k + 1 <= n) by (nonlinear_arith)
                requires
                    (k + 1) * len <= 2 * n,
                    len >= 2,
                    k >= 1,
            {
                assert((k + 1) * 2 <= (k + 1) * len);
            }
            assert((2 * k + 2) * h <= 2 * n) by (nonlinear_arith)
                requires
                    (k + 1) * len <= 2 * n,
                    len == 2 * h,
            ;
            assert((2 * k + 1) * h <= (2 * k + 2) * h) by (nonlinear_arith)
                requires
                    h >= 0,
            ;
            assert(k * len == (2 * k) * h && k * len + h == (2 * k + 1) * h) by (nonlinear_arith)
                requires
                    len == 2 * h,
            ;
            // the length of the children divides the size
            lemma_fundamental_div_mod(n, len);
            assert(n == h * (2 * (n / len))) by (nonlinear_arith)
                requires
                    n == len * (n / len),
                    len == 2 * h,
            ;
            lemma_mod_multiples_basic(2 * (n / len), h);
            assert((2 * (n / len)) * h == n) by (nonlinear_arith)
                requires
                    n == h * (2 * (n / len)),
            ;
            let u = butterfly_sum(a, s, p);
            let v = butterfly_diff(a, s, p);
            assert(reduced(u, p)) by {
                assert forall|j: int| 0 <= j < u.len() implies #[trigger] u[j] < p by {
                    lemma_mod_bound(a[j] + s * a[j + h], q);
                }
            }
            assert(reduced(v, p)) by {
                assert forall|j: int| 0 <= j < v.len() implies #[trigger] v[j] < p by {
                    lemma_mod_bound(a[j] - s * a[j + h], q);
                }
            }
            if h >= 2 {
                // the exponents of the children are multiples of the half of
                // their length
                let half = h / 2;
                assert(h == 2 * half);
                lemma_fundamental_div_mod(e as int, h);
                let c = (e as int) / h;
                assert(e == 2 * (half * c)) by (nonlinear_arith)
                    requires
                        e == h * c,
                        h == 2 * half,
                ;
                assert(e % 2 == 0);
                assert(e / 2 == half * c);
                let e2 = twiddle_exponent((2 * k) as nat, n as nat);
                let e3 = twiddle_exponent((2 * k + 1) as nat, n as nat);
                assert(e2 == e / 2) by {
                    assert((2 * k) as nat / 2 == k as nat);
                    assert(0 * ((n as nat) / 2) == 0);
                }
                assert(e3 == e / 2 + n / 2) by {
                    assert((2 * k + 1) as nat / 2 == k as nat);
                    assert(1 * ((n as nat) / 2) == (n as nat) / 2);
                }
                let d = 2 * (n / len);
                assert(n / 2 == half * d) by (nonlinear_arith)
                    requires
                        n == h * d,
                        h == 2 * half,
                {
                    assert(n == 2 * (half * d));
                }
                lemma_mod_multiples_basic(c, half);
                assert(c * half == half * c) by (nonlinear_arith);
                assert(half * c + half * d == (c + d) * half) by (nonlinear_arith);
                lemma_mod_multiples_basic(c + d, half);
                assert(2 * k + 2 <= n) by (nonlinear_arith)
                    requires
                        (2 * k + 2) * h <= 2 * n,
                        h >= 2,
                        k >= 1,
                {
                    assert((2 * k + 2) * 2 <= (2 * k + 2) * h);
                }
                self.lemma_child_squares(k);
            }
            self.lemma_block_evaluates(u, 2 * k);
            self.lemma_block_evaluates(v, 2 * k + 1);
            let fu = forward_at(u, tw, 2 * k, p);
            let fv = forward_at(v, tw, 2 * k + 1, p);
            let f = forward_at(a, tw, k, p);
            assert(f == fu + fv);
            let lo = a.subrange(0, h);
            let hi = a.subrange(h, len);
            assert forall|j: int| 0 <= j < len implies (#[trigger] f[j]) as int == eval(
                a,
                point(tw, k * len + j),
            ) % q && vstd::arithmetic::power::pow(point(tw, k * len + j), len as nat) % q == (s
                * s) % q by {
                let r = point(tw, k * len + j);
                let first = j < h;
                let c: int = if first {
                    s as int
                } else {
                    -(s as int)
                };
                let child = if first {
                    2 * k
                } else {
                    2 * k + 1
                };
                let i = if first {
                    j
                } else {
                    j - h
                };
                assert(k * len + j == child * h + i);
                let rh = vstd::arithmetic::power::pow(r, h as nat);
                // the power of the point with the length of the child
                assert(rh % q == c % q) by {
                    if h == 1 {
                        vstd::arithmetic::power::lemma_pow1(r);
                        assert(child * h + i == child) by (nonlinear_arith)
                            requires
                                h == 1,
                                i == 0,
                        ;
                        assert(child / 2 == k);
                    } else {
                        assert(point(tw, child * h + i) == r);
                        if first {
                            lemma_small_mod(s as nat, p as nat);
                        }
                    }
                }
                // the value of the child is the value of the block
                let input = if first {
                    u
                } else {
                    v
                };
                assert(f[j] == if first {
                    fu[i]
                } else {
                    fv[i]
                });
                assert forall|t: int| 0 <= t < h implies (#[trigger] input[t]) as int == (lo[t] + c
                    * hi[t]) % q by {
                    lemma_mod_bound(a[t] + s * a[t + h], q);
                    lemma_mod_bound(a[t] - s * a[t + h], q);
                    assert((-(s as int)) * hi[t] == -(s * a[t + h])) by (nonlinear_arith)
                        requires
                            hi[t] == a[t + h],
                    ;
                }
                lemma_eval_combination(lo, hi, input, c, r, q);
                lemma_eval_split(a, h, r);
                let el = eval(lo, r);
                let eh = eval(hi, r);
                lemma_congruent_products(rh, c, eh, q);
                lemma_add_mod_noop_right(el, rh * eh, q);
                lemma_add_mod_noop_right(el, c * eh, q);
                // the power of the point with the length of the block
                vstd::arithmetic::power::lemma_pow_adds(r, h as nat, h as nat);
                lemma_congruent_squares(rh, c, q);
                assert(c * c == s * s) by (nonlinear_arith)
                    requires
                        c == s || c == -(s as int),
                ;
            }
            assert forall|j: int| 0 <= j < len implies vstd::arithmetic::power::pow(
                #[trigger] point(tw, k * len + j),
                len as nat,
            ) % q == (s * s) % q by {
                let value = f[j];
            }
        }
    }

    /// The point at which the forward transform takes the value of a
    /// polynomial for the position `j` of its result.
    pub open spec fn evaluation_point(&self, j: int) -> int {
        point(self.twiddles(), self.size() + j)
    }

    /// The forward transform evaluates: the value at the position `j` of the
    /// transform of `a` is the value of the polynomial with the
    /// coefficients `a` at the point of that position, which is a root of
    /// `x^n + 1` modulo `p`.
    pub proof fn lemma_forward_evaluates(&self, a: Seq<u64>, j: int)
        requires
            self.wf(),
            a.len() == self.size(),
            reduced(a, self.modulus()),
            0 <= j < a.len(),
        ensures
            self.forward_spec(a)[j] as int == eval(a, self.evaluation_point(j)) % (
            self.modulus() as int),
            vstd::arithmetic::power::pow(self.evaluation_point(j), self.size()) % (
            self.modulus() as int) == self.modulus() - 1,
    {
        let p = self.p.spec_modulus() as int;
        let n = self.size as nat;
        let psi = self.psi as int;
        reveal(is_pow2);
        lemma_mod_self_0(n as int);
        assert(twiddle_exponent(1, n) == n / 2);
        lemma_mod_self_0((n / 2) as int);
        assert(1 * a.len() == a.len());
        self.lemma_block_evaluates(a, 1);
        assert(point(self.tw@, 1 * a.len() + j) == self.evaluation_point(j));
        // the square of the first twiddle factor is the power of the root
        // with the size, which is -1
        let half = n / 2;
        let x = vstd::arithmetic::power::pow(psi, half);
        vstd::arithmetic::power::lemma_pow_adds(psi, half, half);
        lemma_mul_mod_noop(x, x, p);
        assert(half + half == n);
    }
}

/// The coefficients of `x * b` modulo `x^n + 1` and `p`: the coefficients of
/// `b` moved up by one place, with the opposite of the last one in the
/// first place.
pub open spec fn negacyclic_shift(b: Seq<u64>, p: u64) -> Seq<u64> {
    Seq::new(
        b.len(),
        |i: int|
            if i == 0 {
                ((-(b[b.len() - 1] as int)) % (p as int)) as u64
            } else {
                b[i - 1]
            },
    )
}

/// The coefficients of `c * b + d` modulo `p`.
pub open spec fn scaled_sum(c: u64, b: Seq<u64>, d: Seq<u64>, p: u64) -> Seq<u64> {
    Seq::new(b.len(), |i: int| ((d[i] + c * b[i]) % (p as int)) as u64)
}

/// The coefficients of the product of the polynomials `a` and `b` modulo
/// `x^n + 1` and `p`, with `n` the length of `b`: by Horner's rule,
/// `a * b = a[0] * b + x * (a[1..] * b)`.
pub open spec fn negacyclic_product(a: Seq<u64>, b: Seq<u64>, p: u64) -> Seq<u64>
    decreases a.len(),
{
    if a.len() == 0 {
        Seq::new(b.len(), |i: int| 0u64)
    } else {
        scaled_sum(
            a[0],
            b,
            negacyclic_shift(negacyclic_product(a.drop_first(), b, p), p),
            p,
        )
    }
}

/// The products of the elements of `a` and `b` modulo `p`, place by place.
pub open spec fn pointwise_product(a: Seq<u64>, b: Seq<u64>, p: u64) -> Seq<u64> {
    Seq::new(a.len(), |i: int| ((a[i] * b[i]) % (p as int)) as u64)
}

/// The product modulo `x^n + 1` has `n` coefficients, all reduced.
pub proof fn lemma_negacyclic_product_reduced(a: Seq<u64>, b: Seq<u64>, p: u64)
    requires
        p > 0,
    ensures
        negacyclic_product(a, b, p).len() == b.len(),
        reduced(negacyclic_product(a, b, p), p),
    decreases a.len(),
{
    let c = negacyclic_product(a, b, p);
    if a.len() > 0 {
        lemma_negacyclic_product_reduced(a.drop_first(), b, p);
        let d = negacyclic_shift(negacyclic_product(a.drop_first(), b, p), p);
        assert forall|i: int| 0 <= i < c.len() implies #[trigger] c[i] < p by {
            lemma_mod_bound(d[i] + a[0] * b[i], p as int);
        }
    }
}

/// The value of a polynomial is its first coefficient plus `x` times the
/// value of the others.
pub proof fn lemma_eval_first(a: Seq<u64>, x: int)
    requires
        a.len() >= 1,
    ensures
        eval(a, x) == a[0] + x * eval(a.drop_first(), x),
{
    lemma_eval_split(a, 1, x);
    let head = a.subrange(0, 1);
    assert(head.drop_last().len() == 0);
    assert(eval(head.drop_last(), x) == 0);
    assert(head.last() == a[0]);
    vstd::arithmetic::power::lemma_pow0(x);
    vstd::arithmetic::power::lemma_pow1(x);
    assert(eval(head, x) == 0 + a[0] * vstd::arithmetic::power::pow(x, 0));
    assert(a.subrange(1, a.len() as int) =~= a.drop_first());
}

/// At a root of `x^n + 1`, the value of `x * b` modulo `x^n + 1` is `x`
/// times the value of `b`.
pub proof fn lemma_eval_shift(b: Seq<u64>, r: int, p: u64)
    requires
        p > 0,
        b.len() >= 1,
        vstd::arithmetic::power::pow(r, b.len()) % (p as int) == p - 1,
    ensures
        eval(negacyclic_shift(b, p), r) % (p as int) == (r * eval(b, r)) % (p as int),
{
    let q = p as int;
    let n = b.len();
    let sb = negacyclic_shift(b, p);
    let last = b[n - 1] as int;
    let rest = eval(b.drop_last(), r);
    let rn = vstd::arithmetic::power::pow(r, n);
    let rm = vstd::arithmetic::power::pow(r, (n - 1) as nat);
    lemma_eval_first(sb, r);
    assert(sb.drop_first() =~= b.drop_last());
    // the first coefficient is -last, which is last * r^n modulo p
    lemma_mod_bound(-last, q);
    assert(sb[0] as int == (-last) % q);
    vstd::arithmetic::power::lemma_pow_adds(r, 1, (n - 1) as nat);
    vstd::arithmetic::power::lemma_pow1(r);
    assert(rn == r * rm);
    lemma_mul_mod_noop_right(last, rn, q);
    assert(last * (q - 1) == q * last + (-last)) by (nonlinear_arith);
    lemma_mod_multiples_vanish(last, -last, q);
    assert((last * rn) % q == (-last) % q);
    // r * eval(b) == r * rest + last * r^n
    assert(r * eval(b, r) == r * rest + last * rn) by (nonlinear_arith)
        requires
            eval(b, r) == rest + last * rm,
            rn == r * rm,
    ;
    lemma_add_mod_noop_right(r * rest, last * rn, q);
    lemma_add_mod_noop_right(r * rest, -last, q);
    lemma_add_mod_noop_right(r * rest, sb[0] as int, q);
    assert(eval(sb, r) == sb[0] + r * rest);
    lemma_mod_twice(-last, q);
}

/// At a root of `x^n + 1`, the value of the product modulo `x^n + 1` is the
/// product of the values.
pub proof fn lemma_eval_product(a: Seq<u64>, b: Seq<u64>, r: int, p: u64)
    requires
        p > 0,
        b.len() >= 1,
        vstd::arithmetic::power::pow(r, b.len()) % (p as int) == p - 1,
    ensures
        eval(negacyclic_product(a, b, p), r) % (p as int) == (eval(a, r) * eval(b, r)) % (p as int),
    decreases a.len(),
{
    let q = p as int;
    let c = negacyclic_product(a, b, p);
    lemma_negacyclic_product_reduced(a, b, p);
    if a.len() == 0 {
        lemma_eval_zero(b.len(), r);
        assert(c =~= Seq::new(b.len(), |i: int| 0u64));
        assert(0 * eval(b, r) == 0);
    } else {
        let rest = negacyclic_product(a.drop_first(), b, p);
        lemma_negacyclic_product_reduced(a.drop_first(), b, p);
        let d = negacyclic_shift(rest, p);
        lemma_eval_product(a.drop_first(), b, r, p);
        lemma_eval_shift(rest, r, p);
        // eval(c) == eval(d) + a[0] * eval(b) modulo p
        lemma_eval_combination(d, b, c, a[0] as int, r, q);
        lemma_eval_first(a, r);
        let ea = eval(a.drop_first(), r);
        let eb = eval(b, r);
        // eval(d) == r * eval(rest) == r * (ea * eb) modulo p
        lemma_mul_mod_noop_right(r, eval(rest, r), q);
        lemma_mul_mod_noop_right(r, ea * eb, q);
        lemma_add_mod_noop(eval(d, r), a[0] * eb, q);
        lemma_add_mod_noop(r * (ea * eb), a[0] * eb, q);
        assert(r * (ea * eb) + a[0] * eb == (a[0] + r * ea) * eb) by (nonlinear_arith);
    }
}

/// The value of the zero polynomial is zero.
pub proof fn lemma_eval_zero(n: nat, x: int)
    ensures
        eval(Seq::new(n, |i: int| 0u64), x) == 0,
    decreases n,
{
    let z = Seq::new(n, |i: int| 0u64);
    if n > 0 {
        lemma_eval_zero((n - 1) as nat, x);
        assert(z.drop_last() =~= Seq::new((n - 1) as nat, |i: int| 0u64));
        assert(0 * vstd::arithmetic::power::pow(x, (n - 1) as nat) == 0);
    }
}

impl NativeNtt {
    /// The forward transform turns the product of two polynomials modulo
    /// `x^n + 1` into the product of their transforms, place by place.
    pub proof fn lemma_forward_of_product(&self, a: Seq<u64>, b: Seq<u64>)
        requires
            self.wf(),
            a.len() == self.size(),
            b.len() == self.size(),
            reduced(a, self.modulus()),
            reduced(b, self.modulus()),
        ensures
            self.forward_spec(negacyclic_product(a, b, self.modulus())) == pointwise_product(
                self.forward_spec(a),
                self.forward_spec(b),
                self.modulus(),
            ),
    {
        let p = self.p.spec_modulus();
        let q = p as int;
        let c = negacyclic_product(a, b, p);
        reveal(is_pow2);
        lemma_negacyclic_product_reduced(a, b, p);
        lemma_transform_len(a, self.tw@, 1, p);
        lemma_transform_len(b, self.tw@, 1, p);
        lemma_transform_len(c, self.tw@, 1, p);
        let fa = self.forward_spec(a);
        let fb = self.forward_spec(b);
        let fc = self.forward_spec(c);
        assert forall|j: int| 0 <= j < self.size implies fc[j] == pointwise_product(fa, fb, p)[j] by {
            let r = self.evaluation_point(j);
            self.lemma_forward_evaluates(a, j);
            self.lemma_forward_evaluates(b, j);
            self.lemma_forward_evaluates(c, j);
            lemma_eval_product(a, b, r, p);
            lemma_mul_mod_noop(eval(a, r), eval(b, r), q);
            lemma_mod_bound(fa[j] * fb[j], q);
        }
        assert(fc =~= pointwise_product(fa, fb, p));
    }

    /// The product of two polynomials modulo `x^n + 1` is the backward
    /// transform of the product, place by place, of their forward
    /// transforms.
    pub proof fn lemma_product_by_transforms(&self, a: Seq<u64>, b: Seq<u64>)
        requires
            self.wf(),
            a.len() == self.size(),
            b.len() == self.size(),
            reduced(a, self.modulus()),
            reduced(b, self.modulus()),
        ensures
            self.backward_spec(
                pointwise_product(self.forward_spec(a), self.forward_spec(b), self.modulus()),
            ) == negacyclic_product(a, b, self.modulus()),
    {
        let c = negacyclic_product(a, b, self.modulus());
        lemma_negacyclic_product_reduced(a, b, self.modulus());
        self.lemma_forward_of_product(a, b);
        self.lemma_round_trip(c);
    }
}

/// The transform plan of `concrete-ntt` for 64-bit primes.
#[verifier::external_type_specification]
#[verifier::external_body]
pub struct ExPlan(Plan);

/// The size that a plan was made for.
pub uninterp spec fn plan_size(plan: Plan) -> nat;

/// The modulus that a plan was made for.
pub uninterp spec fn plan_modulus(plan: Plan) -> u64;

/// What the forward transform of the plan for the modulus `p` and the size
/// `a.len()` makes of `a`.
pub uninterp spec fn plan_forward(p: u64, a: Seq<u64>) -> Seq<u64>;

/// What the inverse transform of the plan for the modulus `p` and the size
/// `a.len()` makes of `a`, before it is normalized.
pub uninterp spec fn plan_inverse(p: u64, a: Seq<u64>) -> Seq<u64>;

/// What `concrete-ntt` documents of the two transforms of a plan for the
/// modulus `p` and the size `n`, on reduced vectors of that size: the
/// inverse transform of the forward transform of a vector is the vector
/// times `n`, and the inverse transform of the product, place by place, of
/// the forward transforms of two vectors is their product modulo `x^n + 1`
/// times `n`.
pub open spec fn plan_laws(p: u64, n: nat) -> bool {
    &&& forall|a: Seq<u64>|
        a.len() == n && reduced(a, p) ==> plan_inverse(p, #[trigger] plan_forward(p, a)) == scaled(
            a,
            n as u64,
            p,
        )
    &&& forall|a: Seq<u64>, b: Seq<u64>|
        a.len() == n && b.len() == n && reduced(a, p) && reduced(b, p) ==> plan_inverse(
            p,
            pointwise_product(plan_forward(p, a), plan_forward(p, b), p),
        ) == scaled(#[trigger] negacyclic_product(a, b, p), n as u64, p)
}

/// `Plan::try_new`, which panics on a modulus below 2: a plan for the size
/// and the modulus, or `None` where the crate has none for them. It has
/// none for a size below 16, and the transforms of a plan obey the laws that
/// the crate documents.
#[verifier::external_body]
fn plan_try_new(size: usize, p: u64) -> (r: Option<Plan>)
    requires
        p >= 2,
    ensures
        r matches Some(plan) ==> plan_size(plan) == size && plan_modulus(plan) == p && size >= 16
            && plan_laws(p, size as nat),
{
    Plan::try_new(size, p)
}

/// `Plan::fwd`, which panics unless the buffer has the plan's size: the
/// buffer then holds the transform, a function of the modulus and the buffer
/// alone, with every value reduced.
#[verifier::external_body]
fn plan_fwd(plan: &Plan, a: &mut [u64])
    requires
        old(a)@.len() == plan_size(*plan),
        plan_modulus(*plan) < 0x4000_0000_0000_0000,
        reduced(old(a)@, plan_modulus(*plan)),
    ensures
        final(a)@ == plan_forward(plan_modulus(*plan), old(a)@),
        final(a)@.len() == old(a)@.len(),
        reduced(final(a)@, plan_modulus(*plan)),
{
    plan.fwd(a)
}

/// `Plan::inv`, which panics unless the buffer has the plan's size: the
/// buffer then holds the inverse transform without its normalization, a
/// function of the modulus and the buffer alone.
#[verifier::external_body]
fn plan_inv(plan: &Plan, a: &mut [u64])
    requires
        old(a)@.len() == plan_size(*plan),
        plan_modulus(*plan) < 0x4000_0000_0000_0000,
        reduced(old(a)@, plan_modulus(*plan)),
    ensures
        final(a)@ == plan_inverse(plan_modulus(*plan), old(a)@),
        final(a)@.len() == old(a)@.len(),
{
    plan.inv(a)
}

/// `Plan::normalize` on a buffer of the plan's size: every value is
/// multiplied by the inverse of the plan's size modulo its modulus, so the
/// new value is the reduced number whose product with the size is congruent
/// to the old value.
#[verifier::external_body]
fn plan_normalize(plan: &Plan, a: &mut [u64])
    requires
        old(a)@.len() == plan_size(*plan),
        plan_modulus(*plan) < 0x4000_0000_0000_0000,
    ensures
        final(a)@.len() == old(a)@.len(),
        reduced(final(a)@, plan_modulus(*plan)),
        forall|i: int|
            0 <= i < old(a)@.len() ==> (#[trigger] final(a)@[i] * plan_size(*plan)) % (
            plan_modulus(*plan) as int) == old(a)@[i] % plan_modulus(*plan),
{
    plan.normalize(a)
}

/// A negacyclic transform of a given size modulo a given prime. It uses the
/// accelerated plan where there is one for the pair, and the reference
/// tables otherwise.
#[derive(Clone, Debug)]
pub struct NttOperator {
    p: u64,
    size: usize,
    plan: Option<Plan>,
    native: NativeNtt,
}

impl NttOperator {
    /// The modulus.
    pub closed spec fn modulus(&self) -> u64 {
        self.p
    }

    /// The size of the transform.
    pub closed spec fn size(&self) -> nat {
        self.size as nat
    }

    /// Whether the accelerated plan is in use.
    pub closed spec fn accelerated(&self) -> bool {
        self.plan.is_some()
    }

    /// The reference tables.
    pub closed spec fn reference(&self) -> NativeNtt {
        self.native
    }

    /// Well-formedness: the reference tables are well formed, and both
    /// backends are for this modulus and size.
    pub closed spec fn wf(&self) -> bool {
        &&& self.native.wf()
        &&& self.native.modulus() == self.p
        &&& self.native.size() == self.size
        &&& self.p < 0x4000_0000_0000_0000
        &&& self.plan matches Some(plan) ==> plan_size(plan) == self.size && plan_modulus(plan)
            == self.p && self.size >= 16 && plan_laws(self.p, self.size as nat)
    }

    /// What the forward transform makes of `a`.
    pub open spec fn forward_spec(&self, a: Seq<u64>) -> Seq<u64> {
        if self.accelerated() {
            plan_forward(self.modulus(), a)
        } else {
            self.reference().forward_spec(a)
        }
    }

    /// What the backward transform makes of `a`: with the accelerated plan,
    /// the plan's inverse transform divided by the size; with the reference
    /// tables, the transform of [`NativeNtt::backward_spec`].
    pub open spec fn backward_spec(&self, a: Seq<u64>) -> Seq<u64> {
        if self.accelerated() {
            scaled(plan_inverse(self.modulus(), a), self.reference().size_inverse(), self.modulus())
        } else {
            self.reference().backward_spec(a)
        }
    }

    /// The transform of size `size` modulo `p`, or `None` where the modulus
    /// does not support it.
    pub fn new(p: &Modulus, size: usize) -> (r: Option<NttOperator>)
        requires
            p.wf(),
            is_pow2(size as int),
            8 <= size < 0x4000_0000,
        ensures
            r.is_some() <==> has_transform(p.spec_modulus(), size as nat),
            r matches Some(op) ==> op.wf() && op.modulus() == p.spec_modulus() && op.size()
                == size && (size < 16 ==> !op.accelerated()),
    {
        match NativeNtt::new(p, size) {
            None => None,
            Some(native) => Some(
                NttOperator { p: p.modulus(), size, plan: plan_try_new(size, p.modulus()), native },
            ),
        }
    }

    /// Whether the accelerated plan is in use.
    pub fn is_accelerated(&self) -> (r: bool)
        ensures
            r == self.accelerated(),
    {
        self.plan.is_some()
    }

    /// Whether two operators are for the same modulus and size.
    pub fn eq(&self, other: &NttOperator) -> (r: bool)
        ensures
            r == (self.modulus() == other.modulus() && self.size() == other.size()),
    {
        self.p == other.p && self.size == other.size
    }

    /// The forward transform of `a`, in place and in constant time.
    pub fn forward(&self, a: &mut [u64])
        requires
            self.wf(),
            old(a)@.len() == self.size(),
            reduced(old(a)@, self.modulus()),
        ensures
            final(a)@ == self.forward_spec(old(a)@),
            final(a)@.len() == old(a)@.len(),
            reduced(final(a)@, self.modulus()),
    {
        match &self.plan {
            Some(plan) => plan_fwd(plan, a),
            None => self.native.forward(a, false),
        }
    }

    /// The backward transform of `a`, in place and in constant time.
    pub fn backward(&self, a: &mut [u64])
        requires
            self.wf(),
            old(a)@.len() == self.size(),
            reduced(old(a)@, self.modulus()),
        ensures
            final(a)@ == self.backward_spec(old(a)@),
            final(a)@.len() == old(a)@.len(),
            reduced(final(a)@, self.modulus()),
    {
        match &self.plan {
            Some(plan) => {
                plan_inv(plan, a);
                let ghost mid = a@;
                plan_normalize(plan, a);
                proof {
                    self.native.lemma_normalized(mid, a@);
                }
            },
            None => self.native.backward(a, false),
        }
    }

    /// The forward transform of `a`, in place and in variable time.
    pub fn forward_vt(&self, a: &mut [u64])
        requires
            self.wf(),
            old(a)@.len() == self.size(),
            reduced(old(a)@, self.modulus()),
        ensures
            final(a)@ == self.forward_spec(old(a)@),
            final(a)@.len() == old(a)@.len(),
            reduced(final(a)@, self.modulus()),
    {
        match &self.plan {
            Some(plan) => plan_fwd(plan, a),
            None => self.native.forward(a, true),
        }
    }

    /// The forward transform of `a`, in place and in variable time, for
    /// callers that accept values below `4p`; the values it leaves are fully
    /// reduced.
    pub fn forward_vt_lazy(&self, a: &mut [u64])
        requires
            self.wf(),
            old(a)@.len() == self.size(),
            reduced(old(a)@, self.modulus()),
        ensures
            final(a)@ == self.forward_spec(old(a)@),
            final(a)@.len() == old(a)@.len(),
            reduced(final(a)@, self.modulus()),
    {
        self.forward_vt(a)
    }

    /// The backward transform of `a`, in place and in variable time.
    pub fn backward_vt(&self, a: &mut [u64])
        requires
            self.wf(),
            old(a)@.len() == self.size(),
            reduced(old(a)@, self.modulus()),
        ensures
            final(a)@ == self.backward_spec(old(a)@),
            final(a)@.len() == old(a)@.len(),
            reduced(final(a)@, self.modulus()),
    {
        match &self.plan {
            Some(plan) => {
                plan_inv(plan, a);
                let ghost mid = a@;
                plan_normalize(plan, a);
                proof {
                    self.native.lemma_normalized(mid, a@);
                }
            },
            None => self.native.backward(a, true),
        }
    }
}

/// The sums of the elements of `a` and `b` modulo `p`, place by place.
pub open spec fn pointwise_sum(a: Seq<u64>, b: Seq<u64>, p: u64) -> Seq<u64> {
    Seq::new(a.len(), |i: int| ((a[i] + b[i]) % (p as int)) as u64)
}

/// The differences of the elements of `a` and `b` modulo `p`, place by
/// place.
pub open spec fn pointwise_difference(a: Seq<u64>, b: Seq<u64>, p: u64) -> Seq<u64> {
    Seq::new(a.len(), |i: int| ((a[i] - b[i]) % (p as int)) as u64)
}

/// The opposites of the elements of `a` modulo `p`, place by place.
pub open spec fn pointwise_negation(a: Seq<u64>, p: u64) -> Seq<u64> {
    Seq::new(a.len(), |i: int| ((-(a[i] as int)) % (p as int)) as u64)
}

/// The coefficients of the constant polynomial `c`, among `n` coefficients.
pub open spec fn constant(c: u64, n: nat) -> Seq<u64> {
    Seq::new(
        n,
        |i: int|
            if i == 0 {
                c
            } else {
                0u64
            },
    )
}

/// The product of a polynomial of at most `n` coefficients with a constant
/// polynomial modulo `x^n + 1` has the coefficients of the polynomial times
/// the constant, followed by zeros.
pub proof fn lemma_product_with_constant(a: Seq<u64>, c: u64, n: nat, p: u64)
    requires
        p > 0,
        n >= 1,
        a.len() <= n,
    ensures
        negacyclic_product(a, constant(c, n), p).len() == n,
        forall|i: int|
            0 <= i < n ==> (#[trigger] negacyclic_product(a, constant(c, n), p)[i]) as int == (
            if i < a.len() {
                (a[i] * c) % (p as int)
            } else {
                0int
            }),
    decreases a.len(),
{
    let q = p as int;
    let b = constant(c, n);
    let prod = negacyclic_product(a, b, p);
    lemma_negacyclic_product_reduced(a, b, p);
    if a.len() > 0 {
        let rest = negacyclic_product(a.drop_first(), b, p);
        lemma_product_with_constant(a.drop_first(), c, n, p);
        lemma_negacyclic_product_reduced(a.drop_first(), b, p);
        let d = negacyclic_shift(rest, p);
        assert forall|i: int| 0 <= i < n implies (#[trigger] prod[i]) as int == (if i < a.len() {
            (a[i] * c) % q
        } else {
            0int
        }) by {
            lemma_small_mod(0, p as nat);
            if i == 0 {
                // the last coefficient of the rest is zero
                assert(rest[n - 1] == 0);
                assert(d[0] == 0);
                lemma_mod_bound(a[0] * c, q);
            } else {
                assert(d[i] == rest[i - 1]);
                assert(a[0] * b[i] == 0) by (nonlinear_arith)
                    requires
                        b[i] == 0,
                ;
                if i < a.len() {
                    assert(a.drop_first()[i - 1] == a[i]);
                }
                lemma_small_mod(rest[i - 1] as nat, p as nat);
            }
        }
    }
}

impl NativeNtt {
    /// The forward transform of a sum is the sum of the transforms.
    pub proof fn lemma_forward_of_sum(&self, a: Seq<u64>, b: Seq<u64>)
        requires
            self.wf(),
            a.len() == self.size(),
            b.len() == self.size(),
            reduced(a, self.modulus()),
            reduced(b, self.modulus()),
        ensures
            self.forward_spec(pointwise_sum(a, b, self.modulus())) == pointwise_sum(
                self.forward_spec(a),
                self.forward_spec(b),
                self.modulus(),
            ),
    {
        let p = self.p.spec_modulus();
        let q = p as int;
        let c = pointwise_sum(a, b, p);
        reveal(is_pow2);
        assert(reduced(c, p)) by {
            assert forall|i: int| 0 <= i < c.len() implies #[trigger] c[i] < p by {
                lemma_mod_bound(a[i] + b[i], q);
            }
        }
        lemma_transform_len(a, self.tw@, 1, p);
        lemma_transform_len(b, self.tw@, 1, p);
        lemma_transform_len(c, self.tw@, 1, p);
        let fa = self.forward_spec(a);
        let fb = self.forward_spec(b);
        let fc = self.forward_spec(c);
        assert forall|j: int| 0 <= j < self.size implies fc[j] == pointwise_sum(fa, fb, p)[j] by {
            let r = self.evaluation_point(j);
            self.lemma_forward_evaluates(a, j);
            self.lemma_forward_evaluates(b, j);
            self.lemma_forward_evaluates(c, j);
            assert forall|i: int| 0 <= i < c.len() implies (#[trigger] c[i]) as int == (a[i] + 1
                * b[i]) % q by {
                lemma_mod_bound(a[i] + b[i], q);
            }
            lemma_eval_combination(a, b, c, 1, r, q);
            assert(1 * eval(b, r) == eval(b, r));
            lemma_add_mod_noop(eval(a, r), eval(b, r), q);
            lemma_mod_bound(fa[j] + fb[j], q);
        }
        assert(fc =~= pointwise_sum(fa, fb, p));
    }
}

impl NativeNtt {
    /// The forward transform of a difference is the difference of the
    /// transforms.
    pub proof fn lemma_forward_of_difference(&self, a: Seq<u64>, b: Seq<u64>)
        requires
            self.wf(),
            a.len() == self.size(),
            b.len() == self.size(),
            reduced(a, self.modulus()),
            reduced(b, self.modulus()),
        ensures
            self.forward_spec(pointwise_difference(a, b, self.modulus())) == pointwise_difference(
                self.forward_spec(a),
                self.forward_spec(b),
                self.modulus(),
            ),
    {
        let p = self.p.spec_modulus();
        let q = p as int;
        let c = pointwise_difference(a, b, p);
        reveal(is_pow2);
        assert(reduced(c, p)) by {
            assert forall|i: int| 0 <= i < c.len() implies #[trigger] c[i] < p by {
                lemma_mod_bound(a[i] - b[i], q);
            }
        }
        lemma_transform_len(a, self.tw@, 1, p);
        lemma_transform_len(b, self.tw@, 1, p);
        lemma_transform_len(c, self.tw@, 1, p);
        let fa = self.forward_spec(a);
        let fb = self.forward_spec(b);
        let fc = self.forward_spec(c);
        assert forall|j: int| 0 <= j < self.size implies fc[j] == pointwise_difference(fa, fb, p)[j] by {
            let r = self.evaluation_point(j);
            self.lemma_forward_evaluates(a, j);
            self.lemma_forward_evaluates(b, j);
            self.lemma_forward_evaluates(c, j);
            assert forall|i: int| 0 <= i < c.len() implies (#[trigger] c[i]) as int == (a[i] + (
            -1int) * b[i]) % q by {
                lemma_mod_bound(a[i] - b[i], q);
            }
            lemma_eval_combination(a, b, c, -1, r, q);
            assert((-1int) * eval(b, r) == -eval(b, r));
            lemma_sub_mod_noop(eval(a, r), eval(b, r), q);
            lemma_mod_bound(fa[j] - fb[j], q);
        }
        assert(fc =~= pointwise_difference(fa, fb, p));
    }
}

impl NativeNtt {
    /// The forward transform of the opposite is the opposite of the
    /// transform.
    pub proof fn lemma_forward_of_negation(&self, a: Seq<u64>)
        requires
            self.wf(),
            a.len() == self.size(),
            reduced(a, self.modulus()),
        ensures
            self.forward_spec(pointwise_negation(a, self.modulus())) == pointwise_negation(
                self.forward_spec(a),
                self.modulus(),
            ),
    {
        let p = self.p.spec_modulus();
        let q = p as int;
        let zero = Seq::new(self.size as nat, |i: int| 0u64);
        let c = pointwise_negation(a, p);
        reveal(is_pow2);
        assert(reduced(zero, p));
        assert(c =~= pointwise_difference(zero, a, p));
        self.lemma_forward_of_difference(zero, a);
        lemma_transform_len(a, self.tw@, 1, p);
        lemma_transform_len(zero, self.tw@, 1, p);
        lemma_transform_len(c, self.tw@, 1, p);
        let fz = self.forward_spec(zero);
        let fa = self.forward_spec(a);
        assert forall|j: int| 0 <= j < self.size implies fz[j] == 0 by {
            self.lemma_forward_evaluates(zero, j);
            lemma_eval_zero(self.size as nat, self.evaluation_point(j));
            lemma_small_mod(0, p as nat);
        }
        assert(pointwise_difference(fz, fa, p) =~= pointwise_negation(fa, p));
    }
}

impl NttOperator {
    /// With the reference tables, the forward transform of the opposite is
    /// the opposite of the transform.
    pub proof fn lemma_forward_of_negation(&self, a: Seq<u64>)
        requires
            self.wf(),
            !self.accelerated(),
            a.len() == self.size(),
            reduced(a, self.modulus()),
        ensures
            self.forward_spec(pointwise_negation(a, self.modulus())) == pointwise_negation(
                self.forward_spec(a),
                self.modulus(),
            ),
    {
        self.native.lemma_forward_of_negation(a);
    }

    /// With the reference tables, the forward transform of a difference is
    /// the difference of the transforms.
    pub proof fn lemma_forward_of_difference(&self, a: Seq<u64>, b: Seq<u64>)
        requires
            self.wf(),
            !self.accelerated(),
            a.len() == self.size(),
            b.len() == self.size(),
            reduced(a, self.modulus()),
            reduced(b, self.modulus()),
        ensures
            self.forward_spec(pointwise_difference(a, b, self.modulus())) == pointwise_difference(
                self.forward_spec(a),
                self.forward_spec(b),
                self.modulus(),
            ),
    {
        self.native.lemma_forward_of_difference(a, b);
    }

    /// With the reference tables, the forward transform of a sum is the sum
    /// of the transforms.
    pub proof fn lemma_forward_of_sum(&self, a: Seq<u64>, b: Seq<u64>)
        requires
            self.wf(),
            !self.accelerated(),
            a.len() == self.size(),
            b.len() == self.size(),
            reduced(a, self.modulus()),
            reduced(b, self.modulus()),
        ensures
            self.forward_spec(pointwise_sum(a, b, self.modulus())) == pointwise_sum(
                self.forward_spec(a),
                self.forward_spec(b),
                self.modulus(),
            ),
    {
        self.native.lemma_forward_of_sum(a, b);
    }

    /// With the reference tables, the forward transform turns the product
    /// of two polynomials modulo `x^n + 1` into the product of their
    /// transforms, place by place.
    pub proof fn lemma_forward_of_product(&self, a: Seq<u64>, b: Seq<u64>)
        requires
            self.wf(),
            !self.accelerated(),
            a.len() == self.size(),
            b.len() == self.size(),
            reduced(a, self.modulus()),
            reduced(b, self.modulus()),
        ensures
            self.forward_spec(negacyclic_product(a, b, self.modulus())) == pointwise_product(
                self.forward_spec(a),
                self.forward_spec(b),
                self.modulus(),
            ),
    {
        self.native.lemma_forward_of_product(a, b);
    }
}

impl NttOperator {
    /// With the reference tables, the forward transform undoes the backward
    /// transform.
    pub proof fn lemma_round_trip_back(&self, a: Seq<u64>)
        requires
            self.wf(),
            !self.accelerated(),
            a.len() == self.size(),
            reduced(a, self.modulus()),
        ensures
            self.forward_spec(self.backward_spec(a)) == a,
    {
        self.native.lemma_round_trip_back(a);
    }

    /// With either backend, the backward transform undoes the forward
    /// transform.
    pub proof fn lemma_round_trip(&self, a: Seq<u64>)
        requires
            self.wf(),
            a.len() == self.size(),
            reduced(a, self.modulus()),
        ensures
            self.backward_spec(self.forward_spec(a)) == a,
    {
        if self.accelerated() {
            let p = self.p;
            let between = plan_inverse(p, plan_forward(p, a));
            assert(between == scaled(a, self.size as u64, p));
            self.native.lemma_scaled_back(a);
        } else {
            self.native.lemma_round_trip(a);
        }
    }

    /// With either backend, the product of two polynomials modulo
    /// `x^n + 1` is the backward transform of the product, place by place,
    /// of their forward transforms.
    pub proof fn lemma_product_by_transforms(&self, a: Seq<u64>, b: Seq<u64>)
        requires
            self.wf(),
            a.len() == self.size(),
            b.len() == self.size(),
            reduced(a, self.modulus()),
            reduced(b, self.modulus()),
        ensures
            self.backward_spec(
                pointwise_product(self.forward_spec(a), self.forward_spec(b), self.modulus()),
            ) == negacyclic_product(a, b, self.modulus()),
    {
        if self.accelerated() {
            let p = self.p;
            let c = negacyclic_product(a, b, p);
            lemma_negacyclic_product_reduced(a, b, p);
            let between = plan_inverse(
                p,
                pointwise_product(plan_forward(p, a), plan_forward(p, b), p),
            );
            assert(between == scaled(c, self.size as u64, p));
            self.native.lemma_scaled_back(c);
        } else {
            self.native.lemma_product_by_transforms(a, b);
        }
    }

    /// An operator of a size below 16 uses the reference tables.
    pub proof fn lemma_small_sizes(&self)
        requires
            self.wf(),
            self.size() < 16,
        ensures
            !self.accelerated(),
    {
    }
}

impl NativeNtt {
    /// Multiplying a reduced vector by the size and then by the inverse of
    /// the size gives the vector back.
    pub proof fn lemma_scaled_back(&self, a: Seq<u64>)
        requires
            self.wf(),
            reduced(a, self.modulus()),
        ensures
            scaled(scaled(a, self.size() as u64, self.modulus()), self.size_inverse(), self.modulus())
                == a,
    {
        let p = self.p.spec_modulus() as int;
        let n = self.size as int;
        let once = scaled(a, self.size as u64, self.p.spec_modulus());
        let twice = scaled(once, self.size_inv, self.p.spec_modulus());
        assert forall|j: int| 0 <= j < a.len() implies twice[j] == a[j] by {
            lemma_mod_bound(a[j] * n, p);
            lemma_mod_bound(once[j] * self.size_inv, p);
            lemma_mul_mod_noop_left(a[j] * n, self.size_inv as int, p);
            assert((a[j] * n) * self.size_inv == a[j] * (self.size_inv * n)) by (nonlinear_arith);
            lemma_mul_mod_noop_right(a[j] as int, self.size_inv * n, p);
            assert(a[j] * 1 == a[j]);
            lemma_small_mod(a[j] as nat, p as nat);
        }
        assert(twice =~= a);
    }
}

/// With the reference tables, the forward transform of a reduced vector of
/// the size of the operator has that size, and its elements are reduced.
pub proof fn lemma_forward_sizes(op: NttOperator, a: Seq<u64>)
    requires
        op.wf(),
        !op.accelerated(),
        a.len() == op.size(),
        reduced(a, op.modulus()),
    ensures
        op.forward_spec(a).len() == a.len(),
        reduced(op.forward_spec(a), op.modulus()),
{
    let p = op.native.p.spec_modulus();
    lemma_transform_len(a, op.native.tw@, 1, p);
    reveal(is_pow2);
    let f = op.forward_spec(a);
    assert forall|j: int| 0 <= j < f.len() implies #[trigger] f[j] < p by {
        op.native.lemma_forward_evaluates(a, j);
        lemma_mod_bound(eval(a, op.native.evaluation_point(j)), p as int);
    }
}

/// With the reference tables, the forward transform of zeros is zeros.
pub proof fn lemma_forward_of_zero(op: NttOperator)
    requires
        op.wf(),
        !op.accelerated(),
    ensures
        op.forward_spec(Seq::new(op.size(), |i: int| 0u64)) == Seq::new(op.size(), |i: int| 0u64),
{
    let p = op.native.p.spec_modulus();
    let zero = Seq::new(op.size(), |i: int| 0u64);
    lemma_transform_len(zero, op.native.tw@, 1, p);
    reveal(is_pow2);
    let f = op.forward_spec(zero);
    assert forall|j: int| 0 <= j < f.len() implies #[trigger] f[j] == 0 by {
        op.native.lemma_forward_evaluates(zero, j);
        lemma_eval_zero(op.size(), op.native.evaluation_point(j));
        lemma_small_mod(0, p as nat);
    }
    assert(f =~= zero);
}

/// With the reference tables, the backward transform of a vector of the
/// size of the operator has that size, and its elements are reduced.
pub proof fn lemma_backward_sizes(op: NttOperator, a: Seq<u64>)
    requires
        op.wf(),
        !op.accelerated(),
        a.len() == op.size(),
    ensures
        op.backward_spec(a).len() == a.len(),
        reduced(op.backward_spec(a), op.modulus()),
{
    let p = op.native.p.spec_modulus();
    lemma_transform_len(a, op.native.tw_inv@, 1, p);
    let b = backward_at(a, op.native.tw_inv@, 1, p);
    let r = op.backward_spec(a);
    assert forall|j: int| 0 <= j < r.len() implies #[trigger] r[j] < p by {
        lemma_mod_bound(b[j] * op.native.size_inv, p as int);
    }
}

/// With the reference tables, the forward transform of a vector of the size
/// of the operator has that size.
pub proof fn lemma_transform_sizes(op: NttOperator, a: Seq<u64>)
    requires
        op.wf(),
        !op.accelerated(),
        a.len() == op.size(),
    ensures
        op.forward_spec(a).len() == a.len(),
{
    lemma_transform_len(a, op.native.tw@, 1, op.native.p.spec_modulus());
}

/// Operations of a transform operator.
pub trait NttOp: Sized {
    /// Well-formedness of the operator.
    spec fn op_wf(&self) -> bool;

    /// The modulus.
    spec fn op_modulus(&self) -> u64;

    /// The size of the transform.
    spec fn op_size(&self) -> nat;

    /// What the forward transform makes of a vector.
    spec fn op_forward(&self, a: Seq<u64>) -> Seq<u64>;

    /// What the backward transform makes of a vector.
    spec fn op_backward(&self, a: Seq<u64>) -> Seq<u64>;

    /// Creates an operator for a modulus and a size that is a power of two
    /// at least 8, or `None` where the modulus does not support the
    /// transform of that size.
    fn new(p: &Modulus, size: usize) -> (r: Option<Self>)
        requires
            p.wf(),
            is_pow2(size as int),
            8 <= size < 0x4000_0000,
        ensures
            r.is_some() <==> has_transform(p.spec_modulus(), size as nat),
            r matches Some(op) ==> op.op_wf() && op.op_modulus() == p.spec_modulus() && op.op_size()
                == size,
    ;

    /// Computes the forward transform in place.
    fn forward(&self, a: &mut [u64])
        requires
            self.op_wf(),
            old(a)@.len() == self.op_size(),
            reduced(old(a)@, self.op_modulus()),
        ensures
            final(a)@ == self.op_forward(old(a)@),
            final(a)@.len() == old(a)@.len(),
            reduced(final(a)@, self.op_modulus()),
    ;

    /// Computes the backward transform in place.
    fn backward(&self, a: &mut [u64])
        requires
            self.op_wf(),
            old(a)@.len() == self.op_size(),
            reduced(old(a)@, self.op_modulus()),
        ensures
            final(a)@ == self.op_backward(old(a)@),
            final(a)@.len() == old(a)@.len(),
            reduced(final(a)@, self.op_modulus()),
    ;

    /// Computes the forward transform in place, in variable time.
    fn forward_vt(&self, a: &mut [u64])
        requires
            self.op_wf(),
            old(a)@.len() == self.op_size(),
            reduced(old(a)@, self.op_modulus()),
        ensures
            final(a)@ == self.op_forward(old(a)@),
            final(a)@.len() == old(a)@.len(),
            reduced(final(a)@, self.op_modulus()),
    ;

    /// Computes the forward transform in place, in variable time, for
    /// callers that accept values up to four times the modulus.
    fn forward_vt_lazy(&self, a: &mut [u64])
        requires
            self.op_wf(),
            old(a)@.len() == self.op_size(),
            reduced(old(a)@, self.op_modulus()),
        ensures
            final(a)@.len() == old(a)@.len(),
            forall|i: int|
                0 <= i < final(a)@.len() ==> (#[trigger] final(a)@[i]) < 4 * self.op_modulus()
                    && final(a)@[i] % self.op_modulus() == self.op_forward(old(a)@)[i],
    ;

    /// Computes the backward transform in place, in variable time.
    fn backward_vt(&self, a: &mut [u64])
        requires
            self.op_wf(),
            old(a)@.len() == self.op_size(),
            reduced(old(a)@, self.op_modulus()),
        ensures
            final(a)@ == self.op_backward(old(a)@),
            final(a)@.len() == old(a)@.len(),
            reduced(final(a)@, self.op_modulus()),
    ;
}

impl NttOp for NttOperator {
    open spec fn op_wf(&self) -> bool {
        self.wf()
    }

    open spec fn op_modulus(&self) -> u64 {
        self.modulus()
    }

    open spec fn op_size(&self) -> nat {
        self.size()
    }

    open spec fn op_forward(&self, a: Seq<u64>) -> Seq<u64> {
        self.forward_spec(a)
    }

    open spec fn op_backward(&self, a: Seq<u64>) -> Seq<u64> {
        self.backward_spec(a)
    }

    fn new(p: &Modulus, size: usize) -> (r: Option<Self>) {
        NttOperator::new(p, size)
    }

    fn forward(&self, a: &mut [u64]) {
        NttOperator::forward(self, a)
    }

    fn backward(&self, a: &mut [u64]) {
        NttOperator::backward(self, a)
    }

    fn forward_vt(&self, a: &mut [u64]) {
        NttOperator::forward_vt(self, a)
    }

    fn forward_vt_lazy(&self, a: &mut [u64]) {
        NttOperator::forward_vt_lazy(self, a);
        proof {
            assert forall|i: int| 0 <= i < a@.len() implies (#[trigger] a@[i]) < 4 * self.modulus()
                && a@[i] % self.modulus() == self.forward_spec(old(a)@)[i] by {
                lemma_small_mod(a@[i] as nat, self.modulus() as nat);
            }
        }
    }

    fn backward_vt(&self, a: &mut [u64]) {
        NttOperator::backward_vt(self, a)
    }
}

impl NttOp for NativeNtt {
    open spec fn op_wf(&self) -> bool {
        self.wf()
    }

    open spec fn op_modulus(&self) -> u64 {
        self.modulus()
    }

    open spec fn op_size(&self) -> nat {
        self.size()
    }

    open spec fn op_forward(&self, a: Seq<u64>) -> Seq<u64> {
        self.forward_spec(a)
    }

    open spec fn op_backward(&self, a: Seq<u64>) -> Seq<u64> {
        self.backward_spec(a)
    }

    fn new(p: &Modulus, size: usize) -> (r: Option<Self>) {
        NativeNtt::new(p, size)
    }

    fn forward(&self, a: &mut [u64]) {
        NativeNtt::forward(self, a, false)
    }

    fn backward(&self, a: &mut [u64]) {
        NativeNtt::backward(self, a, false)
    }

    fn forward_vt(&self, a: &mut [u64]) {
        NativeNtt::forward(self, a, true)
    }

    fn forward_vt_lazy(&self, a: &mut [u64]) {
        NativeNtt::forward(self, a, true);
        proof {
            assert forall|i: int| 0 <= i < a@.len() implies (#[trigger] a@[i]) < 4 * self.modulus()
                && a@[i] % self.modulus() == self.forward_spec(old(a)@)[i] by {
                lemma_small_mod(a@[i] as nat, self.modulus() as nat);
            }
        }
    }

    fn backward_vt(&self, a: &mut [u64]) {
        NativeNtt::backward(self, a, true)
    }
}

} // verus!
