//! Moduli of a shape that allows reductions with a single multiplication, and
//! the search for primes of that kind.

use vstd::arithmetic::power2::*;
use vstd::prelude::*;
use vstd::std_specs::bits::u64_leading_zeros;

verus! {

/// The shape condition on a modulus `p` with `s` leading zeros in its 64-bit
/// word: `(2^(3s) + 1) * 2^64 < 2^(3s) * (2^s + 1) * p`.
pub open spec fn nfl_shape(p: int, s: nat) -> bool {
    (pow2(3 * s) + 1) * pow2(64) < pow2(3 * s) * (pow2(s) + 1) * p
}

/// Whether `p` is a prime number.
pub open spec fn is_prime(p: nat) -> bool {
    &&& p >= 2
    &&& forall|d: nat| 2 <= d < p ==> #[trigger] (p % d) != 0
}

/// `concrete_ntt::prime::is_prime64`, a deterministic Miller-Rabin test that
/// is exact on every 64-bit number: whether `p` is prime.
#[verifier::external_body]
pub(crate) fn is_prime64(p: u64) -> (r: bool)
    ensures
        r == is_prime(p as nat),
{
    concrete_ntt::prime::is_prime64(p)
}

/// 2^e as a 128-bit word.
pub fn pow2_u128(e: u32) -> (r: u128)
    requires
        e < 128,
    ensures
        r as nat == pow2(e as nat),
{
    let mut r: u128 = 1;
    let mut i: u32 = 0;
    proof {
        lemma2_to64();
    }
    while i < e
        invariant
            i <= e < 128,
            r as nat == pow2(i as nat),
        decreases e - i,
    {
        proof {
            lemma_pow2_unfold((i + 1) as nat);
            lemma_pow2_strictly_increases((i + 1) as nat, 128);
            lemma_pow2_adds(64, 64);
            lemma2_to64_rest();
        }
        r = r * 2;
        i += 1;
    }
    r
}

/// Whether the single-multiplication reductions are valid modulo `p`.
pub fn supports_opt(p: u64) -> (r: bool)
    ensures
        r == nfl_shape(p as int, u64_leading_zeros(p) as nat),
{
    let s: u32 = p.leading_zeros();
    proof {
        lemma_leading_zeros_bounds(p);
        lemma2_to64();
        lemma2_to64_rest();
    }
    if s >= 64 {
        // p == 0
        proof {
            lemma_pow2_pos(3 * (s as nat));
            assert((pow2(3 * (s as nat)) + 1) * pow2(64) >= 0) by (nonlinear_arith)
                requires
                    pow2(3 * (s as nat)) > 0,
                    pow2(64) > 0,
            ;
            assert(pow2(3 * (s as nat)) * (pow2(s as nat) + 1) * 0 == 0) by (nonlinear_arith);
        }
        return false;
    }
    let ps: u128 = pow2_u128(s);
    proof {
        lemma_pow2_adds(s as nat, (64 - s) as nat);
        assert((ps + 1) * p < 2 * pow2(64)) by (nonlinear_arith)
            requires
                ps * pow2((64 - s) as nat) == pow2(64),
                p < pow2((64 - s) as nat),
                p < pow2(64),
                ps >= 0,
                p >= 0,
        {
            assert(ps * p <= ps * pow2((64 - s) as nat));
        }
    }
    let x: u128 = (ps + 1) * (p as u128);
    let ghost k = pow2(3 * (s as nat)) as int;
    let ghost w = pow2(64) as int;
    proof {
        lemma_pow2_pos(3 * (s as nat));
    }
    if 3 * s <= 64 {
        let frac: u128 = pow2_u128(64 - 3 * s);
        proof {
            lemma_pow2_adds(3 * (s as nat), (64 - 3 * s) as nat);
            lemma_pow2_strictly_increases((64 - 3 * s) as nat, 65);
            assert(pow2(65) == 2 * pow2(64)) by {
                lemma_pow2_unfold(65);
            }
            assert((k + 1) * w == k * (w + frac)) by (nonlinear_arith)
                requires
                    k * frac == w,
            ;
            assert(k * (pow2(s as nat) + 1) * p == k * x) by (nonlinear_arith)
                requires
                    x == (pow2(s as nat) + 1) * p,
            ;
            assert(k * (w + frac) < k * x <==> w + frac < x) by (nonlinear_arith)
                requires
                    k > 0,
            ;
        }
        x > 0x1_0000_0000_0000_0000u128 + frac
    } else {
        proof {
            lemma_pow2_strictly_increases(64, 3 * (s as nat));
            assert(k * (pow2(s as nat) + 1) * p == k * x) by (nonlinear_arith)
                requires
                    x == (pow2(s as nat) + 1) * p,
            ;
            assert((k + 1) * w < k * x <==> w < x) by (nonlinear_arith)
                requires
                    k > w,
                    w > 0,
                    x >= 0,
            {
                if w < x {
                    assert(k * x >= k * (w + 1));
                } else {
                    assert(k * x <= k * w);
                }
            }
        }
        x > 0x1_0000_0000_0000_0000u128
    }
}

/// A word with `s` leading zeros lies in `[2^(63-s), 2^(64-s))`.
pub proof fn lemma_leading_zeros_bounds(p: u64)
    ensures
        0 <= u64_leading_zeros(p) <= 64,
        p == 0 <==> u64_leading_zeros(p) == 64,
        p < pow2((64 - u64_leading_zeros(p)) as nat),
        p != 0 ==> p >= pow2((63 - u64_leading_zeros(p)) as nat),
    decreases p,
{
    reveal(u64_leading_zeros);
    lemma2_to64();
    if p != 0 {
        lemma_leading_zeros_bounds(p / 2);
        let s = u64_leading_zeros(p);
        lemma_pow2_unfold((64 - s) as nat);
        if p / 2 != 0 {
            lemma_pow2_unfold((63 - s) as nat);
        }
    }
}

/// Whether `q` is a prime of exactly `num_bits` bits below `upper_bound`
/// that is congruent to 1 modulo `modulo`.
pub open spec fn is_candidate(q: nat, num_bits: nat, modulo: nat, upper_bound: nat) -> bool {
    &&& is_prime(q)
    &&& q % modulo == 1
    &&& pow2((num_bits - 1) as nat) <= q < upper_bound
}

/// Two numbers congruent to 1 modulo `m` are equal or at least `m` apart.
proof fn lemma_same_residue_gap(t: int, q: int, m: int)
    requires
        m > 0,
        0 <= q < t,
        t % m == 1,
        q % m == 1,
    ensures
        t - q >= m,
{
    vstd::arithmetic::div_mod::lemma_fundamental_div_mod(t, m);
    vstd::arithmetic::div_mod::lemma_fundamental_div_mod(q, m);
    assert(t - q == m * (t / m - q / m)) by (nonlinear_arith)
        requires
            t == m * (t / m) + 1,
            q == m * (q / m) + 1,
    ;
    assert(t / m - q / m >= 1) by (nonlinear_arith)
        requires
            m * (t / m - q / m) > 0,
            m > 0,
    ;
    assert(m * (t / m - q / m) >= m) by (nonlinear_arith)
        requires
            t / m - q / m >= 1,
            m > 0,
    ;
}

/// The largest prime of exactly `num_bits` bits that is below `upper_bound`
/// and congruent to 1 modulo `modulo`, if there is one and `num_bits` lies in
/// `[10, 62]`.
pub fn generate_prime(num_bits: usize, modulo: u64, upper_bound: u64) -> (r: Option<u64>)
    requires
        modulo != 0,
        10 <= num_bits <= 62 ==> upper_bound <= pow2(num_bits as nat),
    ensures
        r.is_some() <==> (10 <= num_bits <= 62 && exists|q: nat|
            is_candidate(q, num_bits as nat, modulo as nat, upper_bound as nat)),
        r matches Some(v) ==> {
            &&& is_candidate(v as nat, num_bits as nat, modulo as nat, upper_bound as nat)
            &&& forall|q: nat|
                is_candidate(q, num_bits as nat, modulo as nat, upper_bound as nat) ==> q <= v
        },
{
    if num_bits < 10 || num_bits > 62 {
        return None;
    }
    let low128: u128 = pow2_u128((num_bits - 1) as u32);
    proof {
        lemma2_to64();
        lemma2_to64_rest();
        lemma_pow2_strictly_increases((num_bits - 1) as nat, 62);
        lemma_pow2_strictly_increases(8, (num_bits - 1) as nat);
    }
    let low: u64 = low128 as u64;
    let ghost nb = num_bits as nat;
    let ghost md = modulo as nat;
    let ghost ub = upper_bound as nat;
    if upper_bound <= low {
        return None;
    }
    let mut t: u64 = upper_bound - 1;
    while t >= low && t % modulo != 1
        invariant
            low == pow2((nb - 1) as nat),
            low > 256,
            modulo != 0,
            nb == num_bits,
            md == modulo,
            ub == upper_bound,
            low - 1 <= t < upper_bound,
            forall|q: nat| t < q ==> !is_candidate(q, nb, md, ub),
        decreases t,
    {
        t -= 1;
    }
    let mut found: bool = t >= low && is_prime64(t);
    while t >= low && !found
        invariant
            low == pow2((nb - 1) as nat),
            low > 256,
            modulo != 0,
            nb == num_bits,
            md == modulo,
            ub == upper_bound,
            t < upper_bound,
            t >= low ==> t % modulo == 1,
            found == (t >= low && is_prime(t as nat)),
            forall|q: nat| t < q ==> !is_candidate(q, nb, md, ub),
        decreases t,
    {
        let ghost before = t;
        if t < modulo {
            proof {
                assert forall|q: nat| !is_candidate(q, nb, md, ub) by {
                    if q < before && q % md == 1 {
                        lemma_same_residue_gap(before as int, q as int, md as int);
                    }
                }
            }
            return None;
        }
        t -= modulo;
        proof {
            vstd::arithmetic::div_mod::lemma_mod_sub_multiples_vanish(before as int, md as int);
            assert forall|q: nat| t < q implies !is_candidate(q, nb, md, ub) by {
                if q < before && q % md == 1 {
                    lemma_same_residue_gap(before as int, q as int, md as int);
                }
            }
        }
        found = t >= low && is_prime64(t);
    }
    if found {
        assert(is_candidate(t as nat, nb, md, ub));
        Some(t)
    } else {
        assert forall|q: nat| !is_candidate(q, nb, md, ub) by {}
        None
    }
}

/// Whether a negacyclic transform of size `n` exists modulo `p`: whether `p`
/// is a prime congruent to 1 modulo `2n`.
pub open spec fn spec_supports_ntt(p: u64, n: nat) -> bool {
    &&& n > 0
    &&& p as nat % (2 * n) == 1
    &&& is_prime(p as nat)
}

/// Whether a negacyclic transform of size `n` exists modulo `p`.
pub fn supports_ntt(p: u64, n: usize) -> (r: bool)
    requires
        0 < n < 0x4000_0000,
    ensures
        r == spec_supports_ntt(p, n as nat),
{
    let m: u64 = 2 * (n as u64);
    p % m == 1 && is_prime64(p)
}

} // verus!
