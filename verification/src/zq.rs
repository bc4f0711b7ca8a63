//! Arithmetic modulo a word-sized integer of at most 62 bits.
//!
//! Every operation comes in two forms with the same result: one that runs in
//! constant time, and a sibling whose name ends in `_vt` that branches on its
//! operands. The variable-time form must not be handed values that depend on
//! a secret. Operands of the scalar operations have to be reduced already;
//! the contracts say so, and nothing checks it at run time.

use crate::arith::{
    barrett_quotient, barrett_ratio, lazy_residue, lemma_barrett, lemma_barrett_split,
    lemma_div_bounds, lemma_div_unique, lemma_opt_u128, lemma_opt_word, lemma_shape_words,
    lemma_shoup, lemma_word_product, opt_residue, shoup_ratio, shoup_residue, two_128, two_64,
};
use crate::bigint::BigNat;
use crate::errors::Error;
use crate::nfl::{is_prime, is_prime64, nfl_shape, supports_opt};
use crate::random::{chacha8_uniform, fresh_seed, sample_uniform, Seed};
use crate::transcode::{
    fits, is_repacked, packed_bytes, repacked, transcode_from_bytes, transcode_to_bytes, widened,
};
use vstd::arithmetic::div_mod::*;
use vstd::arithmetic::power::pow;
use vstd::arithmetic::power2::pow2;
use vstd::prelude::*;
use vstd::std_specs::bits::u64_leading_zeros;

verus! {

/// The value of `x` brought back into `[0, p)`, for `x` in `[0, 2p)`.
pub open spec fn reduce_once(x: int, p: int) -> int {
    if x >= p {
        x - p
    } else {
        x
    }
}

/// The representative of `x` modulo `p` that lies in `[-p/2, p/2)`, rounding
/// `p/2` down.
pub open spec fn centered(x: int, p: int) -> int {
    if x >= p / 2 {
        x - p
    } else {
        x
    }
}

/// An integer modulus `p` with `2 <= p < 2^62`, with the constants that its
/// reductions need.
#[derive(Clone, Copy, Debug)]
pub struct Modulus {
    p: u64,
    barrett_hi: u64,
    barrett_lo: u64,
    leading_zeros: u32,
    supports_opt: bool,
}

/// Returns `x mod p` for `x < 2p` without a data-dependent branch.
pub fn reduce1(x: u64, p: u64) -> (r: u64)
    requires
        p < 0x8000_0000_0000_0000,
        x < 2 * p,
    ensures
        r == reduce_once(x as int, p as int),
        r as int == (x as int) % (p as int),
{
    let y: u64 = x.wrapping_sub(p);
    let xp: u64 = x ^ p;
    let yp: u64 = y ^ p;
    let xy: u64 = xp ^ yp;
    let xxy: u64 = (x ^ xy) >> 63;
    proof {
        lemma_borrow_bit(x, p, y);
    }
    let c: u64 = xxy.wrapping_sub(1);
    let r: u64 = (c & y) | ((!c) & x);
    proof {
        lemma_mask_select(c, y, x);
        lemma_reduce_once_is_mod(x as int, p as int);
    }
    r
}

/// Returns `x mod p` for `x < 2p`, branching on `x`.
pub fn reduce1_vt(x: u64, p: u64) -> (r: u64)
    requires
        p < 0x8000_0000_0000_0000,
        x < 2 * p,
    ensures
        r == reduce_once(x as int, p as int),
        r as int == (x as int) % (p as int),
{
    proof {
        lemma_reduce_once_is_mod(x as int, p as int);
    }
    if x >= p {
        x - p
    } else {
        x
    }
}

/// The top bit of `x ^ (x ^ p) ^ (y ^ p)` tells whether `x - p` borrowed.
proof fn lemma_borrow_bit(x: u64, p: u64, y: u64)
    by (bit_vector)
    requires
        p < 0x8000_0000_0000_0000,
        x < 2 * p,
        y == (if x >= p {
            x - p
        } else {
            x + 0x1_0000_0000_0000_0000 - p
        }),
    ensures
        (x ^ ((x ^ p) ^ (y ^ p))) >> 63 == (if x >= p {
            0u64
        } else {
            1u64
        }),
{
}

/// An all-ones mask selects the first operand, an all-zeros mask the second.
proof fn lemma_mask_select(c: u64, y: u64, x: u64)
    by (bit_vector)
    ensures
        c == 0xffff_ffff_ffff_ffff ==> (c & y) | ((!c) & x) == y,
        c == 0 ==> (c & y) | ((!c) & x) == x,
{
}

/// One conditional subtraction reduces a number below `2p`.
pub proof fn lemma_reduce_once_is_mod(x: int, p: int)
    requires
        0 <= x < 2 * p,
    ensures
        reduce_once(x, p) == x % p,
        0 <= reduce_once(x, p) < p,
{
    if x >= p {
        lemma_fundamental_div_mod_converse(x, p, 1, x - p);
    } else {
        lemma_small_mod(x as nat, p as nat);
    }
}

/// The two halves of a 128-bit word.
proof fn lemma_split_u128(a: u128)
    by (bit_vector)
    ensures
        (a >> 64) == a / 0x1_0000_0000_0000_0000,
        (a >> 64) < 0x1_0000_0000_0000_0000,
        (a & 0xffff_ffff_ffff_ffff) == a % 0x1_0000_0000_0000_0000,
        a == (a >> 64) * 0x1_0000_0000_0000_0000 + (a & 0xffff_ffff_ffff_ffff),
{
}

impl Modulus {
    /// The modulus `p`.
    pub closed spec fn spec_modulus(&self) -> u64 {
        self.p
    }

    /// Whether the single-multiplication reductions are valid for this
    /// modulus: whether it has the shape [`nfl_shape`].
    pub open spec fn spec_supports_opt(&self) -> bool {
        nfl_shape(self.spec_modulus() as int, u64_leading_zeros(self.spec_modulus()) as nat)
    }

    /// The constants agree with the modulus.
    pub closed spec fn constants_ok(&self) -> bool {
        &&& self.barrett_hi as int * two_64() + self.barrett_lo as int == barrett_ratio(
            self.p as int,
        )
        &&& self.leading_zeros as int == u64_leading_zeros(self.p)
        &&& self.supports_opt == nfl_shape(self.p as int, self.leading_zeros as nat)
    }

    /// Well-formedness: the modulus lies in `[2, 2^62)` and the constants
    /// belong to it.
    pub open spec fn wf(&self) -> bool {
        &&& 2 <= self.spec_modulus() < 0x4000_0000_0000_0000
        &&& self.constants_ok()
    }

    /// Creates the modulus `p`; fails unless `2 <= p < 2^62`.
    pub fn new(p: u64) -> (r: Result<Modulus, Error>)
        ensures
            r.is_ok() <==> 2 <= p < 0x4000_0000_0000_0000,
            r matches Ok(m) ==> m.wf() && m.spec_modulus() == p,
            r matches Err(e) ==> e == Error::InvalidModulus(p),
    {
        if p < 2 || (p >> 62) != 0 {
            proof {
                assert((p >> 62) != 0 <==> p >= 0x4000_0000_0000_0000) by (bit_vector);
            }
            Err(Error::InvalidModulus(p))
        } else {
            proof {
                assert((p >> 62) != 0 <==> p >= 0x4000_0000_0000_0000) by (bit_vector);
            }
            // 2^128 / p
            let top = BigNat::from_u128(u128::MAX).add(&BigNat::from_u64(1));
            assert(top@ == two_128());
            let ratio = top.div_rem(&BigNat::from_u64(p)).unwrap().0;
            proof {
                lemma_div_bounds(two_128(), p as int);
                assert(ratio@ * 2 <= two_128()) by (nonlinear_arith)
                    requires
                        ratio@ * p <= two_128(),
                        p >= 2,
                ;
            }
            let barrett: u128 = ratio.to_u128().unwrap();
            proof {
                lemma_split_u128(barrett);
            }
            let barrett_hi: u64 = (barrett >> 64) as u64;
            let barrett_lo: u64 = (barrett & 0xffff_ffff_ffff_ffff) as u64;
            Ok(
                Modulus {
                    p,
                    barrett_hi,
                    barrett_lo,
                    leading_zeros: p.leading_zeros(),
                    supports_opt: supports_opt(p),
                },
            )
        }
    }

    /// Returns the value of the modulus.
    #[verifier::when_used_as_spec(spec_modulus)]
    pub fn modulus(&self) -> (r: u64)
        ensures
            r == self.spec_modulus(),
    {
        self.p
    }

    /// Modular addition of `a` and `b` in constant time.
    pub fn add(&self, a: u64, b: u64) -> (r: u64)
        requires
            self.wf(),
            a < self.modulus(),
            b < self.modulus(),
        ensures
            r as int == (a + b) % (self.modulus() as int),
    {
        reduce1(a + b, self.p)
    }

    /// Modular addition of `a` and `b` in variable time.
    pub fn add_vt(&self, a: u64, b: u64) -> (r: u64)
        requires
            self.wf(),
            a < self.modulus(),
            b < self.modulus(),
        ensures
            r as int == (a + b) % (self.modulus() as int),
    {
        reduce1_vt(a + b, self.p)
    }

    /// Modular subtraction of `b` from `a` in constant time.
    pub fn sub(&self, a: u64, b: u64) -> (r: u64)
        requires
            self.wf(),
            a < self.modulus(),
            b < self.modulus(),
        ensures
            r as int == (a - b) % (self.modulus() as int),
    {
        proof {
            lemma_mod_add_multiples_vanish(a - b, self.p as int);
        }
        reduce1(a + self.p - b, self.p)
    }

    /// Modular subtraction of `b` from `a` in variable time.
    pub fn sub_vt(&self, a: u64, b: u64) -> (r: u64)
        requires
            self.wf(),
            a < self.modulus(),
            b < self.modulus(),
        ensures
            r as int == (a - b) % (self.modulus() as int),
    {
        proof {
            lemma_mod_add_multiples_vanish(a - b, self.p as int);
        }
        reduce1_vt(a + self.p - b, self.p)
    }

    /// Modular negation of `a` in constant time.
    pub fn neg(&self, a: u64) -> (r: u64)
        requires
            self.wf(),
            a < self.modulus(),
        ensures
            r as int == (-(a as int)) % (self.modulus() as int),
    {
        proof {
            lemma_mod_add_multiples_vanish(-(a as int), self.p as int);
        }
        reduce1(self.p - a, self.p)
    }

    /// Modular negation of `a` in variable time.
    pub fn neg_vt(&self, a: u64) -> (r: u64)
        requires
            self.wf(),
            a < self.modulus(),
        ensures
            r as int == (-(a as int)) % (self.modulus() as int),
    {
        proof {
            lemma_mod_add_multiples_vanish(-(a as int), self.p as int);
        }
        reduce1_vt(self.p - a, self.p)
    }

    /// Barrett's reduction of a 128-bit number without the last conditional
    /// subtraction: the result is congruent to `a` and lies in `[0, 2p)`.
    pub fn lazy_reduce_u128(&self, a: u128) -> (r: u64)
        requires
            self.wf(),
        ensures
            r as int == lazy_residue(a as int, self.modulus() as int),
            r < 2 * self.modulus(),
            r as int % (self.modulus() as int) == a as int % (self.modulus() as int),
    {
        proof {
            lemma_split_u128(a);
        }
        let a_lo: u64 = (a & 0xffff_ffff_ffff_ffff) as u64;
        let a_hi: u64 = (a >> 64) as u64;
        proof {
            lemma_word_product(a_lo as int, self.barrett_lo as int);
            lemma_word_product(a_hi as int, self.barrett_lo as int);
            lemma_word_product(a_lo as int, self.barrett_hi as int);
            lemma_word_product(a_hi as int, self.barrett_hi as int);
            lemma_barrett_split(
                a_hi as int,
                a_lo as int,
                self.barrett_hi as int,
                self.barrett_lo as int,
                self.p as int,
            );
            lemma_barrett(a as int, self.p as int);
        }
        let c: u128 = (a_lo as u128) * (self.barrett_lo as u128);
        proof {
            lemma_split_u128(c);
        }
        let p_lo_lo: u128 = c >> 64;
        let p_hi_lo: u128 = (a_hi as u128) * (self.barrett_lo as u128);
        let p_lo_hi: u128 = (a_lo as u128) * (self.barrett_hi as u128);
        let t: u128 = p_lo_hi + p_hi_lo + p_lo_lo;
        proof {
            lemma_split_u128(t);
            let q = barrett_quotient(a as int, self.p as int);
            assert(q * self.p <= a);
            assert(q <= a) by (nonlinear_arith)
                requires
                    q * self.p <= a,
                    q >= 0,
                    self.p >= 1,
            ;
        }
        let q: u128 = (t >> 64) + (a_hi as u128) * (self.barrett_hi as u128);
        let r: u128 = a - q * (self.p as u128);
        r as u64
    }

    /// Barrett's reduction of a 64-bit number without the last conditional
    /// subtraction: the result is congruent to `a` and lies in `[0, 2p)`.
    pub fn lazy_reduce(&self, a: u64) -> (r: u64)
        requires
            self.wf(),
        ensures
            r as int == lazy_residue(a as int, self.modulus() as int),
            r < 2 * self.modulus(),
            r as int % (self.modulus() as int) == a as int % (self.modulus() as int),
    {
        proof {
            lemma_word_product(a as int, self.barrett_lo as int);
            lemma_word_product(a as int, self.barrett_hi as int);
            lemma_barrett_split(
                0,
                a as int,
                self.barrett_hi as int,
                self.barrett_lo as int,
                self.p as int,
            );
            lemma_barrett(a as int, self.p as int);
        }
        let c: u128 = (a as u128) * (self.barrett_lo as u128);
        proof {
            lemma_split_u128(c);
        }
        let p_lo_lo: u128 = c >> 64;
        let p_lo_hi: u128 = (a as u128) * (self.barrett_hi as u128);
        let t: u128 = p_lo_hi + p_lo_lo;
        proof {
            lemma_split_u128(t);
        }
        let q: u128 = t >> 64;
        let r: u128 = (a as u128) - q * (self.p as u128);
        r as u64
    }

    /// Modular reduction of a 128-bit number in constant time.
    pub fn reduce_u128(&self, a: u128) -> (r: u64)
        requires
            self.wf(),
        ensures
            r as int == a as int % (self.modulus() as int),
    {
        reduce1(self.lazy_reduce_u128(a), self.p)
    }

    /// Modular reduction of a 128-bit number in variable time.
    pub fn reduce_u128_vt(&self, a: u128) -> (r: u64)
        requires
            self.wf(),
        ensures
            r as int == a as int % (self.modulus() as int),
    {
        reduce1_vt(self.lazy_reduce_u128(a), self.p)
    }

    /// Modular reduction of a 64-bit number in constant time.
    pub fn reduce(&self, a: u64) -> (r: u64)
        requires
            self.wf(),
        ensures
            r as int == a as int % (self.modulus() as int),
    {
        reduce1(self.lazy_reduce(a), self.p)
    }

    /// Modular reduction of a 64-bit number in variable time.
    pub fn reduce_vt(&self, a: u64) -> (r: u64)
        requires
            self.wf(),
        ensures
            r as int == a as int % (self.modulus() as int),
    {
        reduce1_vt(self.lazy_reduce(a), self.p)
    }

    /// Modular multiplication of `a` and `b` in constant time.
    pub fn mul(&self, a: u64, b: u64) -> (r: u64)
        requires
            self.wf(),
            a < self.modulus(),
            b < self.modulus(),
        ensures
            r as int == (a * b) % (self.modulus() as int),
    {
        proof {
            lemma_word_product(a as int, b as int);
        }
        self.reduce_u128((a as u128) * (b as u128))
    }

    /// Modular multiplication of `a` and `b` in variable time.
    pub fn mul_vt(&self, a: u64, b: u64) -> (r: u64)
        requires
            self.wf(),
            a < self.modulus(),
            b < self.modulus(),
        ensures
            r as int == (a * b) % (self.modulus() as int),
    {
        proof {
            lemma_word_product(a as int, b as int);
        }
        reduce1_vt(self.lazy_reduce_u128((a as u128) * (b as u128)), self.p)
    }

    /// The Shoup constant of `a`: `a * 2^64 / p`, rounded down.
    pub fn shoup(&self, a: u64) -> (r: u64)
        requires
            self.wf(),
            a < self.modulus(),
        ensures
            r as int == shoup_ratio(a as int, self.modulus() as int),
    {
        proof {
            lemma_shoup(0, a as int, self.p as int);
            assert(a * two_64() < two_128()) by (nonlinear_arith)
                requires
                    0 <= a < two_64(),
                    two_128() == two_64() * two_64(),
            ;
        }
        let shifted: u128 = (a as u128) * 0x1_0000_0000_0000_0000u128;
        (shifted / (self.p as u128)) as u64
    }

    /// Shoup's multiplication of `a` by `b` without the last conditional
    /// subtraction: the result is congruent to `a * b` and lies in `[0, 2p)`.
    pub fn lazy_mul_shoup(&self, a: u64, b: u64, b_shoup: u64) -> (r: u64)
        requires
            self.wf(),
            b < self.modulus(),
            b_shoup as int == shoup_ratio(b as int, self.modulus() as int),
        ensures
            r as int == shoup_residue(a as int, b as int, b_shoup as int, self.modulus() as int),
            r < 2 * self.modulus(),
            r as int % (self.modulus() as int) == (a * b) % (self.modulus() as int),
    {
        proof {
            lemma_shoup(a as int, b as int, self.p as int);
            lemma_word_product(a as int, b as int);
            lemma_word_product(a as int, b_shoup as int);
        }
        let w: u128 = (a as u128) * (b_shoup as u128);
        proof {
            lemma_split_u128(w);
        }
        let q: u128 = w >> 64;
        let r: u128 = (a as u128) * (b as u128) - q * (self.p as u128);
        r as u64
    }

    /// Shoup's multiplication of `a` by `b` in constant time.
    pub fn mul_shoup(&self, a: u64, b: u64, b_shoup: u64) -> (r: u64)
        requires
            self.wf(),
            b < self.modulus(),
            b_shoup as int == shoup_ratio(b as int, self.modulus() as int),
        ensures
            r as int == (a * b) % (self.modulus() as int),
    {
        reduce1(self.lazy_mul_shoup(a, b, b_shoup), self.p)
    }

    /// Shoup's multiplication of `a` by `b` in variable time.
    pub fn mul_shoup_vt(&self, a: u64, b: u64, b_shoup: u64) -> (r: u64)
        requires
            self.wf(),
            b < self.modulus(),
            b_shoup as int == shoup_ratio(b as int, self.modulus() as int),
        ensures
            r as int == (a * b) % (self.modulus() as int),
    {
        reduce1_vt(self.lazy_mul_shoup(a, b, b_shoup), self.p)
    }

    /// The representative of `a` in `[-p/2, p/2)`, in variable time.
    pub fn center_vt(&self, a: u64) -> (r: i64)
        requires
            self.wf(),
            a < self.modulus(),
        ensures
            r as int == centered(a as int, self.modulus() as int),
    {
        let p: u64 = self.p;
        proof {
            assert(p >> 1 == p / 2) by (bit_vector);
        }
        if a >= p >> 1 {
            (a as i64) - (self.p as i64)
        } else {
            a as i64
        }
    }

    /// Modular reduction of a signed 64-bit number in constant time.
    pub fn reduce_i64(&self, a: i64) -> (r: u64)
        requires
            self.wf(),
        ensures
            r as int == a as int % (self.modulus() as int),
    {
        proof {
            lemma_mod_multiples_vanish(two_64(), a as int, self.p as int);
            assert(self.p * two_64() + a < two_128()) by (nonlinear_arith)
                requires
                    self.p < 0x4000_0000_0000_0000,
                    a < two_64(),
                    two_128() == two_64() * two_64(),
            ;
            assert(self.p * two_64() + a >= 0) by (nonlinear_arith)
                requires
                    self.p >= 2,
                    a >= -two_64(),
                    two_64() > 0,
            ;
        }
        let shifted: i128 = (self.p as i128) * 0x1_0000_0000_0000_0000i128 + (a as i128);
        self.reduce_u128(shifted as u128)
    }

    /// Modular reduction of a signed 64-bit number in variable time.
    pub fn reduce_i64_vt(&self, a: i64) -> (r: u64)
        requires
            self.wf(),
        ensures
            r as int == a as int % (self.modulus() as int),
    {
        proof {
            lemma_mod_multiples_vanish(two_64(), a as int, self.p as int);
            assert(self.p * two_64() + a < two_128()) by (nonlinear_arith)
                requires
                    self.p < 0x4000_0000_0000_0000,
                    a < two_64(),
                    two_128() == two_64() * two_64(),
            ;
            assert(self.p * two_64() + a >= 0) by (nonlinear_arith)
                requires
                    self.p >= 2,
                    a >= -two_64(),
                    two_64() > 0,
            ;
        }
        let shifted: i128 = (self.p as i128) * 0x1_0000_0000_0000_0000i128 + (a as i128);
        self.reduce_u128_vt(shifted as u128)
    }
}

/// `a^n mod p`.
pub open spec fn pow_mod(a: int, n: nat, p: int) -> int {
    pow(a, n) % p
}

/// One step of square-and-multiply: from the power for the exponent `e` to
/// the powers for `2e` and `2e + 1`.
pub proof fn lemma_pow_mod_step(a: int, e: nat, p: int, r: int)
    requires
        p > 0,
        r == pow_mod(a, e, p),
    ensures
        (r * r) % p == pow_mod(a, 2 * e, p),
        (((r * r) % p) * a) % p == pow_mod(a, 2 * e + 1, p),
{
    let x = pow(a, e);
    vstd::arithmetic::power::lemma_pow_adds(a, e, e);
    vstd::arithmetic::power::lemma_pow_adds(a, 2 * e, 1);
    vstd::arithmetic::power::lemma_pow1(a);
    lemma_mul_mod_noop(x, x, p);
    lemma_mul_mod_noop_left(x * x, a, p);
}

/// Dropping one bit less of `n` doubles the prefix and adds the next bit.
proof fn lemma_prefix_step(n: u64, i: nat)
    requires
        1 <= i <= 64,
    ensures
        n as nat / pow2((i - 1) as nat) == 2 * (n as nat / pow2(i)) + (n as nat / pow2(
            (i - 1) as nat,
        )) % 2,
{
    let low = pow2((i - 1) as nat) as int;
    vstd::arithmetic::power2::lemma_pow2_pos((i - 1) as nat);
    vstd::arithmetic::power2::lemma_pow2_unfold(i);
    lemma_div_denominator(n as int, low, 2);
    lemma_fundamental_div_mod(n as int / low, 2);
    assert(low * 2 == pow2(i) as int);
}

impl Modulus {
    /// Modular exponentiation `a^n mod p` by square-and-multiply, in
    /// variable time.
    pub fn pow(&self, a: u64, n: u64) -> (r: u64)
        requires
            self.wf(),
            a < self.modulus(),
            n < self.modulus(),
        ensures
            r as int == pow_mod(a as int, n as nat, self.modulus() as int),
            r < self.modulus(),
    {
        proof {
            vstd::arithmetic::power::lemma_pow0(a as int);
            vstd::arithmetic::power::lemma_pow1(a as int);
            lemma_small_mod(1, self.p as nat);
            lemma_small_mod(a as nat, self.p as nat);
        }
        if n == 0 {
            assert(pow_mod(a as int, 0, self.p as int) == 1);
            1
        } else if n == 1 {
            assert(pow_mod(a as int, 1, self.p as int) == a);
            a
        } else {
            proof {
                crate::nfl::lemma_leading_zeros_bounds(n);
            }
            // the index of the highest bit of n that is set
            let mut i: u32 = 63 - n.leading_zeros();
            let mut r: u64 = a;
            proof {
                vstd::arithmetic::power2::lemma_pow2_pos(i as nat);
                vstd::arithmetic::power2::lemma_pow2_unfold((i + 1) as nat);
                lemma_div_unique(n as int, pow2(i as nat) as int, 1);
            }
            while i > 0
                invariant
                    self.wf(),
                    a < self.p,
                    r < self.p,
                    i <= 63,
                    r as int == pow_mod(a as int, n as nat / pow2(i as nat), self.p as int),
                decreases i,
            {
                let ghost e = n as nat / pow2(i as nat);
                i -= 1;
                let shifted: u64 = n >> i;
                proof {
                    lemma_prefix_step(n, (i + 1) as nat);
                    lemma_pow_mod_step(a as int, e, self.p as int, r as int);
                    vstd::bits::lemma_u64_shr_is_div(n, i as u64);
                    assert(shifted & 1 == shifted % 2) by (bit_vector);
                    lemma_mod_bound((r * r) as int, self.p as int);
                }
                r = self.mul(r, r);
                if shifted & 1 == 1 {
                    proof {
                        lemma_mod_bound((r * a) as int, self.p as int);
                    }
                    r = self.mul(r, a);
                }
            }
            proof {
                vstd::arithmetic::power2::lemma2_to64();
                assert(i == 0);
                assert(pow2(0) == 1);
                assert(n as nat / 1 == n as nat);
            }
            r
        }
    }

    /// The inverse of `a` modulo a prime `p`; `None` where `p` is not prime
    /// or `a` is zero. The inverse is the power `a^(p-2) mod p`; should that
    /// power ever fail to be an inverse, the extended Euclidean algorithm
    /// gives it.
    pub fn inv(&self, a: u64) -> (r: Option<u64>)
        requires
            self.wf(),
            a < self.modulus(),
        ensures
            r.is_some() <==> (is_prime(self.modulus() as nat) && a != 0),
            r matches Some(v) ==> v < self.modulus() && (a * v) % (self.modulus() as int) == 1,
    {
        if !is_prime64(self.p) || a == 0 {
            None
        } else {
            let r = self.pow(a, self.p - 2);
            if self.mul(a, r) == 1 {
                Some(r)
            } else {
                proof {
                    crate::rns::lemma_prime_is_coprime(self.p as nat, a as nat);
                }
                crate::rns::inv_mod(a, self.p)
            }
        }
    }
}

/// What the reduction with a single multiplication leaves of `a` modulo `p`
/// before the last conditional subtraction.
pub open spec fn opt_lazy_residue(a: int, p: u64) -> int {
    opt_residue(a, pow2(u64_leading_zeros(p) as nat) as int, barrett_ratio(p as int) % two_64(), p as int)
}

/// What the shift-only reduction leaves of the word `a` modulo `p` before the
/// last conditional subtraction.
pub open spec fn opt_lazy_residue_word(a: int, p: u64) -> int {
    a - (a / (pow2((64 - u64_leading_zeros(p)) as nat) as int)) * p
}

impl Modulus {
    /// Whether the reductions with a single multiplication are valid for
    /// this modulus.
    pub fn supports_opt(&self) -> (r: bool)
        requires
            self.wf(),
        ensures
            r == self.spec_supports_opt(),
    {
        self.supports_opt
    }

    /// What the proofs of the single-multiplication reductions need of the
    /// constants.
    proof fn lemma_opt_constants(&self)
        requires
            self.wf(),
            self.spec_supports_opt(),
        ensures
            2 <= self.leading_zeros <= 62,
            self.barrett_hi as int == pow2(self.leading_zeros as nat),
            self.barrett_lo as int == barrett_ratio(self.p as int) % two_64(),
            pow2(self.leading_zeros as nat) * pow2((64 - self.leading_zeros) as nat) == two_64(),
            pow2(self.leading_zeros as nat) * self.p < two_64(),
            self.p < pow2((64 - self.leading_zeros) as nat),
            self.barrett_lo as int * two_64() + self.p * self.p < two_64() * two_64(),
            two_64() - pow2(self.leading_zeros as nat) * self.p < self.p,
    {
        let s = self.leading_zeros as nat;
        let k = pow2(s) as int;
        crate::nfl::lemma_leading_zeros_bounds(self.p);
        vstd::arithmetic::power2::lemma2_to64();
        vstd::arithmetic::power2::lemma2_to64_rest();
        if s < 2 {
            vstd::arithmetic::power2::lemma_pow2_strictly_increases(62, (63 - s) as nat);
        }
        vstd::arithmetic::power2::lemma_pow2_pos(s);
        vstd::arithmetic::power2::lemma_pow2_adds(s, (64 - s) as nat);
        vstd::arithmetic::power2::lemma_pow2_adds(s, s);
        vstd::arithmetic::power2::lemma_pow2_adds(2 * s, s);
        assert(k * self.p < two_64()) by (nonlinear_arith)
            requires
                k * pow2((64 - s) as nat) == two_64(),
                self.p < pow2((64 - s) as nat),
                k > 0,
        ;
        assert(pow2(3 * s) * (k + 1) * self.p == pow2(3 * s) * ((k + 1) * self.p))
            by (nonlinear_arith);
        lemma_shape_words(
            self.p as int,
            k,
            pow2(3 * s) as int,
            self.barrett_hi as int,
            self.barrett_lo as int,
        );
        lemma_fundamental_div_mod_converse(
            barrett_ratio(self.p as int),
            two_64(),
            self.barrett_hi as int,
            self.barrett_lo as int,
        );
    }

    /// The reduction with a single multiplication of a number below `p * p`,
    /// without the last conditional subtraction: the result is congruent to
    /// `a` and lies in `[0, 2p)`.
    pub fn lazy_reduce_opt_u128(&self, a: u128) -> (r: u64)
        requires
            self.wf(),
            self.spec_supports_opt(),
            a < self.modulus() * self.modulus(),
        ensures
            r as int == opt_lazy_residue(a as int, self.modulus()),
            r < 2 * self.modulus(),
            r as int % (self.modulus() as int) == a as int % (self.modulus() as int),
    {
        proof {
            self.lemma_opt_constants();
            let k = pow2(self.leading_zeros as nat) as int;
            lemma_opt_u128(a as int, self.p as int, k, self.barrett_lo as int);
            lemma_split_u128(a);
            assert(a * k >= 0 && self.barrett_lo * (a / 0x1_0000_0000_0000_0000) >= 0)
                by (nonlinear_arith)
                requires
                    k >= 1,
                    a >= 0,
                    self.barrett_lo >= 0,
            ;
            crate::transcode::lemma_shl_is_mul(a, self.leading_zeros);
        }
        let t: u128 = (self.barrett_lo as u128) * (a >> 64) + (a << self.leading_zeros);
        proof {
            lemma_split_u128(t);
        }
        let q: u128 = t >> 64;
        let r: u128 = a - q * (self.p as u128);
        r as u64
    }

    /// The shift-only reduction of a word, without the last conditional
    /// subtraction: the result is congruent to `a` and lies in `[0, 2p)`.
    pub fn lazy_reduce_opt(&self, a: u64) -> (r: u64)
        requires
            self.wf(),
            self.spec_supports_opt(),
        ensures
            r as int == opt_lazy_residue_word(a as int, self.modulus()),
            r < 2 * self.modulus(),
            r as int % (self.modulus() as int) == a as int % (self.modulus() as int),
    {
        proof {
            self.lemma_opt_constants();
            let k = pow2(self.leading_zeros as nat) as int;
            let d = pow2((64 - self.leading_zeros) as nat) as int;
            lemma_opt_word(a as int, self.p as int, k, d);
            vstd::bits::lemma_u64_shr_is_div(a, (64 - self.leading_zeros) as u64);
        }
        let q: u64 = a >> (64 - self.leading_zeros);
        let r: u128 = (a as u128) - (q as u128) * (self.p as u128);
        r as u64
    }

    /// Modular reduction of a number below `p * p` with a single
    /// multiplication, in constant time.
    pub fn reduce_opt_u128(&self, a: u128) -> (r: u64)
        requires
            self.wf(),
            self.spec_supports_opt(),
            a < self.modulus() * self.modulus(),
        ensures
            r as int == a as int % (self.modulus() as int),
    {
        reduce1(self.lazy_reduce_opt_u128(a), self.p)
    }

    /// Modular reduction of a number below `p * p` with a single
    /// multiplication, in variable time.
    pub fn reduce_opt_u128_vt(&self, a: u128) -> (r: u64)
        requires
            self.wf(),
            self.spec_supports_opt(),
            a < self.modulus() * self.modulus(),
        ensures
            r as int == a as int % (self.modulus() as int),
    {
        reduce1_vt(self.lazy_reduce_opt_u128(a), self.p)
    }

    /// Modular reduction of a word by shifts alone, in constant time.
    pub fn reduce_opt(&self, a: u64) -> (r: u64)
        requires
            self.wf(),
            self.spec_supports_opt(),
        ensures
            r as int == a as int % (self.modulus() as int),
    {
        reduce1(self.lazy_reduce_opt(a), self.p)
    }

    /// Modular reduction of a word by shifts alone, in variable time.
    pub fn reduce_opt_vt(&self, a: u64) -> (r: u64)
        requires
            self.wf(),
            self.spec_supports_opt(),
        ensures
            r as int == a as int % (self.modulus() as int),
    {
        reduce1_vt(self.lazy_reduce_opt(a), self.p)
    }

    /// Modular multiplication of `a` and `b` with a single-multiplication
    /// reduction, in constant time.
    pub fn mul_opt(&self, a: u64, b: u64) -> (r: u64)
        requires
            self.wf(),
            self.spec_supports_opt(),
            a < self.modulus(),
            b < self.modulus(),
        ensures
            r as int == (a * b) % (self.modulus() as int),
    {
        proof {
            lemma_word_product(a as int, b as int);
            assert(a * b < self.p * self.p) by (nonlinear_arith)
                requires
                    0 <= a < self.p,
                    0 <= b < self.p,
            ;
        }
        self.reduce_opt_u128((a as u128) * (b as u128))
    }

    /// Modular multiplication of `a` and `b` with a single-multiplication
    /// reduction, in variable time.
    pub fn mul_opt_vt(&self, a: u64, b: u64) -> (r: u64)
        requires
            self.wf(),
            self.spec_supports_opt(),
            a < self.modulus(),
            b < self.modulus(),
        ensures
            r as int == (a * b) % (self.modulus() as int),
    {
        proof {
            lemma_word_product(a as int, b as int);
            assert(a * b < self.p * self.p) by (nonlinear_arith)
                requires
                    0 <= a < self.p,
                    0 <= b < self.p,
            ;
        }
        self.reduce_opt_u128_vt((a as u128) * (b as u128))
    }
}

/// Whether every element of `v` is below `p`.
pub open spec fn reduced(v: Seq<u64>, p: u64) -> bool {
    forall|i: int| 0 <= i < v.len() ==> #[trigger] v[i] < p
}

impl Modulus {
    /// Modular addition of `b` to `a`, element by element, in constant time.
    pub fn add_vec(&self, a: &mut [u64], b: &[u64])
        requires
            self.wf(),
            old(a)@.len() == b@.len(),
            reduced(old(a)@, self.modulus()),
            reduced(b@, self.modulus()),
        ensures
            final(a)@.len() == old(a)@.len(),
            forall|i: int|
                0 <= i < old(a)@.len() ==> (#[trigger] final(a)@[i]) as int == (old(a)@[i] + b@[i]) % (
                self.modulus() as int),
    {
        let n = a.len();
        let mut i: usize = 0;
        while i < n
            invariant
                self.wf(),
                i <= n,
                n == a@.len(),
                n == b@.len(),
                a@.len() == old(a)@.len(),
                reduced(old(a)@, self.modulus()),
                reduced(b@, self.modulus()),
                forall|j: int| i <= j < n ==> a@[j] == old(a)@[j],
                forall|j: int|
                    0 <= j < i ==> (#[trigger] a@[j]) as int == (old(a)@[j] + b@[j]) % (
                    self.modulus() as int),
            decreases n - i,
        {
            a[i] = self.add(a[i], b[i]);
            i += 1;
        }
    }

    /// Modular addition of `b` to `a`, element by element, in variable time.
    pub fn add_vec_vt(&self, a: &mut [u64], b: &[u64])
        requires
            self.wf(),
            old(a)@.len() == b@.len(),
            reduced(old(a)@, self.modulus()),
            reduced(b@, self.modulus()),
        ensures
            final(a)@.len() == old(a)@.len(),
            forall|i: int|
                0 <= i < old(a)@.len() ==> (#[trigger] final(a)@[i]) as int == (old(a)@[i] + b@[i]) % (
                self.modulus() as int),
    {
        let n = a.len();
        let mut i: usize = 0;
        while i < n
            invariant
                self.wf(),
                i <= n,
                n == a@.len(),
                n == b@.len(),
                a@.len() == old(a)@.len(),
                reduced(old(a)@, self.modulus()),
                reduced(b@, self.modulus()),
                forall|j: int| i <= j < n ==> a@[j] == old(a)@[j],
                forall|j: int|
                    0 <= j < i ==> (#[trigger] a@[j]) as int == (old(a)@[j] + b@[j]) % (
                    self.modulus() as int),
            decreases n - i,
        {
            a[i] = self.add_vt(a[i], b[i]);
            i += 1;
        }
    }

    /// Modular subtraction of `b` from `a`, element by element, in constant time.
    pub fn sub_vec(&self, a: &mut [u64], b: &[u64])
        requires
            self.wf(),
            old(a)@.len() == b@.len(),
            reduced(old(a)@, self.modulus()),
            reduced(b@, self.modulus()),
        ensures
            final(a)@.len() == old(a)@.len(),
            forall|i: int|
                0 <= i < old(a)@.len() ==> (#[trigger] final(a)@[i]) as int == (old(a)@[i] - b@[i]) % (
                self.modulus() as int),
    {
        let n = a.len();
        let mut i: usize = 0;
        while i < n
            invariant
                self.wf(),
                i <= n,
                n == a@.len(),
                n == b@.len(),
                a@.len() == old(a)@.len(),
                reduced(old(a)@, self.modulus()),
                reduced(b@, self.modulus()),
                forall|j: int| i <= j < n ==> a@[j] == old(a)@[j],
                forall|j: int|
                    0 <= j < i ==> (#[trigger] a@[j]) as int == (old(a)@[j] - b@[j]) % (
                    self.modulus() as int),
            decreases n - i,
        {
            a[i] = self.sub(a[i], b[i]);
            i += 1;
        }
    }

    /// Modular subtraction of `b` from `a`, element by element, in variable time.
    pub fn sub_vec_vt(&self, a: &mut [u64], b: &[u64])
        requires
            self.wf(),
            old(a)@.len() == b@.len(),
            reduced(old(a)@, self.modulus()),
            reduced(b@, self.modulus()),
        ensures
            final(a)@.len() == old(a)@.len(),
            forall|i: int|
                0 <= i < old(a)@.len() ==> (#[trigger] final(a)@[i]) as int == (old(a)@[i] - b@[i]) % (
                self.modulus() as int),
    {
        let n = a.len();
        let mut i: usize = 0;
        while i < n
            invariant
                self.wf(),
                i <= n,
                n == a@.len(),
                n == b@.len(),
                a@.len() == old(a)@.len(),
                reduced(old(a)@, self.modulus()),
                reduced(b@, self.modulus()),
                forall|j: int| i <= j < n ==> a@[j] == old(a)@[j],
                forall|j: int|
                    0 <= j < i ==> (#[trigger] a@[j]) as int == (old(a)@[j] - b@[j]) % (
                    self.modulus() as int),
            decreases n - i,
        {
            a[i] = self.sub_vt(a[i], b[i]);
            i += 1;
        }
    }

    /// Modular negation of every element of `a`, in constant time.
    pub fn neg_vec(&self, a: &mut [u64])
        requires
            self.wf(),
            reduced(old(a)@, self.modulus()),
        ensures
            final(a)@.len() == old(a)@.len(),
            forall|i: int|
                0 <= i < old(a)@.len() ==> (#[trigger] final(a)@[i]) as int == (-(old(a)@[i] as int)) % (
                self.modulus() as int),
    {
        let n = a.len();
        let mut i: usize = 0;
        while i < n
            invariant
                self.wf(),
                i <= n,
                n == a@.len(),
                a@.len() == old(a)@.len(),
                reduced(old(a)@, self.modulus()),
                forall|j: int| i <= j < n ==> a@[j] == old(a)@[j],
                forall|j: int|
                    0 <= j < i ==> (#[trigger] a@[j]) as int == (-(old(a)@[j] as int)) % (
                    self.modulus() as int),
            decreases n - i,
        {
            a[i] = self.neg(a[i]);
            i += 1;
        }
    }

    /// Modular negation of every element of `a`, in variable time.
    pub fn neg_vec_vt(&self, a: &mut [u64])
        requires
            self.wf(),
            reduced(old(a)@, self.modulus()),
        ensures
            final(a)@.len() == old(a)@.len(),
            forall|i: int|
                0 <= i < old(a)@.len() ==> (#[trigger] final(a)@[i]) as int == (-(old(a)@[i] as int)) % (
                self.modulus() as int),
    {
        let n = a.len();
        let mut i: usize = 0;
        while i < n
            invariant
                self.wf(),
                i <= n,
                n == a@.len(),
                a@.len() == old(a)@.len(),
                reduced(old(a)@, self.modulus()),
                forall|j: int| i <= j < n ==> a@[j] == old(a)@[j],
                forall|j: int|
                    0 <= j < i ==> (#[trigger] a@[j]) as int == (-(old(a)@[j] as int)) % (
                    self.modulus() as int),
            decreases n - i,
        {
            a[i] = self.neg_vt(a[i]);
            i += 1;
        }
    }

    /// Modular reduction of every element of `a`, in constant time.
    pub fn reduce_vec(&self, a: &mut [u64])
        requires
            self.wf(),
        ensures
            final(a)@.len() == old(a)@.len(),
            forall|i: int|
                0 <= i < old(a)@.len() ==> (#[trigger] final(a)@[i]) as int == (old(a)@[i] as int) % (
                self.modulus() as int),
    {
        let n = a.len();
        let mut i: usize = 0;
        while i < n
            invariant
                self.wf(),
                i <= n,
                n == a@.len(),
                a@.len() == old(a)@.len(),
                forall|j: int| i <= j < n ==> a@[j] == old(a)@[j],
                forall|j: int|
                    0 <= j < i ==> (#[trigger] a@[j]) as int == (old(a)@[j] as int) % (
                    self.modulus() as int),
            decreases n - i,
        {
            a[i] = self.reduce(a[i]);
            i += 1;
        }
    }

    /// Modular reduction of every element of `a`, in variable time.
    pub fn reduce_vec_vt(&self, a: &mut [u64])
        requires
            self.wf(),
        ensures
            final(a)@.len() == old(a)@.len(),
            forall|i: int|
                0 <= i < old(a)@.len() ==> (#[trigger] final(a)@[i]) as int == (old(a)@[i] as int) % (
                self.modulus() as int),
    {
        let n = a.len();
        let mut i: usize = 0;
        while i < n
            invariant
                self.wf(),
                i <= n,
                n == a@.len(),
                a@.len() == old(a)@.len(),
                forall|j: int| i <= j < n ==> a@[j] == old(a)@[j],
                forall|j: int|
                    0 <= j < i ==> (#[trigger] a@[j]) as int == (old(a)@[j] as int) % (
                    self.modulus() as int),
            decreases n - i,
        {
            a[i] = self.reduce_vt(a[i]);
            i += 1;
        }
    }

    /// The elements of `a` reduced modulo `p`, in constant time.
    pub fn reduce_vec_new(&self, a: &[u64]) -> (r: Vec<u64>)
        requires
            self.wf(),
        ensures
            r@.len() == a@.len(),
            forall|i: int|
                0 <= i < a@.len() ==> (#[trigger] r@[i]) as int == a@[i] as int % (self.modulus() as int),
    {
        let n = a.len();
        let mut r: Vec<u64> = Vec::with_capacity(n);
        let mut i: usize = 0;
        while i < n
            invariant
                self.wf(),
                i <= n,
                n == a@.len(),
                r@.len() == i,
                forall|j: int|
                    0 <= j < i ==> (#[trigger] r@[j]) as int == a@[j] as int % (self.modulus() as int),
            decreases n - i,
        {
            r.push(self.reduce(a[i]));
            i += 1;
        }
        r
    }

    /// The elements of `a` reduced modulo `p`, in variable time.
    pub fn reduce_vec_new_vt(&self, a: &[u64]) -> (r: Vec<u64>)
        requires
            self.wf(),
        ensures
            r@.len() == a@.len(),
            forall|i: int|
                0 <= i < a@.len() ==> (#[trigger] r@[i]) as int == a@[i] as int % (self.modulus() as int),
    {
        let n = a.len();
        let mut r: Vec<u64> = Vec::with_capacity(n);
        let mut i: usize = 0;
        while i < n
            invariant
                self.wf(),
                i <= n,
                n == a@.len(),
                r@.len() == i,
                forall|j: int|
                    0 <= j < i ==> (#[trigger] r@[j]) as int == a@[j] as int % (self.modulus() as int),
            decreases n - i,
        {
            r.push(self.reduce_vt(a[i]));
            i += 1;
        }
        r
    }

    /// The signed elements of `a` reduced modulo `p`, in constant time.
    pub fn reduce_vec_i64(&self, a: &[i64]) -> (r: Vec<u64>)
        requires
            self.wf(),
        ensures
            r@.len() == a@.len(),
            forall|i: int|
                0 <= i < a@.len() ==> (#[trigger] r@[i]) as int == a@[i] as int % (self.modulus() as int),
    {
        let n = a.len();
        let mut r: Vec<u64> = Vec::with_capacity(n);
        let mut i: usize = 0;
        while i < n
            invariant
                self.wf(),
                i <= n,
                n == a@.len(),
                r@.len() == i,
                forall|j: int|
                    0 <= j < i ==> (#[trigger] r@[j]) as int == a@[j] as int % (self.modulus() as int),
            decreases n - i,
        {
            r.push(self.reduce_i64(a[i]));
            i += 1;
        }
        r
    }

    /// The signed elements of `a` reduced modulo `p`, in variable time.
    pub fn reduce_vec_i64_vt(&self, a: &[i64]) -> (r: Vec<u64>)
        requires
            self.wf(),
        ensures
            r@.len() == a@.len(),
            forall|i: int|
                0 <= i < a@.len() ==> (#[trigger] r@[i]) as int == a@[i] as int % (self.modulus() as int),
    {
        let n = a.len();
        let mut r: Vec<u64> = Vec::with_capacity(n);
        let mut i: usize = 0;
        while i < n
            invariant
                self.wf(),
                i <= n,
                n == a@.len(),
                r@.len() == i,
                forall|j: int|
                    0 <= j < i ==> (#[trigger] r@[j]) as int == a@[j] as int % (self.modulus() as int),
            decreases n - i,
        {
            r.push(self.reduce_i64_vt(a[i]));
            i += 1;
        }
        r
    }

    /// The Shoup constants of the elements of `a`.
    pub fn shoup_vec(&self, a: &[u64]) -> (r: Vec<u64>)
        requires
            self.wf(),
            reduced(a@, self.modulus()),
        ensures
            r@.len() == a@.len(),
            forall|i: int|
                0 <= i < a@.len() ==> (#[trigger] r@[i]) as int == shoup_ratio(a@[i] as int, self.modulus() as int),
    {
        let n = a.len();
        let mut r: Vec<u64> = Vec::with_capacity(n);
        let mut i: usize = 0;
        while i < n
            invariant
                self.wf(),
                i <= n,
                n == a@.len(),
                r@.len() == i,
                reduced(a@, self.modulus()),
                forall|j: int|
                    0 <= j < i ==> (#[trigger] r@[j]) as int == shoup_ratio(a@[j] as int, self.modulus() as int),
            decreases n - i,
        {
            r.push(self.shoup(a[i]));
            i += 1;
        }
        r
    }

    /// The centered representatives of the elements of `a`, in variable time.
    pub fn center_vec_vt(&self, a: &[u64]) -> (r: Vec<i64>)
        requires
            self.wf(),
            reduced(a@, self.modulus()),
        ensures
            r@.len() == a@.len(),
            forall|i: int|
                0 <= i < a@.len() ==> (#[trigger] r@[i]) as int == centered(
                    a@[i] as int,
                    self.modulus() as int,
                ),
    {
        let n = a.len();
        let mut r: Vec<i64> = Vec::with_capacity(n);
        let mut i: usize = 0;
        while i < n
            invariant
                self.wf(),
                i <= n,
                n == a@.len(),
                r@.len() == i,
                reduced(a@, self.modulus()),
                forall|j: int|
                    0 <= j < i ==> (#[trigger] r@[j]) as int == centered(
                        a@[j] as int,
                        self.modulus() as int,
                    ),
            decreases n - i,
        {
            r.push(self.center_vt(a[i]));
            i += 1;
        }
        r
    }

    /// Modular multiplication of `a` by `b`, element by element, in constant
    /// time.
    pub fn mul_vec(&self, a: &mut [u64], b: &[u64])
        requires
            self.wf(),
            old(a)@.len() == b@.len(),
            reduced(old(a)@, self.modulus()),
            reduced(b@, self.modulus()),
        ensures
            final(a)@.len() == old(a)@.len(),
            forall|i: int|
                0 <= i < old(a)@.len() ==> (#[trigger] final(a)@[i]) as int == (old(a)@[i]
                    * b@[i]) % (self.modulus() as int),
    {
        let n = a.len();
        let opt = self.supports_opt;
        let mut i: usize = 0;
        while i < n
            invariant
                self.wf(),
                opt == self.spec_supports_opt(),
                i <= n,
                n == a@.len(),
                n == b@.len(),
                a@.len() == old(a)@.len(),
                reduced(old(a)@, self.modulus()),
                reduced(b@, self.modulus()),
                forall|j: int| i <= j < n ==> a@[j] == old(a)@[j],
                forall|j: int|
                    0 <= j < i ==> (#[trigger] a@[j]) as int == (old(a)@[j] * b@[j]) % (
                    self.modulus() as int),
            decreases n - i,
        {
            if opt {
                a[i] = self.mul_opt(a[i], b[i]);
            } else {
                a[i] = self.mul(a[i], b[i]);
            }
            i += 1;
        }
    }

    /// Modular multiplication of `a` by `b`, element by element, in variable
    /// time.
    pub fn mul_vec_vt(&self, a: &mut [u64], b: &[u64])
        requires
            self.wf(),
            old(a)@.len() == b@.len(),
            reduced(old(a)@, self.modulus()),
            reduced(b@, self.modulus()),
        ensures
            final(a)@.len() == old(a)@.len(),
            forall|i: int|
                0 <= i < old(a)@.len() ==> (#[trigger] final(a)@[i]) as int == (old(a)@[i]
                    * b@[i]) % (self.modulus() as int),
    {
        let n = a.len();
        let opt = self.supports_opt;
        let mut i: usize = 0;
        while i < n
            invariant
                self.wf(),
                opt == self.spec_supports_opt(),
                i <= n,
                n == a@.len(),
                n == b@.len(),
                a@.len() == old(a)@.len(),
                reduced(old(a)@, self.modulus()),
                reduced(b@, self.modulus()),
                forall|j: int| i <= j < n ==> a@[j] == old(a)@[j],
                forall|j: int|
                    0 <= j < i ==> (#[trigger] a@[j]) as int == (old(a)@[j] * b@[j]) % (
                    self.modulus() as int),
            decreases n - i,
        {
            if opt {
                a[i] = self.mul_opt_vt(a[i], b[i]);
            } else {
                a[i] = self.mul_vt(a[i], b[i]);
            }
            i += 1;
        }
    }

    /// Modular multiplication of every element of `a` by the scalar `b`, in
    /// constant time.
    pub fn scalar_mul_vec(&self, a: &mut [u64], b: u64)
        requires
            self.wf(),
            b < self.modulus(),
        ensures
            final(a)@.len() == old(a)@.len(),
            forall|i: int|
                0 <= i < old(a)@.len() ==> (#[trigger] final(a)@[i]) as int == (old(a)@[i] * b)
                    % (self.modulus() as int),
    {
        let b_shoup = self.shoup(b);
        let n = a.len();
        let mut i: usize = 0;
        while i < n
            invariant
                self.wf(),
                b < self.modulus(),
                b_shoup as int == shoup_ratio(b as int, self.modulus() as int),
                i <= n,
                n == a@.len(),
                a@.len() == old(a)@.len(),
                forall|j: int| i <= j < n ==> a@[j] == old(a)@[j],
                forall|j: int|
                    0 <= j < i ==> (#[trigger] a@[j]) as int == (old(a)@[j] * b) % (
                    self.modulus() as int),
            decreases n - i,
        {
            a[i] = self.mul_shoup(a[i], b, b_shoup);
            i += 1;
        }
    }

    /// Modular multiplication of every element of `a` by the scalar `b`, in
    /// variable time.
    pub fn scalar_mul_vec_vt(&self, a: &mut [u64], b: u64)
        requires
            self.wf(),
            b < self.modulus(),
        ensures
            final(a)@.len() == old(a)@.len(),
            forall|i: int|
                0 <= i < old(a)@.len() ==> (#[trigger] final(a)@[i]) as int == (old(a)@[i] * b)
                    % (self.modulus() as int),
    {
        let b_shoup = self.shoup(b);
        let n = a.len();
        let mut i: usize = 0;
        while i < n
            invariant
                self.wf(),
                b < self.modulus(),
                b_shoup as int == shoup_ratio(b as int, self.modulus() as int),
                i <= n,
                n == a@.len(),
                a@.len() == old(a)@.len(),
                forall|j: int| i <= j < n ==> a@[j] == old(a)@[j],
                forall|j: int|
                    0 <= j < i ==> (#[trigger] a@[j]) as int == (old(a)@[j] * b) % (
                    self.modulus() as int),
            decreases n - i,
        {
            a[i] = self.mul_shoup_vt(a[i], b, b_shoup);
            i += 1;
        }
    }

    /// Shoup's multiplication of `a` by `b`, element by element, in constant
    /// time; `b_shoup` holds the Shoup constants of `b`.
    pub fn mul_shoup_vec(&self, a: &mut [u64], b: &[u64], b_shoup: &[u64])
        requires
            self.wf(),
            old(a)@.len() == b@.len(),
            b_shoup@.len() == b@.len(),
            reduced(b@, self.modulus()),
            forall|i: int|
                0 <= i < b@.len() ==> (#[trigger] b_shoup@[i]) as int == shoup_ratio(
                    b@[i] as int,
                    self.modulus() as int,
                ),
        ensures
            final(a)@.len() == old(a)@.len(),
            forall|i: int|
                0 <= i < old(a)@.len() ==> (#[trigger] final(a)@[i]) as int == (old(a)@[i]
                    * b@[i]) % (self.modulus() as int),
    {
        let n = a.len();
        let mut i: usize = 0;
        while i < n
            invariant
                self.wf(),
                i <= n,
                n == a@.len(),
                n == b@.len(),
                n == b_shoup@.len(),
                a@.len() == old(a)@.len(),
                reduced(b@, self.modulus()),
                forall|j: int|
                    0 <= j < b@.len() ==> (#[trigger] b_shoup@[j]) as int == shoup_ratio(
                        b@[j] as int,
                        self.modulus() as int,
                    ),
                forall|j: int| i <= j < n ==> a@[j] == old(a)@[j],
                forall|j: int|
                    0 <= j < i ==> (#[trigger] a@[j]) as int == (old(a)@[j] * b@[j]) % (
                    self.modulus() as int),
            decreases n - i,
        {
            a[i] = self.mul_shoup(a[i], b[i], b_shoup[i]);
            i += 1;
        }
    }

    /// Shoup's multiplication of `a` by `b`, element by element, in variable
    /// time; `b_shoup` holds the Shoup constants of `b`.
    pub fn mul_shoup_vec_vt(&self, a: &mut [u64], b: &[u64], b_shoup: &[u64])
        requires
            self.wf(),
            old(a)@.len() == b@.len(),
            b_shoup@.len() == b@.len(),
            reduced(b@, self.modulus()),
            forall|i: int|
                0 <= i < b@.len() ==> (#[trigger] b_shoup@[i]) as int == shoup_ratio(
                    b@[i] as int,
                    self.modulus() as int,
                ),
        ensures
            final(a)@.len() == old(a)@.len(),
            forall|i: int|
                0 <= i < old(a)@.len() ==> (#[trigger] final(a)@[i]) as int == (old(a)@[i]
                    * b@[i]) % (self.modulus() as int),
    {
        let n = a.len();
        let mut i: usize = 0;
        while i < n
            invariant
                self.wf(),
                i <= n,
                n == a@.len(),
                n == b@.len(),
                n == b_shoup@.len(),
                a@.len() == old(a)@.len(),
                reduced(b@, self.modulus()),
                forall|j: int|
                    0 <= j < b@.len() ==> (#[trigger] b_shoup@[j]) as int == shoup_ratio(
                        b@[j] as int,
                        self.modulus() as int,
                    ),
                forall|j: int| i <= j < n ==> a@[j] == old(a)@[j],
                forall|j: int|
                    0 <= j < i ==> (#[trigger] a@[j]) as int == (old(a)@[j] * b@[j]) % (
                    self.modulus() as int),
            decreases n - i,
        {
            a[i] = self.mul_shoup_vt(a[i], b[i], b_shoup[i]);
            i += 1;
        }
    }
}

impl Modulus {
    /// The vector of `size` elements of `[0, p)` that the seed yields.
    pub fn random_vec_from_seed(&self, size: usize, seed: Seed) -> (r: Vec<u64>)
        requires
            self.wf(),
            size != 0,
        ensures
            r@ == chacha8_uniform(seed@, self.modulus(), size as nat),
            r@.len() == size,
            reduced(r@, self.modulus()),
    {
        sample_uniform(&seed, self.p, size)
    }

    /// A vector of `size` elements of `[0, p)`, drawn with a fresh seed.
    pub fn random_vec(&self, size: usize) -> (r: Vec<u64>)
        requires
            self.wf(),
            size != 0,
        ensures
            exists|seed: Seed| r@ == #[trigger] chacha8_uniform(seed@, self.modulus(), size as nat),
            r@.len() == size,
            reduced(r@, self.modulus()),
    {
        self.random_vec_from_seed(size, fresh_seed())
    }
}

impl Modulus {
    /// The number of bits of the largest residue, `p - 1`.
    pub open spec fn spec_nbits(&self) -> nat {
        (64 - u64_leading_zeros((self.spec_modulus() - 1) as u64)) as nat
    }

    /// The number of bits of the largest residue.
    pub fn bits_per_residue(&self) -> (r: usize)
        requires
            self.wf(),
        ensures
            r == self.spec_nbits(),
            1 <= r <= 62,
    {
        self.nbits()
    }

    /// The number of bits of the largest residue.
    fn nbits(&self) -> (r: usize)
        requires
            self.wf(),
        ensures
            r == self.spec_nbits(),
            1 <= r <= 62,
            self.modulus() - 1 < pow2(r as nat),
    {
        let top: u64 = self.p - 1;
        proof {
            crate::nfl::lemma_leading_zeros_bounds(top);
            vstd::arithmetic::power2::lemma2_to64();
            vstd::arithmetic::power2::lemma2_to64_rest();
            if u64_leading_zeros(top) < 2 {
                vstd::arithmetic::power2::lemma_pow2_strictly_increases(
                    61,
                    (63 - u64_leading_zeros(top)) as nat,
                );
                vstd::arithmetic::power2::lemma_pow2_unfold(62);
            }
        }
        64 - (top.leading_zeros() as usize)
    }

    /// Length of the serialization of a vector of size `size`, a multiple
    /// of 8.
    pub fn serialization_length(&self, size: usize) -> (r: usize)
        requires
            self.wf(),
            size % 8 == 0,
            size / 8 * 62 <= usize::MAX,
        ensures
            r == self.spec_nbits() * size / 8,
    {
        let p_nbits = self.nbits();
        proof {
            let k = (size / 8) as int;
            assert(p_nbits * k <= 62 * k) by (nonlinear_arith)
                requires
                    p_nbits <= 62,
                    k >= 0,
            ;
            assert(p_nbits * size == (p_nbits * k) * 8) by (nonlinear_arith)
                requires
                    size == 8 * k,
            ;
        }
        p_nbits * (size / 8)
    }

    /// Serialize a vector of reduced elements whose length is a multiple of
    /// 8: the elements are packed into bytes, with as many bits each as the
    /// largest residue has.
    pub fn serialize_vec(&self, a: &[u64]) -> (r: Vec<u8>)
        requires
            self.wf(),
            a@.len() % 8 == 0,
            reduced(a@, self.modulus()),
        ensures
            r@ == packed_bytes(a@, self.spec_nbits()),
            is_repacked(widened(r@), a@, self.spec_nbits(), 8),
            r@.len() == self.spec_nbits() * a@.len() / 8,
    {
        let p_nbits = self.nbits();
        proof {
            assert forall|i: int| 0 <= i < a@.len() implies (#[trigger] a@[i]) < pow2(
                p_nbits as nat,
            ) by {
                assert(a@[i] <= self.p - 1);
            }
        }
        let r = transcode_to_bytes(a, p_nbits);
        proof {
            // the bits fill whole bytes
            let n = a@.len() as int;
            let k = n / 8;
            assert(n * p_nbits == (k * p_nbits) * 8) by (nonlinear_arith)
                requires
                    n == 8 * k,
            ;
            lemma_div_unique(n * p_nbits + 8 - 1, 8, k * p_nbits);
            lemma_div_unique(p_nbits * n, 8, k * p_nbits);
            assert(widened(r@).len() == r@.len());
        }
        r
    }

    /// Deserialize a vector of bytes into a vector of elements of as many
    /// bits each as the largest residue has.
    pub fn deserialize_vec(&self, b: &[u8]) -> (r: Vec<u64>)
        requires
            self.wf(),
        ensures
            r@ == repacked(widened(b@), 8, self.spec_nbits()),
            is_repacked(r@, widened(b@), 8, self.spec_nbits()),
    {
        let p_nbits = self.nbits();
        transcode_from_bytes(b, p_nbits)
    }

    /// Serializing a vector of reduced elements whose length is a multiple
    /// of 8, and deserializing the bytes, gives the vector back.
    pub proof fn lemma_serialize_round_trip(&self, a: Seq<u64>)
        requires
            self.wf(),
            a.len() % 8 == 0,
            reduced(a, self.spec_modulus()),
        ensures
            repacked(widened(packed_bytes(a, self.spec_nbits())), 8, self.spec_nbits()) == a,
            packed_bytes(a, self.spec_nbits()).len() == self.spec_nbits() * a.len() / 8,
    {
        let top = (self.p - 1) as u64;
        crate::nfl::lemma_leading_zeros_bounds(top);
        vstd::arithmetic::power2::lemma2_to64();
        vstd::arithmetic::power2::lemma2_to64_rest();
        if u64_leading_zeros(top) < 2 {
            vstd::arithmetic::power2::lemma_pow2_strictly_increases(
                61,
                (63 - u64_leading_zeros(top)) as nat,
            );
            vstd::arithmetic::power2::lemma_pow2_unfold(62);
        }
        assert(fits(a, self.spec_nbits())) by {
            assert forall|i: int| 0 <= i < a.len() implies (#[trigger] a[i]) < pow2(
                self.spec_nbits(),
            ) by {
                assert(a[i] <= top);
            }
        }
        assert((a.len() * self.spec_nbits()) % 8 == 0) by (nonlinear_arith)
            requires
                a.len() % 8 == 0,
        {
            let k = a.len() / 8;
            assert(a.len() == 8 * k);
            assert(a.len() * self.spec_nbits() == 8 * (k * self.spec_nbits()));
        }
        crate::transcode::lemma_pack_then_cut(a, self.spec_nbits());
    }
}

/// Whatever the constant-time operations and their variable-time siblings
/// return on the same reduced operands, the two results are equal, and they
/// are the sum, the difference and the product of the operands modulo `p`.
pub proof fn lemma_paths_agree(
    m: Modulus,
    a: u64,
    b: u64,
    sum: u64,
    sum_vt: u64,
    difference: u64,
    difference_vt: u64,
    product: u64,
    product_vt: u64,
)
    requires
        m.wf(),
        a < m.spec_modulus(),
        b < m.spec_modulus(),
        call_ensures(Modulus::add, (&m, a, b), sum),
        call_ensures(Modulus::add_vt, (&m, a, b), sum_vt),
        call_ensures(Modulus::sub, (&m, a, b), difference),
        call_ensures(Modulus::sub_vt, (&m, a, b), difference_vt),
        call_ensures(Modulus::mul, (&m, a, b), product),
        call_ensures(Modulus::mul_vt, (&m, a, b), product_vt),
    ensures
        sum == sum_vt,
        difference == difference_vt,
        product == product_vt,
        sum as int == (a + b) % (m.spec_modulus() as int),
        difference as int == (a - b) % (m.spec_modulus() as int),
        product as int == (a * b) % (m.spec_modulus() as int),
{
}

/// A number has at most one inverse among the residues modulo `p`.
pub proof fn lemma_inverse_unique(a: int, x: int, y: int, p: int)
    requires
        p > 0,
        0 <= x < p,
        0 <= y < p,
        (a * x) % p == 1,
        (a * y) % p == 1,
    ensures
        x == y,
{
    // x == x * (a * y) == (a * x) * y == y modulo p
    lemma_mul_mod_noop_right(x, a * y, p);
    lemma_mul_mod_noop_left(a * x, y, p);
    assert(x * (a * y) == (a * x) * y) by (nonlinear_arith);
    assert(x * 1 == x);
    assert(1 * y == y);
    lemma_small_mod(x as nat, p as nat);
    lemma_small_mod(y as nat, p as nat);
}

} // verus!
