//! The parameters of the BFV encryption scheme, and their builder.

use crate::bigint::BigNat;
use crate::errors::invalid_modulus_text;
use crate::nfl::{generate_prime, is_candidate};
use crate::ntt::{has_transform, NttOperator};
use crate::rns::{product_of, rns_error_text, RnsContext};
use crate::rq::{
    context_error_text, converted, is_power_of_two, power_rows, share, valid_context, Context,
    Poly, Representation,
};
use crate::scaler::{Scaler, ScalingFactor};
use crate::zq::Modulus;
use std::sync::Arc;
use vstd::arithmetic::power2::{is_pow2, lemma2_to64, lemma2_to64_rest, lemma_pow2_unfold, pow2};
use vstd::prelude::*;
use vstd::std_specs::bits::u64_leading_zeros;

verus! {

/// Whether `m` is the modulus that the search picks after `chosen`: the
/// largest prime of exactly `size` bits that is congruent to 1 modulo twice
/// the degree and is not among `chosen`.
pub open spec fn is_next_modulus(m: u64, chosen: Seq<u64>, size: nat, degree: nat) -> bool {
    &&& is_candidate(m as nat, size, 2 * degree, pow2(size))
    &&& !chosen.contains(m)
    &&& forall|q: u64|
        #[trigger] is_candidate(q as nat, size, 2 * degree, pow2(size)) && !chosen.contains(q)
            ==> q <= m
}

/// Whether there is no prime of exactly `size` bits, congruent to 1 modulo
/// twice the degree, outside `chosen`.
pub open spec fn no_modulus_left(chosen: Seq<u64>, size: nat, degree: nat) -> bool {
    forall|q: u64|
        #[trigger] is_candidate(q as nat, size, 2 * degree, pow2(size)) ==> chosen.contains(q)
}

/// Whether `x` occurs in `v`.
pub fn contains(v: &Vec<u64>, x: u64) -> (r: bool)
    ensures
        r == v@.contains(x),
{
    let mut i: usize = 0;
    while i < v.len()
        invariant
            i <= v@.len(),
            forall|j: int| 0 <= j < i ==> v@[j] != x,
        decreases v@.len() - i,
    {
        if v[i] == x {
            return true;
        }
        i += 1;
    }
    false
}

/// Appends to `chosen` the largest prime of exactly `size` bits that is
/// congruent to 1 modulo twice the degree and not yet among `chosen`, and
/// tells whether there was one.
pub fn pick_modulus(chosen: &mut Vec<u64>, size: usize, degree: usize) -> (r: bool)
    requires
        10 <= size <= 62,
        0 < degree < 0x4000_0000_0000_0000,
    ensures
        r ==> final(chosen)@.len() == old(chosen)@.len() + 1 && final(chosen)@.subrange(
            0,
            old(chosen)@.len() as int,
        ) == old(chosen)@ && is_next_modulus(
            final(chosen)@.last(),
            old(chosen)@,
            size as nat,
            degree as nat,
        ),
        !r ==> final(chosen)@ == old(chosen)@ && no_modulus_left(
            old(chosen)@,
            size as nat,
            degree as nat,
        ),
{
    let modulo: u64 = 2 * (degree as u64);
    let top: u128 = crate::nfl::pow2_u128(size as u32);
    proof {
        lemma2_to64();
        lemma2_to64_rest();
        vstd::arithmetic::power2::lemma_pow2_strictly_increases(size as nat, 63);
    }
    let mut upper_bound: u64 = top as u64;
    let ghost sz = size as nat;
    let ghost dg = degree as nat;
    loop
        invariant
            10 <= size <= 62,
            sz == size,
            dg == degree,
            modulo == 2 * degree,
            modulo != 0,
            upper_bound <= pow2(sz),
            chosen@ == old(chosen)@,
            forall|q: u64|
                #[trigger] is_candidate(q as nat, sz, 2 * dg, pow2(sz)) && q >= upper_bound
                    ==> chosen@.contains(q),
        decreases upper_bound,
    {
        match generate_prime(size, modulo, upper_bound) {
            None => {
                proof {
                    assert forall|q: u64| #[trigger]
                        is_candidate(q as nat, sz, 2 * dg, pow2(sz)) implies chosen@.contains(
                        q,
                    ) by {
                        if q < upper_bound {
                            assert(is_candidate(q as nat, sz, modulo as nat, upper_bound as nat));
                        }
                    }
                }
                return false;
            },
            Some(prime) => {
                proof {
                    assert forall|q: u64| #[trigger]
                        is_candidate(q as nat, sz, 2 * dg, pow2(sz)) && q > prime
                        implies chosen@.contains(q) by {
                        if q < upper_bound {
                            assert(is_candidate(q as nat, sz, modulo as nat, upper_bound as nat));
                        }
                    }
                }
                if !contains(chosen, prime) {
                    let ghost before = chosen@;
                    chosen.push(prime);
                    proof {
                        assert(chosen@.subrange(0, before.len() as int) =~= before);
                    }
                    return true;
                } else {
                    upper_bound = prime;
                }
            },
        }
    }
}

/// The number made of the lowest `bits` bits of `x` in reverse order.
pub open spec fn bit_reverse(x: nat, bits: nat) -> nat
    decreases bits,
{
    if bits == 0 {
        0
    } else {
        bit_reverse(x / 2, (bits - 1) as nat) + (x % 2) * pow2((bits - 1) as nat)
    }
}

/// The number made of the lowest `bits` bits of `x` in reverse order.
pub fn reverse_bits(x: usize, bits: u32) -> (r: usize)
    requires
        bits <= 31,
    ensures
        r == bit_reverse(x as nat, bits as nat),
        r < pow2(bits as nat),
{
    let mut acc: usize = 0;
    let mut y: usize = x;
    let mut t: u32 = 0;
    proof {
        lemma2_to64();
    }
    while t < bits
        invariant
            t <= bits <= 31,
            acc < pow2(t as nat),
            acc * pow2((bits - t) as nat) + bit_reverse(y as nat, (bits - t) as nat)
                == bit_reverse(x as nat, bits as nat),
        decreases bits - t,
    {
        proof {
            lemma2_to64();
            lemma_pow2_unfold((bits - t) as nat);
            lemma_pow2_unfold((t + 1) as nat);
            vstd::arithmetic::power2::lemma_pow2_strictly_increases((t + 1) as nat, 32);
            let w = pow2((bits - t - 1) as nat) as int;
            assert((2 * acc + y % 2) * w == acc * (2 * w) + (y % 2) * w) by (nonlinear_arith);
        }
        acc = 2 * acc + y % 2;
        y = y / 2;
        t += 1;
    }
    proof {
        lemma2_to64();
        assert(acc * 1 == acc);
    }
    acc
}

/// The power of the generator 3 modulo `m` that stands at the position `i`
/// of the batching table.
pub open spec fn generator_power(i: nat, m: nat) -> nat
    decreases i,
{
    if i == 0 {
        1
    } else {
        (generator_power((i - 1) as nat, m) * 3) % m
    }
}

/// Whether `map` is the batching table of the degree `n = 2^bits`: for the
/// powers `g` of 3 modulo `2n`, the reversed indices of `(g - 1) / 2` in the
/// first half and of `(2n - g - 1) / 2` in the second.
pub open spec fn is_index_map(map: Seq<usize>, n: nat, bits: nat) -> bool {
    &&& map.len() == n
    &&& forall|i: int|
        0 <= i < n / 2 ==> (#[trigger] map[i]) as nat == bit_reverse(
            ((generator_power(i as nat, 2 * n) - 1) / 2) as nat,
            bits,
        )
    &&& forall|i: int|
        n / 2 <= i < n ==> (#[trigger] map[i]) as nat == bit_reverse(
            ((2 * n - generator_power((i - n / 2) as nat, 2 * n) - 1) / 2) as nat,
            bits,
        )
    &&& forall|i: int| 0 <= i < n ==> (#[trigger] map[i]) < n
}

/// The number of bits below the leading one of a power of two.
pub fn log2_exact(n: usize) -> (r: u32)
    requires
        is_pow2(n as int),
        n < 0x4000_0000,
    ensures
        n == pow2(r as nat),
        r < 30,
{
    let mut r: u32 = 0;
    let mut m: usize = n;
    proof {
        lemma2_to64();
        reveal(is_pow2);
    }
    while m > 1
        invariant
            is_pow2(m as int),
            m >= 1,
            m * pow2(r as nat) == n,
            n < 0x4000_0000,
            r < 30,
        decreases m,
    {
        proof {
            reveal(is_pow2);
            lemma_pow2_unfold((r + 1) as nat);
            assert((m / 2) * (2 * pow2(r as nat)) == m * pow2(r as nat)) by (nonlinear_arith)
                requires
                    m == 2 * (m / 2),
            ;
            lemma2_to64();
            if r >= 29 {
                vstd::arithmetic::power2::lemma_pow2_strictly_increases(29, (r + 1) as nat);
                assert(pow2(30) == 0x4000_0000);
                assert((m / 2) * pow2((r + 1) as nat) >= pow2((r + 1) as nat)) by (nonlinear_arith)
                    requires
                        m / 2 >= 1,
                ;
            }
        }
        m = m / 2;
        r += 1;
    }
    proof {
        assert(1 * pow2(r as nat) == pow2(r as nat));
    }
    r
}

/// The batching table of the degree `n`.
pub fn index_map(n: usize) -> (r: Vec<usize>)
    requires
        is_pow2(n as int),
        8 <= n < 0x4000_0000,
    ensures
        exists|bits: nat| n == pow2(bits) && is_index_map(r@, n as nat, bits),
{
    let bits = log2_exact(n);
    let row_size = n / 2;
    let m = 2 * n;
    let mut first: Vec<usize> = Vec::with_capacity(n);
    let mut second: Vec<usize> = Vec::with_capacity(row_size);
    let mut pos: usize = 1;
    let mut i: usize = 0;
    proof {
        reveal(is_pow2);
        vstd::arithmetic::div_mod::lemma_small_mod(1, m as nat);
    }
    while i < row_size
        invariant
            i <= row_size,
            row_size == n / 2,
            n == 2 * row_size,
            m == 2 * n,
            8 <= n < 0x4000_0000,
            n == pow2(bits as nat),
            bits < 30,
            pos == generator_power(i as nat, m as nat),
            pos < m,
            pos % 2 == 1,
            first@.len() == i,
            second@.len() == i,
            forall|t: int|
                0 <= t < i ==> (#[trigger] first@[t]) as nat == bit_reverse(
                    ((generator_power(t as nat, m as nat) - 1) / 2) as nat,
                    bits as nat,
                ) && first@[t] < n,
            forall|t: int|
                0 <= t < i ==> (#[trigger] second@[t]) as nat == bit_reverse(
                    ((m - generator_power(t as nat, m as nat) - 1) / 2) as nat,
                    bits as nat,
                ) && second@[t] < n,
        decreases row_size - i,
    {
        let index1 = (pos - 1) / 2;
        let index2 = (m - pos - 1) / 2;
        proof {
            vstd::arithmetic::div_mod::lemma_mod_bound((pos * 3) as int, m as int);
            vstd::arithmetic::div_mod::lemma_mod_mod((pos * 3) as int, 2, n as int);
        }
        first.push(reverse_bits(index1, bits));
        second.push(reverse_bits(index2, bits));
        pos = (((pos as u64) * 3) % (m as u64)) as usize;
        i += 1;
    }
    let ghost head = first@;
    let mut j: usize = 0;
    while j < row_size
        invariant
            j <= row_size,
            row_size == n / 2,
            n == 2 * row_size,
            second@.len() == row_size,
            head.len() == row_size,
            first@ == head + second@.subrange(0, j as int),
        decreases row_size - j,
    {
        first.push(second[j]);
        proof {
            assert(first@ =~= head + second@.subrange(0, j + 1));
        }
        j += 1;
    }
    proof {
        assert(is_index_map(first@, n as nat, bits as nat)) by {
            assert forall|t: int| row_size <= t < n implies (#[trigger] first@[t]) as nat
                == bit_reverse(
                ((2 * n - generator_power((t - n / 2) as nat, 2 * n as nat) - 1) / 2) as nat,
                bits as nat,
            ) && first@[t] < n by {
                assert(first@[t] == second@[t - row_size]);
            }
            assert forall|t: int| 0 <= t < row_size implies (#[trigger] first@[t]) as nat
                == bit_reverse(
                ((generator_power(t as nat, 2 * n as nat) - 1) / 2) as nat,
                bits as nat,
            ) && first@[t] < n by {
                assert(first@[t] == head[t]);
            }
        }
    }
    first
}

/// The modulus that the search picks after `chosen`, if there is one.
pub open spec fn next_modulus(chosen: Seq<u64>, size: nat, degree: nat) -> Option<u64> {
    if exists|m: u64| is_next_modulus(m, chosen, size, degree) {
        Some(choose|m: u64| is_next_modulus(m, chosen, size, degree))
    } else {
        None
    }
}

/// The list `chosen` followed by one modulus for each of the sizes, picked
/// in turn. The error is `true` where a size is outside `[10, 62]`, and
/// `false` where no prime is left for a size.
pub open spec fn pick_all(chosen: Seq<u64>, sizes: Seq<usize>, degree: nat) -> Result<
    Seq<u64>,
    bool,
>
    decreases sizes.len(),
{
    if sizes.len() == 0 {
        Ok(chosen)
    } else if !(10 <= sizes[0] <= 62) {
        Err(true)
    } else {
        match next_modulus(chosen, sizes[0] as nat, degree) {
            None => Err(false),
            Some(m) => pick_all(chosen.push(m), sizes.drop_first(), degree),
        }
    }
}

/// There is at most one next modulus.
pub proof fn lemma_next_modulus_unique(m: u64, chosen: Seq<u64>, size: nat, degree: nat)
    requires
        is_next_modulus(m, chosen, size, degree),
    ensures
        next_modulus(chosen, size, degree) == Some(m),
{
    let other = choose|x: u64| is_next_modulus(x, chosen, size, degree);
    assert(is_candidate(other as nat, size, 2 * degree, pow2(size)));
    assert(is_candidate(m as nat, size, 2 * degree, pow2(size)));
}

/// Where no prime is left, there is no next modulus.
pub proof fn lemma_next_modulus_none(chosen: Seq<u64>, size: nat, degree: nat)
    requires
        no_modulus_left(chosen, size, degree),
    ensures
        next_modulus(chosen, size, degree).is_none(),
{
    if exists|m: u64| is_next_modulus(m, chosen, size, degree) {
        let m = choose|m: u64| is_next_modulus(m, chosen, size, degree);
        assert(is_candidate(m as nat, size, 2 * degree, pow2(size)));
    }
}

/// Appends to `chosen` one modulus for each of the sizes, picked in turn.
pub fn pick_moduli(chosen: Vec<u64>, sizes: &[usize], degree: usize) -> (r: Result<Vec<u64>, bool>)
    requires
        0 < degree < 0x4000_0000_0000_0000,
    ensures
        match pick_all(chosen@, sizes@, degree as nat) {
            Ok(v) => r matches Ok(x) && x@ == v,
            Err(b) => r == Err::<Vec<u64>, bool>(b),
        },
        r matches Ok(x) ==> x@.len() == chosen@.len() + sizes@.len() && x@.subrange(
            0,
            chosen@.len() as int,
        ) == chosen@,
{
    let mut all = chosen;
    let mut i: usize = 0;
    let ghost start = all@;
    proof {
        assert(sizes@.subrange(0, sizes@.len() as int) =~= sizes@);
        assert(all@.subrange(0, start.len() as int) =~= start);
    }
    while i < sizes.len()
        invariant
            i <= sizes@.len(),
            0 < degree < 0x4000_0000_0000_0000,
            start == chosen@,
            all@.len() == start.len() + i,
            all@.subrange(0, start.len() as int) == start,
            pick_all(start, sizes@, degree as nat) == pick_all(
                all@,
                sizes@.subrange(i as int, sizes@.len() as int),
                degree as nat,
            ),
        decreases sizes@.len() - i,
    {
        let ghost rest = sizes@.subrange(i as int, sizes@.len() as int);
        let ghost before = all@;
        proof {
            assert(rest[0] == sizes@[i as int]);
            assert(rest.drop_first() =~= sizes@.subrange(i + 1, sizes@.len() as int));
        }
        if sizes[i] < 10 || sizes[i] > 62 {
            return Err(true);
        }
        if !pick_modulus(&mut all, sizes[i], degree) {
            proof {
                lemma_next_modulus_none(before, sizes@[i as int] as nat, degree as nat);
            }
            return Err(false);
        }
        proof {
            lemma_next_modulus_unique(all@.last(), before, sizes@[i as int] as nat, degree as nat);
            assert(all@ =~= before.push(all@.last()));
            assert(all@.subrange(0, start.len() as int) =~= before.subrange(
                0,
                start.len() as int,
            ));
        }
        i += 1;
    }
    proof {
        assert(sizes@.subrange(i as int, sizes@.len() as int).len() == 0);
    }
    Ok(all)
}

/// The number of bits of `m`.
pub open spec fn bit_length(m: u64) -> nat {
    (64 - u64_leading_zeros(m)) as nat
}

/// The sum of the numbers of bits of the moduli.
pub open spec fn total_bits(moduli: Seq<u64>) -> nat
    decreases moduli.len(),
{
    if moduli.len() == 0 {
        0
    } else {
        total_bits(moduli.drop_last()) + bit_length(moduli.last())
    }
}

/// `a / b`, rounded to the nearest integer.
pub open spec fn round_div(a: nat, b: nat) -> nat {
    (a + b / 2) / b
}

/// Whether `s` is the scaler between the two contexts by `num / den`.
pub open spec fn scaler_is(s: Scaler, from: Context, to: Context, num: nat, den: nat) -> bool {
    &&& s.wf()
    &&& s.from() == from
    &&& s.to() == to
    &&& s.num() == num
    &&& s.den() == den
}

/// What a multiplication of two ciphertexts needs: the scalers that extend
/// each operand into a larger context, and the one that brings the product
/// back.
#[derive(Clone, Debug)]
pub struct MultiplicationParameters {
    extender_self: Scaler,
    extender_other: Scaler,
    down_scaler: Scaler,
    from: Arc<Context>,
    to: Arc<Context>,
}

impl MultiplicationParameters {
    /// The scaler that extends the first operand.
    pub closed spec fn extender_self(&self) -> Scaler {
        self.extender_self
    }

    /// The scaler that extends the second operand.
    pub closed spec fn extender_other(&self) -> Scaler {
        self.extender_other
    }

    /// The scaler that brings the product back.
    pub closed spec fn down_scaler(&self) -> Scaler {
        self.down_scaler
    }

    /// The context of the operands.
    pub closed spec fn from(&self) -> Context {
        *self.from
    }

    /// The context of the product before it is brought back.
    pub closed spec fn to(&self) -> Context {
        *self.to
    }

    /// Well-formedness: the scalers go between the two contexts.
    pub open spec fn wf(&self) -> bool {
        &&& self.extender_self().wf()
        &&& self.extender_other().wf()
        &&& self.down_scaler().wf()
        &&& self.extender_self().from() == self.from()
        &&& self.extender_self().to() == self.to()
        &&& self.extender_other().from() == self.from()
        &&& self.extender_other().to() == self.to()
        &&& self.down_scaler().from() == self.to()
        &&& self.down_scaler().to() == self.from()
    }

    /// The parameters of a multiplication that extends from `from` to `to`.
    /// Fails where the two contexts differ in degree.
    pub fn new(
        from: &Arc<Context>,
        to: &Arc<Context>,
        up_self_factor: ScalingFactor,
        up_other_factor: ScalingFactor,
        down_factor: ScalingFactor,
    ) -> (r: Result<MultiplicationParameters, String>)
        requires
            from.wf(),
            to.wf(),
            up_self_factor.den() != 0,
            up_other_factor.den() != 0,
            down_factor.den() != 0,
        ensures
            r.is_ok() <==> from.degree() == to.degree(),
            r matches Ok(m) ==> {
                &&& m.wf()
                &&& m.from() == **from
                &&& m.to() == **to
                &&& m.extender_self().num() == up_self_factor.num()
                &&& m.extender_self().den() == up_self_factor.den()
                &&& m.extender_other().num() == up_other_factor.num()
                &&& m.extender_other().den() == up_other_factor.den()
                &&& m.down_scaler().num() == down_factor.num()
                &&& m.down_scaler().den() == down_factor.den()
            },
            r matches Err(e) ==> e@ == "The contexts differ in degree"@,
    {
        let extender_self = match Scaler::new(from, to, up_self_factor) {
            Ok(s) => s,
            Err(e) => {
                return Err("The contexts differ in degree".to_string());
            },
        };
        let extender_other = match Scaler::new(from, to, up_other_factor) {
            Ok(s) => s,
            Err(e) => {
                return Err("The contexts differ in degree".to_string());
            },
        };
        let down_scaler = match Scaler::new(to, from, down_factor) {
            Ok(s) => s,
            Err(e) => {
                return Err("The contexts differ in degree".to_string());
            },
        };
        Ok(
            MultiplicationParameters {
                extender_self,
                extender_other,
                down_scaler,
                from: share(from),
                to: share(to),
            },
        )
    }

    /// The scaler that extends the first operand.
    pub fn get_extender_self(&self) -> (r: &Scaler)
        ensures
            *r == self.extender_self(),
    {
        &self.extender_self
    }

    /// The scaler that extends the second operand.
    pub fn get_extender_other(&self) -> (r: &Scaler)
        ensures
            *r == self.extender_other(),
    {
        &self.extender_other
    }

    /// The scaler that brings the product back.
    pub fn get_down_scaler(&self) -> (r: &Scaler)
        ensures
            *r == self.down_scaler(),
    {
        &self.down_scaler
    }

    /// The context of the product before it is brought back.
    pub fn get_to(&self) -> (r: &Arc<Context>)
        ensures
            **r == self.to(),
    {
        &self.to
    }
}

/// The sizes of the primes that a multiplication extends the moduli with:
/// one more prime of 62 bits than there are moduli.
pub open spec fn extension_sizes(k: nat) -> Seq<usize> {
    Seq::new(k + 1, |i: int| 62usize)
}

/// The number of primes that the first kind of multiplication extends the
/// moduli with, for about 60 bits more than the moduli have.
pub open spec fn extension_count(moduli: Seq<u64>) -> nat {
    (total_bits(moduli) + 121) / 62
}

/// The description of the reason for which there are no parameters for the
/// degree, the plaintext modulus `t` and the ciphertext moduli `m`; `None`
/// where there are parameters.
pub open spec fn assemble_error(degree: nat, t: u64, m: Seq<u64>) -> Option<Seq<char>> {
    if !(2 <= t < 0x4000_0000_0000_0000) {
        Some(invalid_modulus_text())
    } else if !(is_pow2(degree as int) && degree >= 8) {
        Some("The degree is not a power of two larger or equal to 8"@)
    } else if degree >= 0x4000_0000 {
        Some("The degree is too large"@)
    } else if m.len() >= 0x100_0000 {
        Some("Too many ciphertext moduli"@)
    } else if !valid_context(m, degree) {
        Some(context_error_text(m, degree))
    } else if !valid_context(m.subrange(0, 1), degree) {
        Some(context_error_text(m.subrange(0, 1), degree))
    } else {
        match pick_all(m, extension_sizes(m.len()), degree) {
            Err(_) => Some("Could not generate enough moduli for the multiplication"@),
            Ok(all) => {
                let m1 = all.subrange(0, (m.len() + extension_count(m)) as int);
                let m2 = all.subrange(0, (2 * m.len()) as int);
                let e2 = all.subrange(m.len() as int, (2 * m.len()) as int);
                if !valid_context(m1, degree) {
                    Some(context_error_text(m1, degree))
                } else if !valid_context(m2, degree) {
                    Some(context_error_text(m2, degree))
                } else if !(crate::rns::all_in_range(e2) && crate::rns::pairwise_coprime(e2)) {
                    Some(rns_error_text(e2))
                } else {
                    None
                }
            },
        }
    }
}

/// Parameters for the BFV encryption scheme.
#[derive(Debug)]
pub struct BfvParameters {
    polynomial_degree: usize,
    plaintext_modulus: u64,
    ciphertext_moduli: Vec<u64>,
    ciphertext_moduli_sizes: Vec<usize>,
    variance: usize,
    ctx: Arc<Context>,
    op: Option<Arc<NttOperator>>,
    delta: Poly,
    delta_minimized: Poly,
    q_mod_t: u64,
    q_mod_t_minimized: u64,
    scaler: Scaler,
    scaler_minimized: Scaler,
    plaintext: Modulus,
    plaintext_ctx: Arc<Context>,
    mul_1_params: MultiplicationParameters,
    mul_2_params: MultiplicationParameters,
    matrix_reps_index_map: Vec<usize>,
    modswitch: Scaler,
}

impl BfvParameters {
    /// The degree of the polynomials.
    pub closed spec fn spec_degree(&self) -> nat {
        self.polynomial_degree as nat
    }

    /// The plaintext modulus.
    pub closed spec fn spec_plaintext(&self) -> u64 {
        self.plaintext_modulus
    }

    /// The ciphertext moduli.
    pub closed spec fn spec_moduli(&self) -> Seq<u64> {
        self.ciphertext_moduli@
    }

    /// The numbers of bits of the ciphertext moduli.
    pub closed spec fn spec_moduli_sizes(&self) -> Seq<usize> {
        self.ciphertext_moduli_sizes@
    }

    /// The variance of the error distribution.
    pub closed spec fn spec_variance(&self) -> nat {
        self.variance as nat
    }

    /// The context of the ciphertexts.
    pub closed spec fn ctx(&self) -> Context {
        *self.ctx
    }

    /// The context of the minimized ciphertexts, over the first modulus.
    pub closed spec fn plaintext_ctx(&self) -> Context {
        *self.plaintext_ctx
    }

    /// The plaintext modulus, with its constants.
    pub closed spec fn plaintext(&self) -> Modulus {
        self.plaintext
    }

    /// The transform modulo the plaintext modulus, where there is one.
    pub closed spec fn op(&self) -> Option<NttOperator> {
        match self.op {
            Some(o) => Some(*o),
            None => None,
        }
    }

    /// The polynomial that scales a plaintext into the ciphertext modulus.
    pub closed spec fn delta(&self) -> Poly {
        self.delta
    }

    /// The polynomial that scales a plaintext into the first modulus.
    pub closed spec fn delta_minimized(&self) -> Poly {
        self.delta_minimized
    }

    /// The product of the ciphertext moduli, modulo the plaintext modulus.
    pub closed spec fn q_mod_t(&self) -> u64 {
        self.q_mod_t
    }

    /// The first ciphertext modulus, modulo the plaintext modulus.
    pub closed spec fn q_mod_t_minimized(&self) -> u64 {
        self.q_mod_t_minimized
    }

    /// The scaler of the decryption.
    pub closed spec fn scaler(&self) -> Scaler {
        self.scaler
    }

    /// The scaler of the decryption of a minimized ciphertext.
    pub closed spec fn scaler_minimized(&self) -> Scaler {
        self.scaler_minimized
    }

    /// The scaler that minimizes a ciphertext.
    pub closed spec fn modswitch(&self) -> Scaler {
        self.modswitch
    }

    /// The parameters of the multiplication with a wide extension.
    pub closed spec fn mul_1_params(&self) -> MultiplicationParameters {
        self.mul_1_params
    }

    /// The parameters of the multiplication with a balanced extension.
    pub closed spec fn mul_2_params(&self) -> MultiplicationParameters {
        self.mul_2_params
    }

    /// The batching table.
    pub closed spec fn index_map(&self) -> Seq<usize> {
        self.matrix_reps_index_map@
    }

    /// Whether every context of the parameters, and the transform modulo the
    /// plaintext modulus, uses the reference tables of the transform.
    pub open spec fn reference_only(&self) -> bool {
        &&& crate::correctness::uses_reference_tables(self.ctx())
        &&& crate::correctness::uses_reference_tables(self.plaintext_ctx())
        &&& crate::correctness::uses_reference_tables(self.mul_1_params().to())
        &&& crate::correctness::uses_reference_tables(self.mul_2_params().to())
        &&& self.op() matches Some(o) ==> !o.accelerated()
    }

    /// The product of the ciphertext moduli.
    pub open spec fn big_q(&self) -> nat {
        product_of(self.spec_moduli())
    }

    /// Well-formedness: every derived value is the one that the degree, the
    /// plaintext modulus and the ciphertext moduli determine.
    pub open spec fn wf(&self) -> bool {
        let n = self.spec_degree();
        let t = self.spec_plaintext();
        let m = self.spec_moduli();
        &&& assemble_error(n, t, m).is_none()
        &&& 1 <= self.spec_variance() <= 16
        &&& self.spec_moduli_sizes().len() == m.len()
        &&& forall|i: int|
            0 <= i < m.len() ==> (#[trigger] self.spec_moduli_sizes()[i]) as nat == bit_length(m[i])
        &&& self.ctx().wf() && self.ctx().moduli() == m && self.ctx().degree() == n
        &&& self.plaintext_ctx().wf() && self.plaintext_ctx().moduli() == m.subrange(0, 1)
            && self.plaintext_ctx().degree() == n
        &&& self.plaintext().wf() && self.plaintext().spec_modulus() == t
        &&& self.op().is_some() <==> has_transform(t, n)
        &&& self.op() matches Some(o) ==> o.wf() && o.modulus() == t && o.size() == n
        &&& self.delta().wf() && self.delta().ctx() == self.ctx() && self.delta().representation()
            == Representation::NttShoup && self.delta().rows() == converted(
            self.ctx(),
            Representation::PowerBasis,
            Representation::NttShoup,
            power_rows(seq![round_div(self.big_q(), t as nat) as int], m, n),
        )
        &&& self.delta_minimized().wf() && self.delta_minimized().ctx() == self.plaintext_ctx()
            && self.delta_minimized().representation() == Representation::NttShoup
            && self.delta_minimized().rows() == converted(
            self.plaintext_ctx(),
            Representation::PowerBasis,
            Representation::NttShoup,
            power_rows(seq![round_div(m[0] as nat, t as nat) as int], m.subrange(0, 1), n),
        )
        &&& self.q_mod_t() as nat == self.big_q() % (t as nat)
        &&& self.q_mod_t_minimized() == m[0] % t
        &&& scaler_is(self.scaler(), self.ctx(), self.plaintext_ctx(), t as nat, self.big_q())
        &&& scaler_is(
            self.scaler_minimized(),
            self.plaintext_ctx(),
            self.plaintext_ctx(),
            t as nat,
            m[0] as nat,
        )
        &&& scaler_is(
            self.modswitch(),
            self.ctx(),
            self.plaintext_ctx(),
            1,
            self.big_q() / (m[0] as nat),
        )
        &&& pick_all(m, extension_sizes(m.len()), n) matches Ok(all) && {
            let p = product_of(all.subrange(m.len() as int, (2 * m.len()) as int));
            &&& self.mul_1_params().wf()
            &&& self.mul_1_params().from() == self.ctx()
            &&& self.mul_1_params().to().moduli() == all.subrange(
                0,
                (m.len() + extension_count(m)) as int,
            )
            &&& self.mul_1_params().extender_self().num() == 1
            &&& self.mul_1_params().extender_self().den() == 1
            &&& self.mul_1_params().extender_other().num() == 1
            &&& self.mul_1_params().extender_other().den() == 1
            &&& self.mul_1_params().down_scaler().num() == t
            &&& self.mul_1_params().down_scaler().den() == self.big_q()
            &&& self.mul_2_params().wf()
            &&& self.mul_2_params().from() == self.ctx()
            &&& self.mul_2_params().to().moduli() == all.subrange(0, (2 * m.len()) as int)
            &&& self.mul_2_params().extender_self().num() == 1
            &&& self.mul_2_params().extender_self().den() == 1
            &&& self.mul_2_params().extender_other().num() == p
            &&& self.mul_2_params().extender_other().den() == self.big_q()
            &&& self.mul_2_params().down_scaler().num() == t
            &&& self.mul_2_params().down_scaler().den() == p
        }
        &&& exists|bits: nat| n == pow2(bits) && is_index_map(self.index_map(), n, bits)
    }
}

/// The elements of `v` from the index `from` up to the index `to`.
pub fn subvector(v: &Vec<u64>, from: usize, to: usize) -> (r: Vec<u64>)
    requires
        from <= to <= v@.len(),
    ensures
        r@ == v@.subrange(from as int, to as int),
{
    let mut r: Vec<u64> = Vec::with_capacity(to - from);
    let mut i: usize = from;
    while i < to
        invariant
            from <= i <= to <= v@.len(),
            r@ == v@.subrange(from as int, i as int),
        decreases to - i,
    {
        r.push(v[i]);
        proof {
            assert(r@ =~= v@.subrange(from as int, i + 1));
        }
        i += 1;
    }
    r
}

/// The numbers of bits of the moduli, and their sum.
pub fn bit_sizes(moduli: &Vec<u64>) -> (r: (Vec<usize>, usize))
    requires
        crate::rns::all_in_range(moduli@),
        moduli@.len() < 0x100_0000,
    ensures
        r.0@.len() == moduli@.len(),
        forall|i: int| 0 <= i < moduli@.len() ==> (#[trigger] r.0@[i]) as nat == bit_length(moduli@[i]),
        r.1 == total_bits(moduli@),
        r.1 <= 62 * moduli@.len(),
{
    let k = moduli.len();
    let mut sizes: Vec<usize> = Vec::with_capacity(k);
    let mut sum: usize = 0;
    let mut i: usize = 0;
    proof {
        assert(moduli@.subrange(0, 0) =~= Seq::<u64>::empty());
    }
    while i < k
        invariant
            i <= k,
            k == moduli@.len(),
            k < 0x100_0000,
            crate::rns::all_in_range(moduli@),
            sizes@.len() == i,
            forall|j: int| 0 <= j < i ==> (#[trigger] sizes@[j]) as nat == bit_length(moduli@[j]),
            sum == total_bits(moduli@.subrange(0, i as int)),
            sum <= 62 * i,
        decreases k - i,
    {
        let m = moduli[i];
        proof {
            crate::nfl::lemma_leading_zeros_bounds(m);
            lemma2_to64_rest();
            assert(2 <= moduli@[i as int] < 0x4000_0000_0000_0000);
            if u64_leading_zeros(m) < 2 {
                vstd::arithmetic::power2::lemma_pow2_strictly_increases(
                    61,
                    (63 - u64_leading_zeros(m)) as nat,
                );
                lemma_pow2_unfold(62);
            }
            assert(moduli@.subrange(0, i + 1).drop_last() =~= moduli@.subrange(0, i as int));
        }
        let size: usize = 64 - (m.leading_zeros() as usize);
        sizes.push(size);
        sum = sum + size;
        i += 1;
    }
    proof {
        assert(moduli@.subrange(0, k as int) =~= moduli@);
    }
    (sizes, sum)
}

/// A product of numbers that are at least 1 is at least its first factor.
pub proof fn lemma_product_at_least_first(s: Seq<u64>)
    requires
        s.len() > 0,
        forall|i: int| 0 <= i < s.len() ==> #[trigger] s[i] >= 1,
    ensures
        product_of(s) >= s[0],
    decreases s.len(),
{
    if s.len() == 1 {
        assert(s.drop_last().len() == 0);
        assert(product_of(s.drop_last()) == 1);
        assert(product_of(s) == 1 * (s.last() as nat));
    } else {
        lemma_product_at_least_first(s.drop_last());
        assert(product_of(s.drop_last()) * (s.last() as nat) >= product_of(s.drop_last()))
            by (nonlinear_arith)
            requires
                s.last() >= 1,
        ;
    }
}

/// The constant polynomial `value` of the context, in the transform domain
/// with Shoup constants.
pub fn constant_poly(value: BigNat, ctx: &Arc<Context>) -> (r: Poly)
    requires
        ctx.wf(),
    ensures
        r.wf(),
        r.ctx() == **ctx,
        r.representation() == Representation::NttShoup,
        r.rows() == converted(
            **ctx,
            Representation::PowerBasis,
            Representation::NttShoup,
            power_rows(seq![value@ as int], ctx.moduli(), ctx.degree()),
        ),
{
    let mut coefficients: Vec<BigNat> = Vec::with_capacity(1);
    let ghost v = value@;
    coefficients.push(value);
    proof {
        assert(Seq::new(coefficients@.len(), |j: int| coefficients@[j]@ as int) =~= seq![v as int]);
    }
    let mut r = Poly::from_coefficients_big(coefficients.as_slice(), ctx).unwrap();
    r.change_representation(Representation::NttShoup);
    r
}

impl BfvParameters {
    /// The parameters that the degree, the plaintext modulus, the variance
    /// and the ciphertext moduli determine.
    pub fn assemble(degree: usize, t: u64, variance: usize, moduli: Vec<u64>) -> (r: Result<
        BfvParameters,
        String,
    >)
        requires
            1 <= variance <= 16,
        ensures
            r.is_ok() <==> assemble_error(degree as nat, t, moduli@).is_none(),
            r matches Err(e) ==> assemble_error(degree as nat, t, moduli@) == Some(e@),
            r matches Ok(p) ==> {
                &&& p.wf()
                &&& p.spec_degree() == degree
                &&& p.spec_plaintext() == t
                &&& p.spec_variance() == variance
                &&& p.spec_moduli() == moduli@
            },
    {
        let plaintext = match Modulus::new(t) {
            Ok(m) => m,
            Err(e) => {
                return Err(e.to_string());
            },
        };
        if !is_power_of_two(degree) || degree < 8 {
            return Err("The degree is not a power of two larger or equal to 8".to_string());
        }
        if degree >= 0x4000_0000 {
            return Err("The degree is too large".to_string());
        }
        let k = moduli.len();
        if k >= 0x100_0000 {
            return Err("Too many ciphertext moduli".to_string());
        }
        let op = match NttOperator::new(&plaintext, degree) {
            Some(o) => Some(Arc::new(o)),
            None => None,
        };
        let ctx = match Context::new(moduli.as_slice(), degree) {
            Ok(c) => Arc::new(c),
            Err(e) => {
                return Err(e.to_string());
            },
        };
        let first = subvector(&moduli, 0, 1);
        let plaintext_ctx = match Context::new(first.as_slice(), degree) {
            Ok(c) => Arc::new(c),
            Err(e) => {
                return Err(e.to_string());
            },
        };
        let ghost m = moduli@;
        let ghost n = degree as nat;
        let big_q = ctx.rns_context().modulus().copy();
        let big_t = BigNat::from_u64(t);
        let q0 = BigNat::from_u64(moduli[0]);
        let one = BigNat::from_u64(1);
        let two = BigNat::from_u64(2);
        proof {
            assert(big_q@ == product_of(m));
            assert(2 <= m[0]);
            lemma_product_at_least_first(m);
            vstd::arithmetic::div_mod::lemma_div_non_zero(big_q@ as int, m[0] as int);
        }
        // the scalers of the decryption and of the minimization
        let scaler = Scaler::new(&ctx, &plaintext_ctx, ScalingFactor::new(&big_t, &big_q)).unwrap();
        let scaler_minimized = Scaler::new(
            &plaintext_ctx,
            &plaintext_ctx,
            ScalingFactor::new(&big_t, &q0),
        ).unwrap();
        let (q_over_q0, _) = big_q.div_rem(&q0).unwrap();
        let modswitch = Scaler::new(
            &ctx,
            &plaintext_ctx,
            ScalingFactor::new(&one, &q_over_q0),
        ).unwrap();
        // the polynomials that scale a plaintext
        let (half_t, _) = big_t.div_rem(&two).unwrap();
        let delta = constant_poly(big_q.add(&half_t).div_rem(&big_t).unwrap().0, &ctx);
        let delta_minimized = constant_poly(
            q0.add(&half_t).div_rem(&big_t).unwrap().0,
            &plaintext_ctx,
        );
        let (_, q_rest) = big_q.div_rem(&big_t).unwrap();
        proof {
            vstd::arithmetic::div_mod::lemma_mod_bound(big_q@ as int, t as int);
        }
        let q_mod_t = q_rest.to_u64().unwrap();
        let q_mod_t_minimized = moduli[0] % t;
        // the primes that the multiplications extend the moduli with
        let mut wanted: Vec<usize> = Vec::with_capacity(k + 1);
        let mut i: usize = 0;
        while i < k + 1
            invariant
                i <= k + 1,
                k < 0x100_0000,
                wanted@.len() == i,
                forall|j: int| 0 <= j < i ==> #[trigger] wanted@[j] == 62,
            decreases k + 1 - i,
        {
            wanted.push(62);
            i += 1;
        }
        proof {
            assert(wanted@ =~= extension_sizes(k as nat));
        }
        let all = match pick_moduli(subvector(&moduli, 0, k), wanted.as_slice(), degree) {
            Ok(all) => all,
            Err(_) => {
                proof {
                    assert(moduli@.subrange(0, k as int) =~= moduli@);
                }
                return Err("Could not generate enough moduli for the multiplication".to_string());
            },
        };
        proof {
            assert(moduli@.subrange(0, k as int) =~= moduli@);
        }
        let (sizes, total) = bit_sizes(&moduli);
        let n1: usize = (total + 121) / 62;
        let mul_1_moduli = subvector(&all, 0, k + n1);
        let mul_1_ctx = match Context::new(mul_1_moduli.as_slice(), degree) {
            Ok(c) => Arc::new(c),
            Err(e) => {
                return Err(e.to_string());
            },
        };
        let mul_2_moduli = subvector(&all, 0, 2 * k);
        let mul_2_ctx = match Context::new(mul_2_moduli.as_slice(), degree) {
            Ok(c) => Arc::new(c),
            Err(e) => {
                return Err(e.to_string());
            },
        };
        let extension = subvector(&all, k, 2 * k);
        let big_p = match RnsContext::new(extension.as_slice()) {
            Ok(rns) => rns.modulus().copy(),
            Err(e) => {
                return Err(e.to_string());
            },
        };
        let mul_1_params = MultiplicationParameters::new(
            &ctx,
            &mul_1_ctx,
            ScalingFactor::one(),
            ScalingFactor::one(),
            ScalingFactor::new(&big_t, &big_q),
        ).unwrap();
        let mul_2_params = MultiplicationParameters::new(
            &ctx,
            &mul_2_ctx,
            ScalingFactor::one(),
            ScalingFactor::new(&big_p, &big_q),
            ScalingFactor::new(&big_t, &big_p),
        ).unwrap();
        let matrix_reps_index_map = index_map(degree);
        Ok(
            BfvParameters {
                polynomial_degree: degree,
                plaintext_modulus: t,
                ciphertext_moduli: moduli,
                ciphertext_moduli_sizes: sizes,
                variance,
                ctx,
                op,
                delta,
                delta_minimized,
                q_mod_t,
                q_mod_t_minimized,
                scaler,
                scaler_minimized,
                plaintext,
                plaintext_ctx,
                mul_1_params,
                mul_2_params,
                matrix_reps_index_map,
                modswitch,
            },
        )
    }
}

/// A copy of the numbers of `v`.
fn copy_sizes(v: &[usize]) -> (r: Vec<usize>)
    ensures
        r@ == v@,
{
    let mut r: Vec<usize> = Vec::with_capacity(v.len());
    let mut i: usize = 0;
    while i < v.len()
        invariant
            i <= v@.len(),
            r@ == v@.subrange(0, i as int),
        decreases v@.len() - i,
    {
        r.push(v[i]);
        proof {
            assert(r@ =~= v@.subrange(0, i + 1));
        }
        i += 1;
    }
    proof {
        assert(v@.subrange(0, v@.len() as int) =~= v@);
    }
    r
}

/// A copy of the numbers of `v`.
fn copy_moduli(v: &[u64]) -> (r: Vec<u64>)
    ensures
        r@ == v@,
{
    let mut r: Vec<u64> = Vec::with_capacity(v.len());
    let mut i: usize = 0;
    while i < v.len()
        invariant
            i <= v@.len(),
            r@ == v@.subrange(0, i as int),
        decreases v@.len() - i,
    {
        r.push(v[i]);
        proof {
            assert(r@ =~= v@.subrange(0, i + 1));
        }
        i += 1;
    }
    proof {
        assert(v@.subrange(0, v@.len() as int) =~= v@);
    }
    r
}

/// Builder for parameters for the BFV encryption scheme.
#[derive(Debug)]
pub struct BfvParametersBuilder {
    degree: usize,
    plaintext: u64,
    variance: usize,
    ciphertext_moduli: Vec<u64>,
    ciphertext_moduli_sizes: Vec<usize>,
}

/// The description of the reason for which the sizes give no moduli.
pub open spec fn generation_error_text(bad_size: bool) -> Seq<char> {
    if bad_size {
        "The moduli sizes must be between 10 and 62 bits."@
    } else {
        "Could not generate enough ciphertext moduli to match the sizes provided"@
    }
}

impl BfvParametersBuilder {
    /// The degree that was set, 0 where none was.
    pub closed spec fn degree(&self) -> usize {
        self.degree
    }

    /// The plaintext modulus that was set, 0 where none was.
    pub closed spec fn plaintext(&self) -> u64 {
        self.plaintext
    }

    /// The variance that was set, 1 where none was.
    pub closed spec fn variance(&self) -> usize {
        self.variance
    }

    /// The ciphertext moduli that were set.
    pub closed spec fn moduli(&self) -> Seq<u64> {
        self.ciphertext_moduli@
    }

    /// The sizes of the ciphertext moduli that were set.
    pub closed spec fn sizes(&self) -> Seq<usize> {
        self.ciphertext_moduli_sizes@
    }

    /// Well-formedness: the variance is between 1 and 16.
    pub open spec fn wf(&self) -> bool {
        1 <= self.variance() <= 16
    }

    /// The description of the reason for which the builder gives no
    /// parameters; `None` where it gives some.
    pub open spec fn build_error(&self) -> Option<Seq<char>> {
        if self.degree() == 0 {
            Some("Unspecified degree"@)
        } else if self.plaintext() == 0 {
            Some("Unspecified plaintext modulus"@)
        } else if self.moduli().len() == 0 && self.sizes().len() == 0 {
            Some("Unspecified ciphertext moduli"@)
        } else if self.sizes().len() > 0 {
            if self.degree() >= 0x4000_0000 {
                Some("The degree is too large"@)
            } else {
                match pick_all(Seq::empty(), self.sizes(), self.degree() as nat) {
                    Err(bad_size) => Some(generation_error_text(bad_size)),
                    Ok(m) => assemble_error(self.degree() as nat, self.plaintext(), m),
                }
            }
        } else {
            assemble_error(self.degree() as nat, self.plaintext(), self.moduli())
        }
    }

    /// The ciphertext moduli that the builder stands for, where it gives
    /// parameters.
    pub open spec fn selected_moduli(&self) -> Seq<u64> {
        if self.sizes().len() > 0 {
            pick_all(Seq::empty(), self.sizes(), self.degree() as nat)->Ok_0
        } else {
            self.moduli()
        }
    }

    /// Creates a new instance of the builder.
    pub fn new() -> (r: BfvParametersBuilder)
        ensures
            r.wf(),
            r.degree() == 0,
            r.plaintext() == 0,
            r.variance() == 1,
            r.moduli().len() == 0,
            r.sizes().len() == 0,
    {
        BfvParametersBuilder {
            degree: 0,
            plaintext: 0,
            variance: 1,
            ciphertext_moduli: Vec::new(),
            ciphertext_moduli_sizes: Vec::new(),
        }
    }

    /// Sets the polynomial degree. Returns an error if the degree is not a
    /// power of two larger or equal to 8.
    pub fn set_degree(&mut self, degree: usize) -> (r: Result<&mut BfvParametersBuilder, String>)
        ensures
            r.is_ok() <==> (degree >= 8 && is_pow2(degree as int)),
            match r {
                Ok(b) => {
                    &&& *final(b) == *final(self)
                    &&& b.degree() == degree
                    &&& b.plaintext() == old(self).plaintext()
                    &&& b.variance() == old(self).variance()
                    &&& b.moduli() == old(self).moduli()
                    &&& b.sizes() == old(self).sizes()
                },
                Err(e) => *final(self) == *old(self) && e@
                    == "The degree should be a power of two larger or equal to 8"@,
            },
    {
        if degree < 8 || !is_power_of_two(degree) {
            Err("The degree should be a power of two larger or equal to 8".to_string())
        } else {
            self.degree = degree;
            Ok(self)
        }
    }

    /// Sets the plaintext modulus. Returns an error if the plaintext modulus
    /// is not between 2 and 2^62 - 1.
    pub fn set_plaintext_modulus(&mut self, plaintext: u64) -> (r: Result<
        &mut BfvParametersBuilder,
        String,
    >)
        ensures
            r.is_ok() <==> 2 <= plaintext < 0x4000_0000_0000_0000,
            match r {
                Ok(b) => {
                    &&& *final(b) == *final(self)
                    &&& b.degree() == old(self).degree()
                    &&& b.plaintext() == plaintext
                    &&& b.variance() == old(self).variance()
                    &&& b.moduli() == old(self).moduli()
                    &&& b.sizes() == old(self).sizes()
                },
                Err(e) => *final(self) == *old(self) && e@ == invalid_modulus_text(),
            },
    {
        match Modulus::new(plaintext) {
            Err(e) => Err(e.to_string()),
            Ok(_) => {
                self.plaintext = plaintext;
                Ok(self)
            },
        }
    }

    /// Sets the sizes of the ciphertext moduli. Returns an error if the
    /// ciphertext moduli were set.
    pub fn set_ciphertext_moduli_sizes(&mut self, sizes: &[usize]) -> (r: Result<
        &mut BfvParametersBuilder,
        String,
    >)
        ensures
            r.is_ok() <==> old(self).moduli().len() == 0,
            match r {
                Ok(b) => {
                    &&& *final(b) == *final(self)
                    &&& b.degree() == old(self).degree()
                    &&& b.plaintext() == old(self).plaintext()
                    &&& b.variance() == old(self).variance()
                    &&& b.moduli() == old(self).moduli()
                    &&& b.sizes() == sizes@
                },
                Err(e) => *final(self) == *old(self) && e@
                    == "The set of ciphertext moduli is already specified"@,
            },
    {
        if self.ciphertext_moduli.len() != 0 {
            Err("The set of ciphertext moduli is already specified".to_string())
        } else {
            self.ciphertext_moduli_sizes = copy_sizes(sizes);
            Ok(self)
        }
    }

    /// Sets the ciphertext moduli. Returns an error if the sizes of the
    /// ciphertext moduli were set.
    pub fn set_ciphertext_moduli(&mut self, moduli: &[u64]) -> (r: Result<
        &mut BfvParametersBuilder,
        String,
    >)
        ensures
            r.is_ok() <==> old(self).sizes().len() == 0,
            match r {
                Ok(b) => {
                    &&& *final(b) == *final(self)
                    &&& b.degree() == old(self).degree()
                    &&& b.plaintext() == old(self).plaintext()
                    &&& b.variance() == old(self).variance()
                    &&& b.moduli() == moduli@
                    &&& b.sizes() == old(self).sizes()
                },
                Err(e) => *final(self) == *old(self) && e@
                    == "The set of ciphertext moduli sizes is already specified"@,
            },
    {
        if self.ciphertext_moduli_sizes.len() != 0 {
            Err("The set of ciphertext moduli sizes is already specified".to_string())
        } else {
            self.ciphertext_moduli = copy_moduli(moduli);
            Ok(self)
        }
    }

    /// Sets the error variance. Returns an error if the variance is not
    /// between one and sixteen.
    pub fn set_variance(&mut self, variance: usize) -> (r: Result<&mut BfvParametersBuilder, String>)
        ensures
            r.is_ok() <==> 1 <= variance <= 16,
            match r {
                Ok(b) => {
                    &&& *final(b) == *final(self)
                    &&& b.degree() == old(self).degree()
                    &&& b.plaintext() == old(self).plaintext()
                    &&& b.variance() == variance
                    &&& b.moduli() == old(self).moduli()
                    &&& b.sizes() == old(self).sizes()
                },
                Err(e) => *final(self) == *old(self) && e@ == "The variance must be in 1..=16"@,
            },
    {
        if variance < 1 || variance > 16 {
            Err("The variance must be in 1..=16".to_string())
        } else {
            self.variance = variance;
            Ok(self)
        }
    }

    /// Generates ciphertext moduli with the specified sizes: for each size
    /// in turn, the largest prime of that size that is congruent to 1 modulo
    /// twice the degree and was not picked before.
    pub fn generate_moduli(moduli_sizes: &[usize], degree: usize) -> (r: Result<Vec<u64>, String>)
        requires
            0 < degree < 0x4000_0000_0000_0000,
        ensures
            match pick_all(Seq::empty(), moduli_sizes@, degree as nat) {
                Ok(v) => r matches Ok(x) && x@ == v,
                Err(bad_size) => r matches Err(e) && e@ == generation_error_text(bad_size),
            },
    {
        match pick_moduli(Vec::new(), moduli_sizes, degree) {
            Ok(moduli) => Ok(moduli),
            Err(bad_size) => {
                if bad_size {
                    Err("The moduli sizes must be between 10 and 62 bits.".to_string())
                } else {
                    Err(
                        "Could not generate enough ciphertext moduli to match the sizes provided".to_string(),
                    )
                }
            },
        }
    }

    /// Builds the parameters.
    pub fn build(&self) -> (r: Result<BfvParameters, String>)
        requires
            self.wf(),
        ensures
            r.is_ok() <==> self.build_error().is_none(),
            r matches Err(e) ==> self.build_error() == Some(e@),
            r matches Ok(p) ==> {
                &&& p.wf()
                &&& p.spec_degree() == self.degree()
                &&& p.spec_plaintext() == self.plaintext()
                &&& p.spec_variance() == self.variance()
                &&& p.spec_moduli() == self.selected_moduli()
                &&& p.spec_degree() < 16 ==> p.reference_only()
            },
    {
        if self.degree == 0 {
            return Err("Unspecified degree".to_string());
        } else if self.plaintext == 0 {
            return Err("Unspecified plaintext modulus".to_string());
        } else if self.ciphertext_moduli.len() == 0 && self.ciphertext_moduli_sizes.len() == 0 {
            return Err("Unspecified ciphertext moduli".to_string());
        }
        let moduli = if self.ciphertext_moduli_sizes.len() != 0 {
            if self.degree >= 0x4000_0000 {
                return Err("The degree is too large".to_string());
            }
            match BfvParametersBuilder::generate_moduli(
                self.ciphertext_moduli_sizes.as_slice(),
                self.degree,
            ) {
                Ok(m) => m,
                Err(e) => {
                    return Err(e);
                },
            }
        } else {
            copy_moduli(self.ciphertext_moduli.as_slice())
        };
        let r = BfvParameters::assemble(self.degree, self.plaintext, self.variance, moduli);
        proof {
            if r.is_ok() && r->Ok_0.spec_degree() < 16 {
                crate::defaults::lemma_tables_of_small_degrees(r->Ok_0);
            }
        }
        r
    }
}

impl BfvParameters {
    /// Returns the underlying polynomial degree.
    pub fn degree(&self) -> (r: usize)
        ensures
            r == self.spec_degree(),
    {
        self.polynomial_degree
    }

    /// Returns a reference to the ciphertext moduli.
    pub fn moduli(&self) -> (r: &[u64])
        ensures
            r@ == self.spec_moduli(),
    {
        self.ciphertext_moduli.as_slice()
    }

    /// Returns a reference to the sizes of the ciphertext moduli.
    pub fn moduli_sizes(&self) -> (r: &[usize])
        ensures
            r@ == self.spec_moduli_sizes(),
    {
        self.ciphertext_moduli_sizes.as_slice()
    }

    /// The plaintext modulus.
    pub fn plaintext_modulus(&self) -> (r: u64)
        ensures
            r == self.spec_plaintext(),
    {
        self.plaintext_modulus
    }

    /// The variance of the error distribution.
    pub fn variance(&self) -> (r: usize)
        ensures
            r == self.spec_variance(),
    {
        self.variance
    }

    /// The transform modulo the plaintext modulus, where there is one.
    pub fn ntt_operator(&self) -> (r: Option<&Arc<NttOperator>>)
        ensures
            r.is_some() == self.op().is_some(),
            r matches Some(o) ==> Some(**o) == self.op(),
    {
        self.op.as_ref()
    }

    /// The parameters of degree 8 and plaintext modulus 1153 with
    /// `num_moduli` ciphertext moduli of 62 bits.
    pub fn default(num_moduli: usize) -> (r: Result<BfvParameters, String>)
        ensures
            r.is_ok() <==> default_error(num_moduli as nat).is_none(),
            r matches Err(e) ==> default_error(num_moduli as nat) == Some(e@),
            r matches Ok(p) ==> {
                &&& p.wf()
                &&& p.spec_degree() == 8
                &&& p.spec_plaintext() == 1153
                &&& p.spec_variance() == 1
                &&& p.spec_moduli().len() == num_moduli
                &&& p.spec_moduli() == default_moduli(num_moduli as nat)
                &&& p.reference_only()
            },
    {
        let mut sizes: Vec<usize> = Vec::new();
        let mut i: usize = 0;
        while i < num_moduli
            invariant
                i <= num_moduli,
                sizes@.len() == i,
                forall|j: int| 0 <= j < i ==> #[trigger] sizes@[j] == 62,
            decreases num_moduli - i,
        {
            sizes.push(62);
            i += 1;
        }
        proof {
            assert(sizes@ =~= Seq::new(num_moduli as nat, |i: int| 62usize));
            vstd::arithmetic::power2::lemma2_to64();
            reveal(is_pow2);
            assert(is_pow2(8)) by {
                assert(is_pow2(1));
                assert(is_pow2(2));
                assert(is_pow2(4));
            }
        }
        let mut builder = BfvParametersBuilder::new();
        let b = builder.set_degree(8)?;
        let b = b.set_plaintext_modulus(1153)?;
        let b = b.set_ciphertext_moduli_sizes(sizes.as_slice())?;
        let r = b.build();
        proof {
            if r.is_ok() {
                if num_moduli > 0 {
                    lemma_pick_all_len(Seq::empty(), sizes@, 8);
                } else {
                    assert(b.build_error() == Some("Unspecified ciphertext moduli"@));
                }
            }
        }
        r
    }
}

/// The ciphertext moduli of the default parameters with `count` moduli:
/// the `count` largest primes of 62 bits that are congruent to 1 modulo 16,
/// the largest first.
pub open spec fn default_moduli(count: nat) -> Seq<u64> {
    pick_all(Seq::empty(), Seq::new(count, |i: int| 62usize), 8)->Ok_0
}

/// The description of the reason for which there are no parameters of
/// degree 8 and plaintext modulus 1153 with `count` ciphertext moduli of 62
/// bits; `None` where there are some.
pub open spec fn default_error(count: nat) -> Option<Seq<char>> {
    if count == 0 {
        Some("Unspecified ciphertext moduli"@)
    } else {
        match pick_all(Seq::empty(), Seq::new(count, |i: int| 62usize), 8) {
            Err(bad_size) => Some(generation_error_text(bad_size)),
            Ok(m) => assemble_error(8, 1153, m),
        }
    }
}

/// Picking one modulus per size makes the list longer by the number of
/// sizes.
pub proof fn lemma_pick_all_len(chosen: Seq<u64>, sizes: Seq<usize>, degree: nat)
    ensures
        pick_all(chosen, sizes, degree) matches Ok(v) ==> v.len() == chosen.len() + sizes.len(),
    decreases sizes.len(),
{
    if sizes.len() > 0 && 10 <= sizes[0] <= 62 {
        match next_modulus(chosen, sizes[0] as nat, degree) {
            None => {},
            Some(m) => {
                lemma_pick_all_len(chosen.push(m), sizes.drop_first(), degree);
            },
        }
    }
}

impl BfvParameters {
    /// Whether two sets of parameters have the same degree, plaintext
    /// modulus, ciphertext moduli and variance.
    pub open spec fn same(&self, other: &BfvParameters) -> bool {
        &&& self.spec_degree() == other.spec_degree()
        &&& self.spec_plaintext() == other.spec_plaintext()
        &&& self.spec_variance() == other.spec_variance()
        &&& self.spec_moduli() == other.spec_moduli()
    }

    /// Whether two sets of parameters have the same degree, plaintext
    /// modulus, ciphertext moduli and variance.
    pub fn equals(&self, other: &BfvParameters) -> (r: bool)
        ensures
            r == self.same(other),
    {
        if self.polynomial_degree != other.polynomial_degree || self.plaintext_modulus
            != other.plaintext_modulus || self.variance != other.variance
            || self.ciphertext_moduli.len() != other.ciphertext_moduli.len() {
            return false;
        }
        let k = self.ciphertext_moduli.len();
        let mut i: usize = 0;
        while i < k
            invariant
                i <= k,
                k == self.ciphertext_moduli@.len(),
                k == other.ciphertext_moduli@.len(),
                forall|j: int| 0 <= j < i ==> self.ciphertext_moduli@[j] == other.ciphertext_moduli@[j],
            decreases k - i,
        {
            if self.ciphertext_moduli[i] != other.ciphertext_moduli[i] {
                return false;
            }
            i += 1;
        }
        assert(self.ciphertext_moduli@ =~= other.ciphertext_moduli@);
        true
    }

    /// The context of the ciphertexts.
    pub fn context(&self) -> (r: &Arc<Context>)
        ensures
            **r == self.ctx(),
    {
        &self.ctx
    }

    /// The context of the minimized ciphertexts.
    pub fn plaintext_context(&self) -> (r: &Arc<Context>)
        ensures
            **r == self.plaintext_ctx(),
    {
        &self.plaintext_ctx
    }

    /// The plaintext modulus, with its constants.
    pub fn plaintext_ring(&self) -> (r: &Modulus)
        ensures
            *r == self.plaintext(),
    {
        &self.plaintext
    }

    /// The polynomial that scales a plaintext into the ciphertext modulus.
    pub fn scaling_poly(&self) -> (r: &Poly)
        ensures
            *r == self.delta(),
    {
        &self.delta
    }

    /// The polynomial that scales a plaintext into the first modulus.
    pub fn scaling_poly_minimized(&self) -> (r: &Poly)
        ensures
            *r == self.delta_minimized(),
    {
        &self.delta_minimized
    }

    /// The product of the ciphertext moduli, modulo the plaintext modulus.
    pub fn modulus_rest(&self) -> (r: u64)
        ensures
            r == self.q_mod_t(),
    {
        self.q_mod_t
    }

    /// The first ciphertext modulus, modulo the plaintext modulus.
    pub fn modulus_rest_minimized(&self) -> (r: u64)
        ensures
            r == self.q_mod_t_minimized(),
    {
        self.q_mod_t_minimized
    }

    /// The scaler of the decryption.
    pub fn decryption_scaler(&self) -> (r: &Scaler)
        ensures
            *r == self.scaler(),
    {
        &self.scaler
    }

    /// The scaler of the decryption of a minimized ciphertext.
    pub fn decryption_scaler_minimized(&self) -> (r: &Scaler)
        ensures
            *r == self.scaler_minimized(),
    {
        &self.scaler_minimized
    }

    /// The scaler that minimizes a ciphertext.
    pub fn minimization_scaler(&self) -> (r: &Scaler)
        ensures
            *r == self.modswitch(),
    {
        &self.modswitch
    }

    /// The parameters of the multiplication with a wide extension.
    pub fn multiplication_1(&self) -> (r: &MultiplicationParameters)
        ensures
            *r == self.mul_1_params(),
    {
        &self.mul_1_params
    }

    /// The parameters of the multiplication with a balanced extension.
    pub fn multiplication_2(&self) -> (r: &MultiplicationParameters)
        ensures
            *r == self.mul_2_params(),
    {
        &self.mul_2_params
    }

    /// The batching table.
    pub fn batching_table(&self) -> (r: &Vec<usize>)
        ensures
            r@ == self.index_map(),
    {
        &self.matrix_reps_index_map
    }
}

} // verus!
