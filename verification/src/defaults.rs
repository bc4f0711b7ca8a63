//! The default parameters: why their contexts use the reference tables of
//! the transform, and why their moduli leave room for the errors, so that
//! what holds of decryption holds of them without further conditions.
use crate::balanced::{
    balanced_bound, balanced_rounding, extension_modulus, has_room_balanced,
    lemma_balanced_round_trip, lemma_pick_all_prefix,
};
use crate::ciphertext::{is_product, Ciphertext};
use crate::correctness::{
    combined_values, combines, fresh_rows, has_room, lemma_combination_round_trip,
    lemma_fresh_carries, lemma_negation_round_trip, lemma_round_trip, lemma_small_sample,
    negated_values, negates, uses_reference_tables,
};
use crate::encoding::{Encoding, EncodingEnum};
use crate::evaluation_key::{squared_rows, EvaluationKey};
use crate::minimization::{has_room_minimized, lemma_minimized_round_trip, minimizes};
use crate::multiplication::{
    half_up, has_room_above, has_room_product, is_tensor, lemma_product_round_trip,
    lemma_tensor_decryption, product_bound, switching_bound, tensor_bound,
};
use crate::nfl::is_candidate;
use crate::ntt::{negacyclic_product, pointwise_product};
use crate::parameters::{
    bit_length, default_error, default_moduli, extension_count, extension_sizes, is_next_modulus,
    next_modulus, pick_all, total_bits, BfvParameters,
};
use crate::plaintext::Plaintext;
use crate::products::{
    lemma_batched_product_round_trip, lemma_plaintext_product_round_trip, multiplies,
};
use crate::random::{chacha8_words, Seed};
use crate::rns::{lemma_product_concat, product_of};
use crate::rq::{
    lemma_small_degrees, rows_in, small_coefficients, small_rows, Operation, Representation,
};
use crate::secret_key::SecretKey;
use crate::switching::{lemma_switching_noise, noise_numbers, switching_noise};
use vstd::arithmetic::div_mod::*;
use vstd::arithmetic::power2::{lemma2_to64, lemma2_to64_rest, lemma_pow2_strictly_increases, pow2};
use vstd::prelude::*;

verus! {

/// Parameters of a degree below 16 use the reference tables of the
/// transform in every context, and for the plaintext modulus.
pub proof fn lemma_tables_of_small_degrees(par: BfvParameters)
    requires
        par.wf(),
        par.spec_degree() < 16,
    ensures
        uses_reference_tables(par.ctx()),
        uses_reference_tables(par.plaintext_ctx()),
        uses_reference_tables(par.mul_1_params().to()),
        uses_reference_tables(par.mul_2_params().to()),
        par.op() matches Some(o) ==> !o.accelerated(),
{
    let n = par.spec_degree();
    lemma_small_degrees(par.ctx());
    lemma_small_degrees(par.plaintext_ctx());
    let first = par.mul_1_params();
    let second = par.mul_2_params();
    assert(first.wf() && second.wf());
    assert(first.to().wf() && first.to().degree() == n);
    assert(second.to().wf() && second.to().degree() == n);
    lemma_small_degrees(first.to());
    lemma_small_degrees(second.to());
    if par.op().is_some() {
        par.op()->Some_0.lemma_small_sizes();
    }
}

/// Each modulus that is picked for a size has that many bits: it is at
/// least `2^(size - 1)`.
pub proof fn lemma_picked_are_large(chosen: Seq<u64>, sizes: Seq<usize>, degree: nat, i: int)
    requires
        pick_all(chosen, sizes, degree).is_ok(),
        0 <= i < sizes.len(),
    ensures
        pick_all(chosen, sizes, degree)->Ok_0.len() == chosen.len() + sizes.len(),
        pick_all(chosen, sizes, degree)->Ok_0[chosen.len() + i] >= pow2((sizes[i] - 1) as nat),
        pick_all(chosen, sizes, degree)->Ok_0[chosen.len() + i] < pow2(sizes[i] as nat),
    decreases sizes.len(),
{
    let all = pick_all(chosen, sizes, degree)->Ok_0;
    let size = sizes[0] as nat;
    let next = next_modulus(chosen, size, degree)->Some_0;
    let more = chosen.push(next);
    lemma_pick_all_prefix(chosen, sizes, degree);
    lemma_pick_all_prefix(more, sizes.drop_first(), degree);
    if i == 0 {
        assert(all.subrange(0, more.len() as int)[chosen.len() as int] == more[chosen.len() as int]);
        assert(is_next_modulus(next, chosen, size, degree));
        assert(is_candidate(next as nat, size, 2 * degree, pow2(size)));
    } else {
        lemma_picked_are_large(more, sizes.drop_first(), degree, i - 1);
        assert(sizes.drop_first()[i - 1] == sizes[i]);
    }
}

/// Whether the parameters are default parameters: degree 8, plaintext
/// modulus 1153, variance 1, and the largest primes of 62 bits as
/// ciphertext moduli.
pub open spec fn is_default(par: BfvParameters) -> bool {
    &&& par.wf()
    &&& par.spec_degree() == 8
    &&& par.spec_plaintext() == 1153
    &&& par.spec_variance() == 1
    &&& default_error(par.spec_moduli().len()).is_none()
    &&& par.spec_moduli() == default_moduli(par.spec_moduli().len())
}

/// The first modulus of default parameters, and with it the product of
/// all of them, is at least `2^61`.
pub proof fn lemma_default_moduli(par: BfvParameters)
    requires
        is_default(par),
    ensures
        par.spec_moduli().len() >= 1,
        forall|i: int|
            0 <= i < par.spec_moduli().len() ==> 0x2000_0000_0000_0000
                <= (#[trigger] par.spec_moduli()[i]) < 0x4000_0000_0000_0000,
        par.big_q() >= 0x2000_0000_0000_0000,
        par.big_q() % (par.spec_moduli()[0] as nat) == 0,
{
    let m = par.spec_moduli();
    let count = m.len();
    let sizes = Seq::new(count, |i: int| 62usize);
    assert(par.ctx().wf() && par.ctx().moduli() == m);
    assert(count >= 1);
    lemma2_to64();
    lemma2_to64_rest();
    assert(pick_all(Seq::empty(), sizes, 8).is_ok());
    assert forall|i: int| 0 <= i < count implies 0x2000_0000_0000_0000 <= (#[trigger] m[i])
        < 0x4000_0000_0000_0000 by {
        lemma_picked_are_large(Seq::empty(), sizes, 8, i);
    }
    assert forall|l: int| 0 <= l < m.len() implies #[trigger] m[l] >= 1 by {}
    crate::rns::lemma_factor_divides(m, 0);
    crate::rns::lemma_product_positive(m);
    let q = par.big_q() as int;
    let first = m[0] as int;
    lemma_fundamental_div_mod(q, first);
    assert(q >= first) by (nonlinear_arith)
        requires
            q == first * (q / first),
            q >= 1,
            first >= 1,
    ;
}

/// The moduli of default parameters leave room for errors within `b` of
/// zero, for every `b` up to `2^40`.
pub proof fn lemma_default_room(sk: &SecretKey, b: int)
    requires
        sk.wf(),
        is_default(sk.par()),
        0 <= b <= 0x100_0000_0000,
    ensures
        has_room(sk, b),
{
    lemma_default_moduli(sk.par());
    let t = sk.par().spec_plaintext() as int;
    assert(4 * t * (t + b) <= 0x2000_0000_0000_0000) by (nonlinear_arith)
        requires
            t == 1153,
            0 <= b <= 0x100_0000_0000,
    ;
}

/// The moduli of default parameters leave room for the rounding of a
/// minimization, for errors and a key within `b` and `kb` of zero, for
/// every `b` and `kb` up to `2^40`.
pub proof fn lemma_default_room_minimized(sk: &SecretKey, b: int, kb: int)
    requires
        sk.wf(),
        is_default(sk.par()),
        0 <= b <= 0x100_0000_0000,
        0 <= kb <= 0x100_0000_0000,
    ensures
        has_room_minimized(sk, b, kb),
{
    let par = sk.par();
    lemma_default_moduli(par);
    let q = par.big_q() as int;
    let first = par.spec_moduli()[0] as int;
    let rest = q / first;
    lemma_fundamental_div_mod(q, first);
    assert(rest >= 1) by (nonlinear_arith)
        requires
            q == first * rest,
            q >= 1,
            first >= 1,
    ;
    let t = par.spec_plaintext() as int;
    let n = par.spec_degree() as int;
    let fixed = 4 * t * (t + b);
    let each = 2 * t * (1 + n * kb);
    assert(0 <= fixed && 0 <= each && fixed + each <= 0x2000_0000_0000_0000)
        by (nonlinear_arith)
        requires
            t == 1153,
            n == 8,
            fixed == 4 * t * (t + b),
            each == 2 * t * (1 + n * kb),
            0 <= b <= 0x100_0000_0000,
            0 <= kb <= 0x100_0000_0000,
    ;
    assert(first * rest >= fixed + each * rest) by (nonlinear_arith)
        requires
            first >= fixed + each,
            rest >= 1,
            fixed >= 0,
            each >= 0,
    ;
    assert(2 * t * rest * (1 + n * kb) == each * rest) by (nonlinear_arith)
        requires
            each == 2 * t * (1 + n * kb),
    ;
}

/// With default parameters, whatever key, mask and error were drawn, the
/// decryption of a ciphertext that was made of a plaintext gives the
/// plaintext back.
pub proof fn lemma_default_round_trip(sk: &SecretKey, pt: &Plaintext, ct: &Ciphertext)
    requires
        sk.wf(),
        pt.wf(),
        is_default(sk.par()),
        pt.par() == sk.par(),
        is_fresh(sk, ct, pt),
    ensures
        sk.decrypted(ct) == pt.values(),
{
    lemma_tables_of_small_degrees(sk.par());
    lemma_default_room(sk, 2);
    lemma_round_trip(sk, pt, ct);
}

/// Whether the ciphertext was made of the plaintext under the key, with
/// some mask and some error.
pub open spec fn is_fresh(sk: &SecretKey, ct: &Ciphertext, pt: &Plaintext) -> bool {
    exists|seed: Seed, error_seed: Seed| sk.is_encryption(ct, pt, seed, error_seed)
}

/// Whether the key was drawn from some seed.
pub open spec fn is_drawn(sk: &SecretKey) -> bool {
    exists|seed: Seed|
        sk.s().rows() == #[trigger] small_rows(
            sk.par().ctx(),
            Representation::NttShoup,
            sk.par().spec_variance(),
            seed@,
        )
}

/// With default parameters, the sum, or the difference, of two fresh
/// ciphertexts decrypts to the sums, or the differences, of the values of
/// the two plaintexts modulo the plaintext modulus.
pub proof fn lemma_default_combination(
    op: Operation,
    sk: &SecretKey,
    pt1: &Plaintext,
    pt2: &Plaintext,
    ct1: &Ciphertext,
    ct2: &Ciphertext,
    ct3: &Ciphertext,
)
    requires
        op != Operation::Mul,
        sk.wf(),
        pt1.wf(),
        pt2.wf(),
        ct3.wf(),
        is_default(sk.par()),
        pt1.par() == sk.par(),
        pt2.par() == sk.par(),
        is_fresh(sk, ct1, pt1),
        is_fresh(sk, ct2, pt2),
        combines(op, ct1, ct2, ct3),
    ensures
        sk.decrypted(ct3) == combined_values(op, pt1.values(), pt2.values(), 1153),
{
    lemma_tables_of_small_degrees(sk.par());
    lemma_default_room(sk, 1157);
    let (seed1, error1) = choose|seed: Seed, error_seed: Seed|
        sk.is_encryption(ct1, pt1, seed, error_seed);
    let (seed2, error2) = choose|seed: Seed, error_seed: Seed|
        sk.is_encryption(ct2, pt2, seed, error_seed);
    lemma_combination_round_trip(op, sk, pt1, pt2, ct1, ct2, ct3, seed1, error1, seed2, error2);
}

/// With default parameters, the opposite of a fresh ciphertext decrypts to
/// the opposites of the values of the plaintext modulo the plaintext
/// modulus.
pub proof fn lemma_default_negation(
    sk: &SecretKey,
    pt: &Plaintext,
    ct1: &Ciphertext,
    ct3: &Ciphertext,
)
    requires
        sk.wf(),
        pt.wf(),
        ct3.wf(),
        is_default(sk.par()),
        pt.par() == sk.par(),
        is_fresh(sk, ct1, pt),
        negates(ct1, ct3),
    ensures
        sk.decrypted(ct3) == negated_values(pt.values(), 1153),
{
    lemma_tables_of_small_degrees(sk.par());
    lemma_default_room(sk, 1155);
    let (seed, error_seed) = choose|seed: Seed, error_seed: Seed|
        sk.is_encryption(ct1, pt, seed, error_seed);
    lemma_negation_round_trip(sk, pt, ct1, ct3, seed, error_seed);
}

/// With default parameters, the product of a fresh ciphertext and a
/// plaintext decrypts to the product of the two plaintexts modulo
/// `x^8 + 1` and the plaintext modulus; decoded as batches, its slots are
/// the products of the slots of the two plaintexts.
pub proof fn lemma_default_plaintext_product(
    sk: &SecretKey,
    encoding: Encoding,
    pt1: &Plaintext,
    pt2: &Plaintext,
    ct1: &Ciphertext,
    ct3: &Ciphertext,
)
    requires
        sk.wf(),
        pt1.wf(),
        pt2.wf(),
        ct3.wf(),
        is_default(sk.par()),
        pt1.par() == sk.par(),
        pt2.par() == sk.par(),
        is_fresh(sk, ct1, pt1),
        multiplies(ct1, pt2, ct3),
        encoding.encoding == EncodingEnum::Simd,
    ensures
        sk.decrypted(ct3) == negacyclic_product(pt1.values(), pt2.values(), 1153),
        sk.par().op().is_some() ==> crate::plaintext::decoded(
            sk.decrypted(ct3),
            encoding,
            sk.par(),
        ) == pointwise_product(
            crate::plaintext::decoded(pt1.values(), encoding, sk.par()),
            crate::plaintext::decoded(pt2.values(), encoding, sk.par()),
            1153,
        ),
{
    lemma_tables_of_small_degrees(sk.par());
    lemma_default_room(sk, 10653720);
    let (seed, error_seed) = choose|seed: Seed, error_seed: Seed|
        sk.is_encryption(ct1, pt1, seed, error_seed);
    lemma_plaintext_product_round_trip(sk, pt1, pt2, ct1, ct3, seed, error_seed);
    if sk.par().op().is_some() {
        lemma_batched_product_round_trip(sk, encoding, pt1, pt2, ct1, ct3, seed, error_seed);
    }
}

/// With default parameters, a fresh ciphertext under a key that was drawn
/// from a seed still decrypts to its plaintext once it is minimized.
pub proof fn lemma_default_minimized(
    sk: &SecretKey,
    pt: &Plaintext,
    ct: &Ciphertext,
    min: &Ciphertext,
)
    requires
        sk.wf(),
        pt.wf(),
        min.wf(),
        is_default(sk.par()),
        pt.par() == sk.par(),
        is_drawn(sk),
        is_fresh(sk, ct, pt),
        minimizes(ct, min),
    ensures
        sk.decrypted(min) == pt.values(),
{
    lemma_tables_of_small_degrees(sk.par());
    lemma_default_room_minimized(sk, 2, 2);
    let key_seed = choose|seed: Seed|
        sk.s().rows() == #[trigger] small_rows(
            sk.par().ctx(),
            Representation::NttShoup,
            sk.par().spec_variance(),
            seed@,
        );
    let (seed, error_seed) = choose|seed: Seed, error_seed: Seed|
        sk.is_encryption(ct, pt, seed, error_seed);
    lemma_minimized_round_trip(sk, pt, ct, min, key_seed, seed, error_seed);
}

/// A modulus of 62 bits has the bit length 62.
pub proof fn lemma_bit_length_62(m: u64)
    requires
        0x2000_0000_0000_0000 <= m < 0x4000_0000_0000_0000,
    ensures
        bit_length(m) == 62,
{
    crate::nfl::lemma_leading_zeros_bounds(m);
    lemma2_to64();
    lemma2_to64_rest();
    let s = vstd::std_specs::bits::u64_leading_zeros(m) as int;
    if s <= 1 {
        if s < 1 {
            lemma_pow2_strictly_increases(62, (63 - s) as nat);
        }
    } else if s >= 3 {
        if s > 3 {
            lemma_pow2_strictly_increases((64 - s) as nat, 61);
        }
    }
}

/// The two default moduli and the moduli that the multiplications extend
/// them with: the product of the two is between `2^122` and `2^124`, the
/// larger context of the wide extension has room for the products of the
/// numbers behind two ciphertexts, and the product of the two is at most
/// four times that of the moduli of the balanced extension.
pub proof fn lemma_default_pair(par: BfvParameters)
    requires
        is_default(par),
        par.spec_moduli().len() == 2,
    ensures
        0x2000_0000_0000_0000 * 0x2000_0000_0000_0000 <= par.big_q(),
        par.big_q() < 0x4000_0000_0000_0000 * 0x4000_0000_0000_0000,
        has_room_above(par),
        par.big_q() <= 4 * extension_modulus(par),
{
    let m = par.spec_moduli();
    let c: int = 0x2000_0000_0000_0000;
    lemma_default_moduli(par);
    lemma2_to64();
    lemma2_to64_rest();
    let sizes = extension_sizes(2);
    let all = pick_all(m, sizes, 8)->Ok_0;
    assert(pick_all(m, sizes, 8).is_ok());
    lemma_pick_all_prefix(m, sizes, 8);
    assert forall|i: int| 0 <= i < 3 implies c <= #[trigger] all[2 + i] < 2 * c by {
        lemma_picked_are_large(m, sizes, 8, i);
    }
    let e0 = all[2] as int;
    let e1 = all[3] as int;
    let e2 = all[4] as int;
    assert(c <= all[2 + 0int] < 2 * c && c <= all[2 + 1int] < 2 * c && c <= all[2 + 2int] < 2 * c);
    let m0 = m[0] as int;
    let m1 = m[1] as int;
    assert(c <= m0 < 2 * c && c <= m1 < 2 * c);
    // the product of the two moduli
    assert(m.drop_last().drop_last().len() == 0);
    assert(product_of(m.drop_last()) == 1 * m0) by {
        assert(m.drop_last().last() == m[0]);
        assert(product_of(m.drop_last().drop_last()) == 1);
    }
    let q = par.big_q() as int;
    assert(q == m0 * m1) by {
        assert(m.last() == m[1]);
        assert(product_of(m) == product_of(m.drop_last()) * (m.last() as nat));
    }
    assert(c * c <= q && q < (2 * c) * (2 * c)) by (nonlinear_arith)
        requires
            q == m0 * m1,
            c <= m0 < 2 * c,
            c <= m1 < 2 * c,
            c >= 1,
    ;
    // the number of moduli of the wide extension
    lemma_bit_length_62(m[0]);
    lemma_bit_length_62(m[1]);
    assert(total_bits(m) == 124) by {
        assert(m.drop_last().last() == m[0]);
        assert(m.last() == m[1]);
        assert(total_bits(m.drop_last().drop_last()) == 0);
        assert(total_bits(m.drop_last()) == total_bits(m.drop_last().drop_last()) + bit_length(
            m.drop_last().last(),
        ));
        assert(total_bits(m) == total_bits(m.drop_last()) + bit_length(m.last()));
    }
    assert(extension_count(m) == 3);
    // the moduli of the wide extension, and their product
    let wide = par.mul_1_params().to();
    assert(par.mul_1_params().wf() && wide.wf());
    assert(wide.moduli() == all.subrange(0, 5));
    assert(all.subrange(0, 5) =~= all);
    let low = all.subrange(0, 2);
    let high = all.subrange(2, 5);
    assert(low == m);
    assert(all =~= low + high);
    lemma_product_concat(low, high);
    let e = product_of(high) as int;
    assert(e == (e0 * e1) * e2) by {
        assert(high.len() == 3 && high[0] == all[2] && high[1] == all[3] && high[2] == all[4]);
        let two = high.drop_last();
        let one = two.drop_last();
        assert(one.drop_last().len() == 0);
        assert(product_of(one.drop_last()) == 1);
        assert(one.last() == high[0] && two.last() == high[1] && high.last() == high[2]);
        assert(product_of(one) == product_of(one.drop_last()) * (one.last() as nat));
        assert(product_of(two) == product_of(one) * (two.last() as nat));
        assert(product_of(high) == product_of(two) * (high.last() as nat));
    }
    let big = wide.rns().modulus_value() as int;
    assert(big == q * e);
    assert(e >= 64 * q) by (nonlinear_arith)
        requires
            e == (e0 * e1) * e2,
            c <= e0,
            c <= e1,
            c <= e2,
            q < (2 * c) * (2 * c),
            c >= 256,
    {
        assert(e0 * e1 >= c * c);
        assert((e0 * e1) * e2 >= (c * c) * c);
        assert((c * c) * c >= (c * c) * 256);
        assert(64 * ((2 * c) * (2 * c)) == (c * c) * 256);
    }
    let h = half_up(par);
    assert(0 <= h <= q);
    let n = par.spec_degree() as int;
    assert(big / 2 > 2 * (n * h * h)) by (nonlinear_arith)
        requires
            big == q * e,
            e >= 64 * q,
            0 <= h <= q,
            q >= 1,
            n == 8,
    {
        assert(h * h <= q * q);
        assert(q * e >= q * (64 * q));
        assert(q * (64 * q) == 64 * (q * q));
        assert(n * h * h == 8 * (h * h));
        assert(q * q >= 1);
    }
    // the moduli of the balanced extension
    let middle = all.subrange(2, 4);
    let p = extension_modulus(par) as int;
    assert(p == product_of(middle));
    assert(p == e0 * e1) by {
        assert(middle.len() == 2 && middle[0] == all[2] && middle[1] == all[3]);
        let one = middle.drop_last();
        assert(one.drop_last().len() == 0);
        assert(product_of(one.drop_last()) == 1);
        assert(one.last() == middle[0] && middle.last() == middle[1]);
        assert(product_of(one) == product_of(one.drop_last()) * (one.last() as nat));
        assert(product_of(middle) == product_of(one) * (middle.last() as nat));
    }
    assert(q <= 4 * p) by (nonlinear_arith)
        requires
            p == e0 * e1,
            c <= e0,
            c <= e1,
            q < (2 * c) * (2 * c),
            c >= 1,
    {
        assert(e0 * e1 >= c * c);
        assert((2 * c) * (2 * c) == 4 * (c * c));
    }
}

/// The two default moduli leave room for the product of two fresh
/// ciphertexts, with the wide and with the balanced extension.
pub proof fn lemma_default_room_products(sk: &SecretKey)
    requires
        sk.wf(),
        is_default(sk.par()),
        sk.par().spec_moduli().len() == 2,
    ensures
        has_room_product(sk, 2, 2, 2),
        has_room_balanced(sk, 2, 2, 2),
        has_room(sk, tensor_bound(sk.par(), 2, 2, 2)),
{
    let par = sk.par();
    lemma_default_pair(par);
    lemma_default_moduli(par);
    let q = par.big_q() as int;
    let c: int = 0x2000_0000_0000_0000;
    let t = par.spec_plaintext() as int;
    let n = par.spec_degree() as int;
    assert(t == 1153 && n == 8);
    let wide = tensor_bound(par, 2, 2, 2);
    let balanced = balanced_bound(par, 2, 2, 2);
    let extra = switching_bound(par);
    assert(1 + n * 2 + n * (n * 2 * 2) == 273 && (1 + n * 2) * (1 + n * 2) == 289 && 3 + n * 2
        == 19) by (nonlinear_arith)
        requires
            n == 8,
    ;
    assert(balanced_rounding(par, 2) == 4 * (t * (n * 289)) + 273);
    assert(wide == product_bound(n, t, 2, 2, 3 + n * 2, 273));
    assert(balanced == product_bound(n, t, 2, 2, 3 + n * 2, 4 * (t * (n * 289)) + 273));
    assert(0 <= wide <= 0x100_0000_0000 && 0 <= balanced <= 0x100_0000_0000)
        by (nonlinear_arith)
        requires
            t == 1153,
            n == 8,
            wide == n * t * (1 + (3 + n * 2)) * (2 + 2 + 2 * t) + t + 1 + 273,
            balanced == n * t * (1 + (3 + n * 2)) * (2 + 2 + 2 * t) + t + 1 + (4 * (t * (n * 289))
                + 273),
    ;
    assert(extra == 2 * (8 * 0x4000_0000_0000_0000 * (2 * 1)));
    assert(n * t * (2 * 2 + t * (2 + 2) + t * t) + t * t <= c) by (nonlinear_arith)
        requires
            t == 1153,
            n == 8,
            c == 0x2000_0000_0000_0000,
    ;
    assert(q >= c * c);
    assert(c * c >= c) by (nonlinear_arith)
        requires
            c >= 1,
    ;
    assert(4 * t * (t + (0x100_0000_0000 + extra)) <= c * c) by (nonlinear_arith)
        requires
            t == 1153,
            extra == 2 * (8 * 0x4000_0000_0000_0000 * (2 * 1)),
            c == 0x2000_0000_0000_0000,
    ;
    assert(4 * t * (t + (wide + extra)) <= 4 * t * (t + (0x100_0000_0000 + extra)))
        by (nonlinear_arith)
        requires
            t >= 0,
            wide <= 0x100_0000_0000,
    ;
    assert(4 * t * (t + (balanced + extra)) <= 4 * t * (t + (0x100_0000_0000 + extra)))
        by (nonlinear_arith)
        requires
            t >= 0,
            balanced <= 0x100_0000_0000,
    ;
    assert(4 * t * (t + wide) <= 4 * t * (t + (wide + extra))) by (nonlinear_arith)
        requires
            t >= 0,
            extra >= 0,
    ;
}

/// Whether the evaluation key was built for relinearization under the
/// key, with some masks and some errors.
pub open spec fn is_built(sk: &SecretKey, ek: &EvaluationKey) -> bool {
    exists|seed: Seed, error_seed: Seed|
        ek.made_with(sk, true, squared_rows(sk), seed, error_seed)
}

/// With the default parameters of two moduli, the relinearized product of
/// two fresh ciphertexts, with the wide or with the balanced extension,
/// decrypts to the product of the two plaintexts modulo `x^8 + 1` and the
/// plaintext modulus; so the two kinds of multiplication decrypt alike.
pub proof fn lemma_default_product(
    sk: &SecretKey,
    ek: &EvaluationKey,
    pt0: &Plaintext,
    pt1: &Plaintext,
    ct0: &Ciphertext,
    ct1: &Ciphertext,
    ct: &Ciphertext,
    balanced: bool,
)
    requires
        sk.wf(),
        ek.wf(),
        pt0.wf(),
        pt1.wf(),
        is_default(sk.par()),
        sk.par().spec_moduli().len() == 2,
        pt0.par() == sk.par(),
        pt1.par() == sk.par(),
        is_drawn(sk),
        is_built(sk, ek),
        is_fresh(sk, ct0, pt0),
        is_fresh(sk, ct1, pt1),
        is_product(
            ct,
            ct0,
            ct1,
            ek,
            if balanced {
                sk.par().mul_2_params()
            } else {
                sk.par().mul_1_params()
            },
        ),
    ensures
        sk.decrypted(ct) == negacyclic_product(pt0.values(), pt1.values(), 1153),
{
    lemma_tables_of_small_degrees(sk.par());
    lemma_default_room_products(sk);
    let key_seed = choose|seed: Seed|
        sk.s().rows() == #[trigger] small_rows(
            sk.par().ctx(),
            Representation::NttShoup,
            sk.par().spec_variance(),
            seed@,
        );
    let (s0, e0) = choose|seed: Seed, error_seed: Seed|
        sk.is_encryption(ct0, pt0, seed, error_seed);
    let (s1, e1) = choose|seed: Seed, error_seed: Seed|
        sk.is_encryption(ct1, pt1, seed, error_seed);
    let (s2, e2) = choose|seed: Seed, error_seed: Seed|
        ek.made_with(sk, true, squared_rows(sk), seed, error_seed);
    if balanced {
        lemma_balanced_round_trip(sk, ek, pt0, pt1, ct0, ct1, ct, key_seed, (s0, e0, s1, e1, s2, e2));
    } else {
        lemma_product_round_trip(sk, ek, pt0, pt1, ct0, ct1, ct, key_seed, (s0, e0, s1, e1, s2, e2));
    }
}

/// With the default parameters of two moduli, the product of two fresh
/// ciphertexts without relinearization, a ciphertext of three polynomials,
/// decrypts to the product of the two plaintexts modulo `x^8 + 1` and the
/// plaintext modulus.
pub proof fn lemma_default_tensor(
    sk: &SecretKey,
    pt0: &Plaintext,
    pt1: &Plaintext,
    ct0: &Ciphertext,
    ct1: &Ciphertext,
    ct: &Ciphertext,
)
    requires
        sk.wf(),
        pt0.wf(),
        pt1.wf(),
        is_default(sk.par()),
        sk.par().spec_moduli().len() == 2,
        pt0.par() == sk.par(),
        pt1.par() == sk.par(),
        is_drawn(sk),
        is_fresh(sk, ct0, pt0),
        is_fresh(sk, ct1, pt1),
        is_tensor(ct, ct0, ct1),
    ensures
        sk.decrypted(ct) == negacyclic_product(pt0.values(), pt1.values(), 1153),
{
    let par = sk.par();
    lemma_tables_of_small_degrees(par);
    lemma_default_room_products(sk);
    let key_seed = choose|seed: Seed|
        sk.s().rows() == #[trigger] small_rows(
            par.ctx(),
            Representation::NttShoup,
            par.spec_variance(),
            seed@,
        );
    let (s0, e0) = choose|seed: Seed, error_seed: Seed|
        sk.is_encryption(ct0, pt0, seed, error_seed);
    let (s1, e1) = choose|seed: Seed, error_seed: Seed|
        sk.is_encryption(ct1, pt1, seed, error_seed);
    let key = small_coefficients(key_seed@, 1, 8);
    assert forall|j: int| 0 <= j < key.len() implies -2 <= #[trigger] key[j] <= 2 by {
        lemma_small_sample(chacha8_words(key_seed@, 8)[j], 1);
    }
    lemma_fresh_carries(sk, pt0, ct0, s0, e0);
    lemma_fresh_carries(sk, pt1, ct1, s1, e1);
    lemma_tensor_decryption(
        sk,
        ct0,
        ct1,
        ct,
        fresh_rows(sk, pt0, e0),
        pt0.values(),
        small_coefficients(e0@, 1, 8),
        2,
        fresh_rows(sk, pt1, e1),
        pt1.values(),
        small_coefficients(e1@, 1, 8),
        2,
        key,
        2,
    );
}

/// With the default parameters of two moduli, a key switch adds an error
/// of less than 70 bits: the rows of the error hold the residues of numbers
/// within `2^67` of zero.
pub proof fn lemma_default_switching_noise(
    par: BfvParameters,
    p: Seq<Seq<u64>>,
    error_seed: Seq<u8>,
    l: int,
    j: int,
)
    requires
        is_default(par),
        par.spec_moduli().len() == 2,
        rows_in(p, par.spec_moduli(), par.spec_degree()),
        0 <= l < 2,
        0 <= j < 8,
    ensures
        switching_noise(par, p, error_seed, 2)[l][j] as int == noise_numbers(
            par,
            p,
            error_seed,
            2,
        )[j] % (par.spec_moduli()[l] as int),
        -0x8_0000_0000_0000_0000 <= noise_numbers(par, p, error_seed, 2)[j]
            <= 0x8_0000_0000_0000_0000,
{
    lemma_switching_noise(par, p, error_seed, 2, l, j);
    assert(2 * (8 * 0x4000_0000_0000_0000 * (2 * 1)) == 0x8_0000_0000_0000_0000);
}

} // verus!
