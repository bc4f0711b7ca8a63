//! Bit packing: a vector of numbers of a given number of bits each, written
//! one after the other, least significant bit first, and cut again into
//! numbers of another number of bits.

use crate::arith::{lemma_div_bounds, lemma_div_unique};
use vstd::arithmetic::power2::*;
use vstd::prelude::*;

verus! {

/// The number whose digits in base `2^bits`, least significant first, are
/// the numbers of `s`.
pub open spec fn packed_value(s: Seq<u64>, bits: nat) -> nat
    decreases s.len(),
{
    if s.len() == 0 {
        0
    } else {
        packed_value(s.drop_last(), bits) + (s.last() as nat) * pow2(bits * ((s.len() - 1) as nat))
    }
}

/// Whether every number of `s` is below `2^bits`.
pub open spec fn fits(s: Seq<u64>, bits: nat) -> bool {
    forall|i: int| 0 <= i < s.len() ==> (#[trigger] s[i]) < pow2(bits)
}

/// The bytes of `b` as words.
pub open spec fn widened(b: Seq<u8>) -> Seq<u64> {
    Seq::new(b.len(), |i: int| b[i] as u64)
}

/// Whether `r` is `a` cut again: the numbers of `a` have `from` bits each,
/// those of `r` have `to` bits each, there are as many of them as it takes
/// to hold all the bits, and both stand for the same number.
pub open spec fn is_repacked(r: Seq<u64>, a: Seq<u64>, from: nat, to: nat) -> bool {
    &&& r.len() == (a.len() * from + to - 1) / (to as int)
    &&& fits(r, to)
    &&& packed_value(r, to) == packed_value(a, from)
}

/// The value of digits below the base is below the power of the base that
/// their number gives.
pub proof fn lemma_packed_bound(s: Seq<u64>, bits: nat)
    requires
        fits(s, bits),
    ensures
        packed_value(s, bits) < pow2(bits * s.len()),
    decreases s.len(),
{
    lemma2_to64();
    if s.len() > 0 {
        let n = (s.len() - 1) as nat;
        lemma_packed_bound(s.drop_last(), bits);
        assert(bits * s.len() == bits * n + bits) by (nonlinear_arith)
            requires
                s.len() == n + 1,
        ;
        lemma_pow2_adds(bits * n, bits);
        assert(packed_value(s.drop_last(), bits) + s.last() * pow2(bits * n) < pow2(bits * n)
            * pow2(bits)) by (nonlinear_arith)
            requires
                packed_value(s.drop_last(), bits) < pow2(bits * n),
                s.last() < pow2(bits),
        ;
    } else {
        assert(bits * 0 == 0);
    }
}

/// Digits below the base are determined by their number and their value.
pub proof fn lemma_packed_unique(s: Seq<u64>, t: Seq<u64>, bits: nat)
    requires
        s.len() == t.len(),
        fits(s, bits),
        fits(t, bits),
        packed_value(s, bits) == packed_value(t, bits),
    ensures
        s == t,
    decreases s.len(),
{
    if s.len() > 0 {
        let n = (s.len() - 1) as nat;
        let w = pow2(bits * n) as int;
        lemma_pow2_pos(bits * n);
        lemma_packed_bound(s.drop_last(), bits);
        lemma_packed_bound(t.drop_last(), bits);
        let v = packed_value(s, bits) as int;
        assert(s.last() * w <= v < s.last() * w + w);
        assert(t.last() * w <= v < t.last() * w + w);
        lemma_div_unique(v, w, s.last() as int);
        lemma_div_unique(v, w, t.last() as int);
        lemma_packed_unique(s.drop_last(), t.drop_last(), bits);
        assert(s =~= s.drop_last().push(s.last()));
        assert(t =~= t.drop_last().push(t.last()));
    } else {
        assert(s =~= t);
    }
}

/// The first `count` digits of `v` in base `2^bits`, least significant
/// first.
pub open spec fn digits_of(v: nat, bits: nat, count: nat) -> Seq<u64> {
    Seq::new(count, |i: int| ((v / pow2(bits * (i as nat))) % pow2(bits)) as u64)
}

/// The numbers of `to` bits each that the numbers of `a`, of `from` bits
/// each, are cut into.
pub open spec fn repacked(a: Seq<u64>, from: nat, to: nat) -> Seq<u64> {
    digits_of(packed_value(a, from), to, ((a.len() * from + to - 1) / (to as int)) as nat)
}

/// The bytes that the numbers of `a`, of `nbits` bits each, are packed
/// into.
pub open spec fn packed_bytes(a: Seq<u64>, nbits: nat) -> Seq<u8> {
    let words = repacked(a, nbits, 8);
    Seq::new(words.len(), |i: int| words[i] as u8)
}

/// The digits of a number stand for the number, up to the power of the base
/// that their number gives.
pub proof fn lemma_digits_value(v: nat, bits: nat, count: nat)
    requires
        1 <= bits <= 64,
    ensures
        fits(digits_of(v, bits, count), bits),
        digits_of(v, bits, count).len() == count,
        packed_value(digits_of(v, bits, count), bits) == v % pow2(bits * count),
    decreases count,
{
    lemma2_to64();
    lemma2_to64_rest();
    lemma_pow2_pos(bits);
    if bits < 64 {
        lemma_pow2_strictly_increases(bits, 64);
    }
    let d = digits_of(v, bits, count);
    assert forall|i: int| 0 <= i < d.len() implies (#[trigger] d[i]) < pow2(bits) by {
        vstd::arithmetic::div_mod::lemma_mod_bound(
            (v / pow2(bits * (i as nat))) as int,
            pow2(bits) as int,
        );
    }
    if count == 0 {
        assert(bits * 0 == 0);
        assert(v % 1 == 0);
    } else {
        let m = (count - 1) as nat;
        let w = pow2(bits * m);
        lemma_digits_value(v, bits, m);
        assert(d.drop_last() =~= digits_of(v, bits, m));
        lemma_pow2_pos(bits * m);
        assert(bits * count == bits * m + bits) by (nonlinear_arith)
            requires
                count == m + 1,
        ;
        lemma_pow2_adds(bits * m, bits);
        vstd::arithmetic::div_mod::lemma_mod_breakdown(v as int, w as int, pow2(bits) as int);
        vstd::arithmetic::div_mod::lemma_mod_bound((v / w) as int, pow2(bits) as int);
        assert(d.last() as nat == (v / w) % pow2(bits));
        let digit = (v / w) % pow2(bits);
        assert((d.last() as nat) * w == w * digit) by (nonlinear_arith)
            requires
                d.last() as nat == digit,
        ;
    }
}

/// What is cut again is the digits of the same number.
pub proof fn lemma_repacked(r: Seq<u64>, a: Seq<u64>, from: nat, to: nat)
    requires
        1 <= from <= 64,
        1 <= to <= 64,
        fits(a, from),
        is_repacked(r, a, from, to),
    ensures
        r == repacked(a, from, to),
{
    let v = packed_value(a, from);
    let count = r.len();
    lemma_digits_value(v, to, count);
    lemma_packed_bound(a, from);
    // the numbers of r hold at least the bits of a
    lemma_div_bounds((a.len() * from + to - 1) as int, to as int);
    assert(from * a.len() <= to * count) by (nonlinear_arith)
        requires
            a.len() * from + to - 1 < count * to + to,
    ;
    if from * a.len() < to * count {
        lemma_pow2_strictly_increases(from * a.len(), to * count);
    }
    vstd::arithmetic::div_mod::lemma_small_mod(v, pow2(to * count));
    lemma_packed_unique(r, digits_of(v, to, count), to);
}

/// Shifting a 128-bit word left multiplies it by a power of two, as long as
/// nothing is shifted out.
pub proof fn lemma_shl_is_mul(x: u128, s: u32)
    requires
        s < 128,
        x * pow2(s as nat) <= u128::MAX,
    ensures
        (x << s) == x * pow2(s as nat),
    decreases s,
{
    lemma2_to64();
    if s == 0 {
        assert(x << 0u32 == x) by (bit_vector);
        assert(x * pow2(0) == x);
    } else {
        let t: u32 = (s - 1) as u32;
        lemma_pow2_unfold(s as nat);
        lemma_pow2_pos(t as nat);
        assert(x * pow2(t as nat) * 2 == x * pow2(s as nat)) by (nonlinear_arith)
            requires
                pow2(s as nat) == 2 * pow2(t as nat),
        ;
        lemma_shl_is_mul(x, t);
        let y: u128 = x << t;
        assert(x << s == y << 1u32) by (bit_vector)
            requires
                y == x << t,
                s == t + 1,
                s < 128,
        ;
        assert(y << 1u32 == 2 * y) by (bit_vector)
            requires
                y <= 0x7fff_ffff_ffff_ffff_ffff_ffff_ffff_ffffu128,
        ;
    }
}

/// Cuts the numbers of `a`, of `from` bits each, into numbers of `to` bits
/// each.
pub fn repack(a: &[u64], from: usize, to: usize) -> (r: Vec<u64>)
    requires
        1 <= from <= 64,
        1 <= to <= 64,
        fits(a@, from as nat),
    ensures
        is_repacked(r@, a@, from as nat, to as nat),
        r@ == repacked(a@, from as nat, to as nat),
{
    let n = a.len();
    let mut out: Vec<u64> = Vec::new();
    let mut acc: u128 = 0;
    let mut nb: usize = 0;
    let mut i: usize = 0;
    let ghost fb = from as nat;
    let ghost tb = to as nat;
    proof {
        lemma2_to64();
        assert(a@.subrange(0, 0) =~= Seq::<u64>::empty());
        assert(tb * 0 == 0);
    }
    while i < n
        invariant
            1 <= from <= 64,
            1 <= to <= 64,
            fb == from,
            tb == to,
            i <= n,
            n == a@.len(),
            fits(a@, fb),
            fits(out@, tb),
            nb < to,
            acc < pow2(nb as nat),
            out@.len() * to + nb == i * from,
            packed_value(out@, tb) + acc * pow2(tb * out@.len()) == packed_value(
                a@.subrange(0, i as int),
                fb,
            ),
        decreases n - i,
    {
        let ghost before = a@.subrange(0, i as int);
        let ghost len0 = out@.len();
        proof {
            let x = a@[i as int];
            lemma_pow2_adds(nb as nat, fb);
            lemma_pow2_strictly_increases((nb + from) as nat, 128);
            lemma_pow2_adds(64, 64);
            lemma2_to64_rest();
            assert(acc + x * pow2(nb as nat) < pow2(nb as nat) * pow2(fb)) by (nonlinear_arith)
                requires
                    acc < pow2(nb as nat),
                    x < pow2(fb),
            ;
            assert(x * pow2(nb as nat) >= 0) by (nonlinear_arith)
                requires
                    x >= 0,
                    pow2(nb as nat) >= 0,
            ;
            lemma_shl_is_mul(x as u128, nb as u32);
            // the weight of the new number
            assert(a@.subrange(0, i + 1).drop_last() =~= before);
            assert(fb * i == nb + tb * len0) by (nonlinear_arith)
                requires
                    len0 * to + nb == i * from,
                    fb == from,
                    tb == to,
            ;
            lemma_pow2_adds(nb as nat, tb * len0);
            assert((acc + x * pow2(nb as nat)) * pow2(tb * len0) == acc * pow2(tb * len0) + x * (
            pow2(nb as nat) * pow2(tb * len0))) by (nonlinear_arith);
            assert((i + 1) * from == i * from + from) by (nonlinear_arith);
        }
        acc = acc + (((a[i] as u128) << (nb as u32)));
        nb = nb + from;
        i += 1;
        while nb >= to
            invariant
                1 <= from <= 64,
                1 <= to <= 64,
                fb == from,
                tb == to,
                i <= n,
                n == a@.len(),
                    fits(out@, tb),
                nb < to + from,
                acc < pow2(nb as nat),
                out@.len() * to + nb == i * from,
                packed_value(out@, tb) + acc * pow2(tb * out@.len()) == packed_value(
                    a@.subrange(0, i as int),
                    fb,
                ),
            decreases nb,
        {
            let ghost len1 = out@.len();
            let ghost old_out = out@;
            proof {
                vstd::bits::lemma_u128_shr_is_div(acc, to as u128);
                lemma_pow2_pos(tb);
                lemma_div_bounds(acc as int, pow2(tb) as int);
                lemma_pow2_adds(tb, (nb - to) as nat);
                let q = acc as int / pow2(tb) as int;
                assert(q < pow2((nb - to) as nat)) by (nonlinear_arith)
                    requires
                        q * pow2(tb) <= acc,
                        acc < pow2(tb) * pow2((nb - to) as nat),
                        pow2(tb) > 0,
                ;
                assert(q >= 0) by (nonlinear_arith)
                    requires
                        acc < q * pow2(tb) + pow2(tb),
                        acc >= 0,
                        pow2(tb) > 0,
                ;
                lemma_pow2_strictly_increases((nb - to) as nat, 64);
                lemma2_to64_rest();
            }
            let high: u128 = acc >> (to as u32);
            proof {
                assert(high as int == acc as int / pow2(tb) as int);
                assert(high * pow2(tb) <= acc);
                lemma_shl_is_mul(high, to as u32);
            }
            let low: u128 = acc - (high << (to as u32));
            proof {
                assert(low < pow2(tb));
                lemma_pow2_strictly_increases(tb, 65);
                assert(pow2(65) == 2 * pow2(64)) by {
                    lemma_pow2_unfold(65);
                }
                if to == 64 {
                    assert(low < pow2(64));
                } else {
                    lemma_pow2_strictly_increases(tb, 64);
                }
            }
            out.push(low as u64);
            proof {
                assert(out@.drop_last() =~= old_out);
                assert(tb * (len1 + 1) == tb * len1 + tb) by (nonlinear_arith);
                lemma_pow2_adds(tb * len1, tb);
                assert(acc * pow2(tb * len1) == high * (pow2(tb * len1) * pow2(tb)) + low * pow2(
                    tb * len1,
                )) by (nonlinear_arith)
                    requires
                        acc == high * pow2(tb) + low,
                ;
                assert((len1 + 1) * to == len1 * to + to) by (nonlinear_arith);
            }
            acc = high;
            nb = nb - to;
        }
    }
    proof {
        assert(a@.subrange(0, n as int) =~= a@);
    }
    let ghost len2 = out@.len();
    let ghost old_out = out@;
    if nb > 0 {
        proof {
            lemma_pow2_strictly_increases(nb as nat, tb);
            lemma_pow2_strictly_increases(nb as nat, 64);
            lemma2_to64_rest();
        }
        out.push(acc as u64);
        proof {
            assert(out@.drop_last() =~= old_out);
            // the numbers hold nb bits more than a full number of them
            assert((len2 + 1) * to == len2 * to + to) by (nonlinear_arith);
            lemma_div_unique((n * from + to - 1) as int, to as int, (len2 + 1) as int);
        }
    } else {
        proof {
            assert(acc == 0);
            assert(0 * pow2(tb * len2) == 0);
            assert((len2 + 1) * to == len2 * to + to) by (nonlinear_arith);
            lemma_div_unique((n * from + to - 1) as int, to as int, len2 as int);
        }
    }
    proof {
        lemma_repacked(out@, a@, fb, tb);
    }
    out
}

/// Packs the numbers of `a`, of `nbits` bits each, into bytes.
pub fn transcode_to_bytes(a: &[u64], nbits: usize) -> (r: Vec<u8>)
    requires
        1 <= nbits <= 64,
        fits(a@, nbits as nat),
    ensures
        is_repacked(widened(r@), a@, nbits as nat, 8),
        r@ == packed_bytes(a@, nbits as nat),
{
    let words = repack(a, nbits, 8);
    let n = words.len();
    let mut r: Vec<u8> = Vec::with_capacity(n);
    let mut i: usize = 0;
    proof {
        lemma2_to64();
    }
    while i < n
        invariant
            i <= n,
            n == words@.len(),
            fits(words@, 8),
            pow2(8) == 256,
            r@.len() == i,
            forall|j: int| 0 <= j < i ==> (#[trigger] r@[j]) as u64 == words@[j],
        decreases n - i,
    {
        r.push(words[i] as u8);
        i += 1;
    }
    proof {
        assert(widened(r@) =~= words@);
        assert(r@ =~= packed_bytes(a@, nbits as nat));
    }
    r
}

/// Cuts bytes into numbers of `nbits` bits each.
pub fn transcode_from_bytes(b: &[u8], nbits: usize) -> (r: Vec<u64>)
    requires
        1 <= nbits <= 64,
    ensures
        is_repacked(r@, widened(b@), 8, nbits as nat),
        r@ == repacked(widened(b@), 8, nbits as nat),
{
    let n = b.len();
    let mut words: Vec<u64> = Vec::with_capacity(n);
    let mut i: usize = 0;
    proof {
        lemma2_to64();
    }
    while i < n
        invariant
            i <= n,
            n == b@.len(),
            pow2(8) == 256,
            words@.len() == i,
            forall|j: int| 0 <= j < i ==> #[trigger] words@[j] == b@[j] as u64,
        decreases n - i,
    {
        words.push(b[i] as u64);
        i += 1;
    }
    proof {
        assert(words@ =~= widened(b@));
        assert(fits(words@, 8)) by {
            assert forall|j: int| 0 <= j < words@.len() implies (#[trigger] words@[j]) < pow2(
                8,
            ) by {
                assert(words@[j] == b@[j] as u64);
            }
        }
    }
    repack(words.as_slice(), 8, nbits)
}

/// Packing numbers whose bits fill whole bytes into bytes, and cutting the
/// bytes again, gives the numbers back.
pub proof fn lemma_pack_then_cut(a: Seq<u64>, nbits: nat)
    requires
        1 <= nbits <= 64,
        (a.len() * nbits) % 8 == 0,
        fits(a, nbits),
    ensures
        repacked(widened(packed_bytes(a, nbits)), 8, nbits) == a,
        packed_bytes(a, nbits).len() == nbits * a.len() / 8,
{
    lemma2_to64();
    let words = repacked(a, nbits, 8);
    let b = packed_bytes(a, nbits);
    let v = packed_value(a, nbits);
    let count = words.len();
    lemma_digits_value(v, 8, count);
    assert(widened(b) =~= words) by {
        assert forall|i: int| 0 <= i < words.len() implies (words[i] as u8) as u64
            == #[trigger] words[i] by {
            assert(words[i] < pow2(8));
        }
    }
    // the bytes stand for the same number
    lemma_packed_bound(a, nbits);
    lemma_div_bounds((a.len() * nbits + 8 - 1) as int, 8);
    assert(nbits * a.len() <= 8 * count) by (nonlinear_arith)
        requires
            a.len() * nbits + 8 - 1 < count * 8 + 8,
    ;
    if nbits * a.len() < 8 * count {
        lemma_pow2_strictly_increases(nbits * a.len(), 8 * count);
    }
    vstd::arithmetic::div_mod::lemma_small_mod(v, pow2(8 * count));
    assert(is_repacked(words, a, nbits, 8));
    let c = repacked(words, 8, nbits);
    let back = ((words.len() * 8 + nbits - 1) / (nbits as int)) as nat;
    lemma_digits_value(packed_value(words, 8), nbits, back);
    // there are as many numbers again
    let n = a.len() as int;
    let k = (n * nbits) / 8;
    vstd::arithmetic::div_mod::lemma_fundamental_div_mod(n * nbits, 8);
    assert(n * nbits == k * 8);
    lemma_div_unique(n * nbits + 8 - 1, 8, k);
    assert(nbits * n == n * nbits) by (nonlinear_arith);
    assert(count * 8 == n * nbits);
    lemma_div_unique(count * 8 + nbits - 1, nbits as int, n);
    assert(nbits * back == nbits * a.len());
    vstd::arithmetic::div_mod::lemma_small_mod(v, pow2(nbits * back));
    assert(is_repacked(c, words, 8, nbits));
    lemma_round_trip(a, b, c, nbits);
}

/// Packing numbers whose bits fill whole bytes, and cutting the bytes again,
/// gives the numbers back.
pub proof fn lemma_round_trip(a: Seq<u64>, b: Seq<u8>, c: Seq<u64>, nbits: nat)
    requires
        1 <= nbits <= 64,
        (a.len() * nbits) % 8 == 0,
        fits(a, nbits),
        is_repacked(widened(b), a, nbits, 8),
        is_repacked(c, widened(b), 8, nbits),
    ensures
        c == a,
{
    let n = a.len() as int;
    let bytes = b.len() as int;
    let k = (n * nbits) / 8;
    vstd::arithmetic::div_mod::lemma_fundamental_div_mod(n * nbits, 8);
    assert(n * nbits == k * 8);
    assert(widened(b).len() == bytes);
    // there are k bytes
    lemma_div_unique(n * nbits + 8 - 1, 8, k);
    assert(bytes == k);
    // and n numbers again
    assert(bytes * 8 == n * nbits);
    lemma_div_unique(bytes * 8 + nbits - 1, nbits as int, n);
    lemma_packed_unique(c, a, nbits);
}

} // verus!
