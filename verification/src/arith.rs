//! Integer facts behind the reductions modulo a word-sized number.

use vstd::arithmetic::div_mod::*;
use vstd::arithmetic::mul::*;
use vstd::prelude::*;

verus! {

/// 2^64.
pub open spec fn two_64() -> int {
    0x1_0000_0000_0000_0000
}

/// 2^128.
pub open spec fn two_128() -> int {
    0x1_0000_0000_0000_0000int * 0x1_0000_0000_0000_0000int
}

/// The Barrett constant of `p`: 2^128 / p, rounded down.
pub open spec fn barrett_ratio(p: int) -> int {
    two_128() / p
}

/// The quotient estimate of Barrett's reduction: `a * barrett_ratio(p) / 2^128`.
pub open spec fn barrett_quotient(a: int, p: int) -> int {
    (a * barrett_ratio(p)) / two_128()
}

/// What Barrett's reduction leaves of `a` before the last conditional
/// subtraction: a number congruent to `a` that lies in `[0, 2p)`.
pub open spec fn lazy_residue(a: int, p: int) -> int {
    a - barrett_quotient(a, p) * p
}

/// The Shoup constant of `b`: `b * 2^64 / p`, rounded down.
pub open spec fn shoup_ratio(b: int, p: int) -> int {
    (b * two_64()) / p
}

/// What Shoup's multiplication leaves of `a * b` before the last conditional
/// subtraction.
pub open spec fn shoup_residue(a: int, b: int, b_shoup: int, p: int) -> int {
    a * b - ((a * b_shoup) / two_64()) * p
}

/// The product of two 64-bit words fits in 128 bits.
pub proof fn lemma_word_product(x: int, y: int)
    requires
        0 <= x < two_64(),
        0 <= y < two_64(),
    ensures
        0 <= x * y <= (two_64() - 1) * (two_64() - 1),
        x * y < two_128(),
{
    assert(0 <= x * y <= (two_64() - 1) * (two_64() - 1)) by (nonlinear_arith)
        requires
            0 <= x <= two_64() - 1,
            0 <= y <= two_64() - 1,
    ;
}

/// `x / d` is the one `q` with `q * d <= x < (q + 1) * d`.
pub proof fn lemma_div_bounds(x: int, d: int)
    requires
        d > 0,
    ensures
        (x / d) * d <= x < (x / d) * d + d,
{
    lemma_fundamental_div_mod(x, d);
    lemma_mod_bound(x, d);
    lemma_mul_is_commutative(d, x / d);
}

/// The quotient is pinned by the two bounds of [`lemma_div_bounds`].
pub proof fn lemma_div_unique(x: int, d: int, q: int)
    requires
        d > 0,
        q * d <= x < q * d + d,
    ensures
        x / d == q,
{
    lemma_fundamental_div_mod_converse(x, d, q, x - q * d);
}

/// Barrett's estimate is the true quotient or one less.
pub proof fn lemma_barrett(a: int, p: int)
    requires
        0 <= a < two_128(),
        1 <= p,
    ensures
        0 <= barrett_quotient(a, p),
        0 <= lazy_residue(a, p) < 2 * p,
        lazy_residue(a, p) % p == a % p,
{
    let m = barrett_ratio(p);
    let q = barrett_quotient(a, p);
    let t = two_128();
    lemma_div_bounds(t, p);
    lemma_div_bounds(a * m, t);
    assert(m >= 0) by (nonlinear_arith)
        requires
            m * p + p > t,
            m * p <= t,
            p >= 1,
            t > 0,
    ;
    assert(a * m >= 0) by (nonlinear_arith)
        requires
            a >= 0,
            m >= 0,
    ;
    assert(q >= 0) by (nonlinear_arith)
        requires
            q * t + t > a * m,
            a * m >= 0,
            t > 0,
    ;
    assert(q * p <= a) by (nonlinear_arith)
        requires
            q * t <= a * m,
            m * p <= t,
            a >= 0,
            p >= 1,
            q >= 0,
            m >= 0,
            t > 0,
    {
        assert(q * t * p <= a * m * p);
        assert(a * m * p == a * (m * p));
        assert(a * (m * p) <= a * t);
        assert((q * p) * t <= a * t);
    }
    assert(a < q * p + 2 * p) by (nonlinear_arith)
        requires
            a * m < q * t + t,
            t < m * p + p,
            0 <= a < t,
            p >= 1,
            q >= 0,
            m >= 0,
    {
        assert(a * t <= a * (m * p + p));
        assert(a * m * p <= (q * t + t) * p);
        assert(a * p <= t * p);
        assert(a * t <= (q * p + 2 * p) * t);
        assert(a * t < (q * p + 2 * p) * t || a * t == (q * p + 2 * p) * t);
    }
    lemma_mod_multiples_vanish(-q, a, p);
    assert(a - q * p == p * (-q) + a) by (nonlinear_arith);
}

/// The two words of a Barrett constant add up to at most 2^64.
pub proof fn lemma_barrett_words(hi: int, lo: int, p: int)
    requires
        0 <= hi,
        0 <= lo < two_64(),
        p >= 1,
        hi * two_64() + lo == barrett_ratio(p),
    ensures
        lo + hi <= two_64(),
        hi * p <= two_64(),
{
    let b = two_64();
    let m = barrett_ratio(p);
    lemma_div_bounds(two_128(), p);
    assert(hi * p <= b) by (nonlinear_arith)
        requires
            (hi * b + lo) * p <= b * b,
            hi >= 0,
            lo >= 0,
            p >= 1,
            b > 0,
    {
        assert((hi * p) * b <= (hi * b + lo) * p);
    }
    assert((lo + hi) * p <= b * p) by (nonlinear_arith)
        requires
            (hi * b + lo) * p <= b * b,
            b * b < (hi * b + lo) * p + p,
            hi >= 0,
            0 <= lo < b,
            p >= 1,
            b > 0,
            hi * p <= b,
    {
        // b * b < (hi * b + b) * p, so b < (hi + 1) * p
        assert((hi * b + lo) * p + p <= (hi * b + b) * p);
        assert(b * b < ((hi + 1) * p) * b);
        assert(b < (hi + 1) * p);
        // lo * p <= b * (b - hi * p) <= b * (p - 1)
        assert(lo * p <= b * b - (hi * p) * b);
        assert(b * b - (hi * p) * b == b * (b - hi * p));
        assert(b * (b - hi * p) <= b * (p - 1));
        assert(lo * p + hi * p <= b * (p - 1) + b);
    }
    assert(lo + hi <= b) by (nonlinear_arith)
        requires
            (lo + hi) * p <= b * p,
            p >= 1,
    ;
}

/// The word-by-word computation of Barrett's quotient estimate: with
/// `a = a_hi * 2^64 + a_lo` and the constant `hi * 2^64 + lo`, the middle sum
/// fits in 128 bits and gives the estimate.
pub proof fn lemma_barrett_split(a_hi: int, a_lo: int, hi: int, lo: int, p: int)
    requires
        0 <= a_hi < two_64(),
        0 <= a_lo < two_64(),
        0 <= hi,
        0 <= lo < two_64(),
        p >= 1,
        hi * two_64() + lo == barrett_ratio(p),
    ensures
        0 <= a_hi * lo + a_lo * hi + (a_lo * lo) / two_64() < two_128(),
        (a_hi * lo + a_lo * hi + (a_lo * lo) / two_64()) / two_64() + a_hi * hi
            == barrett_quotient(a_hi * two_64() + a_lo, p),
{
    let b = two_64();
    let c = a_lo * lo;
    let t = a_hi * lo + a_lo * hi + c / b;
    lemma_barrett_words(hi, lo, p);
    lemma_div_bounds(c, b);
    lemma_div_bounds(t, b);
    assert(0 <= c < b * lo || lo == 0 && c == 0) by (nonlinear_arith)
        requires
            c == a_lo * lo,
            0 <= a_lo < b,
            0 <= lo,
    ;
    assert(0 <= c / b <= lo) by (nonlinear_arith)
        requires
            (c / b) * b <= c < (c / b) * b + b,
            0 <= c < b * lo || lo == 0 && c == 0,
            b > 0,
            lo >= 0,
    ;
    assert(0 <= a_hi * lo + a_lo * hi <= (b - 1) * (lo + hi)) by (nonlinear_arith)
        requires
            0 <= a_hi <= b - 1,
            0 <= a_lo <= b - 1,
            0 <= hi,
            0 <= lo,
    ;
    assert((b - 1) * (lo + hi) <= (b - 1) * b) by (nonlinear_arith)
        requires
            lo + hi <= b,
            b >= 1,
    ;
    assert(t < b * b);
    let a = a_hi * b + a_lo;
    let m = hi * b + lo;
    let q = t / b + a_hi * hi;
    let tq = t / b;
    let cq = c / b;
    let x = a_hi * hi;
    let y = a_hi * lo + a_lo * hi;
    assert(a * m == (a_hi * b) * m + a_lo * m) by (nonlinear_arith)
        requires
            a == a_hi * b + a_lo,
    ;
    assert((a_hi * b) * m == (a_hi * b) * (hi * b) + (a_hi * b) * lo) by (nonlinear_arith)
        requires
            m == hi * b + lo,
    ;
    assert(a_lo * m == a_lo * (hi * b) + a_lo * lo) by (nonlinear_arith)
        requires
            m == hi * b + lo,
    ;
    assert((a_hi * b) * (hi * b) == (a_hi * hi) * (b * b)) by (nonlinear_arith);
    assert((a_hi * b) * lo == (a_hi * lo) * b) by (nonlinear_arith);
    assert(a_lo * (hi * b) == (a_lo * hi) * b) by (nonlinear_arith);
    assert(y * b == (a_hi * lo) * b + (a_lo * hi) * b) by (nonlinear_arith)
        requires
            y == a_hi * lo + a_lo * hi,
    ;
    assert(a * m == x * (b * b) + y * b + c);
    assert(q * (b * b) + ((t - tq * b) * b + (c - cq * b)) == x * (b * b) + y * b + c)
        by (nonlinear_arith)
        requires
            t == y + cq,
            q == tq + x,
    ;
    assert(0 <= (t - (t / b) * b) * b + (c - (c / b) * b) < b * b) by (nonlinear_arith)
        requires
            0 <= t - (t / b) * b <= b - 1,
            0 <= c - (c / b) * b < b,
            b > 0,
    ;
    lemma_div_unique(a * m, b * b, q);
}

/// Shoup's constant fits in a word, and the product it leads to is the true
/// remainder or that plus `p`.
pub proof fn lemma_shoup(a: int, b: int, p: int)
    requires
        0 <= a < two_64(),
        0 <= b < p,
    ensures
        0 <= shoup_ratio(b, p) < two_64(),
        0 <= (a * shoup_ratio(b, p)) / two_64() < two_64(),
        0 <= ((a * shoup_ratio(b, p)) / two_64()) * p <= a * b,
        0 <= shoup_residue(a, b, shoup_ratio(b, p), p) < 2 * p,
        shoup_residue(a, b, shoup_ratio(b, p), p) % p == (a * b) % p,
{
    let w = two_64();
    let s = shoup_ratio(b, p);
    let q = (a * s) / w;
    lemma_div_bounds(b * w, p);
    lemma_div_bounds(a * s, w);
    assert(0 <= s < w) by (nonlinear_arith)
        requires
            s * p <= b * w < s * p + p,
            0 <= b < p,
            w > 0,
    {
        assert(b * w < p * w);
        assert(s * p < p * w);
        assert(b * w >= 0);
    }
    assert(0 <= q < w) by (nonlinear_arith)
        requires
            q * w <= a * s < q * w + w,
            0 <= a < w,
            0 <= s < w,
    {
        assert(a * s >= 0);
        assert(a * s < w * w);
    }
    assert(q * p <= a * b) by (nonlinear_arith)
        requires
            q * w <= a * s,
            s * p <= b * w,
            a >= 0,
            p > 0,
            w > 0,
    {
        assert((q * w) * p <= (a * s) * p);
        assert((a * s) * p == a * (s * p));
        assert(a * (s * p) <= a * (b * w));
        assert((q * p) * w <= (a * b) * w);
    }
    assert(q * p >= 0) by (nonlinear_arith)
        requires
            q >= 0,
            p > 0,
    ;
    assert(a * b < q * p + 2 * p) by (nonlinear_arith)
        requires
            a * s < q * w + w,
            b * w < s * p + p,
            0 <= a < w,
            p > 0,
    {
        assert(a * (b * w) <= a * (s * p + p));
        assert((a * s) * p <= (q * w + w) * p);
        assert(a * p <= w * p);
        assert((a * b) * w <= (q * p + 2 * p) * w);
        assert((a * b) * w < (q * p + 2 * p) * w || (a * b) * w == (q * p + 2 * p) * w);
    }
    lemma_mod_multiples_vanish(-q, a * b, p);
    assert(a * b - q * p == p * (-q) + a * b) by (nonlinear_arith);
}

/// What the single-multiplication reduction of a number below `p * p`
/// leaves before the last conditional subtraction, for a modulus with
/// Barrett constant `k * 2^64 + lo`.
pub open spec fn opt_residue(a: int, k: int, lo: int, p: int) -> int {
    a - ((lo * (a / two_64()) + a * k) / two_64()) * p
}

/// For a modulus `p` below `2^64 / k` that has the shape
/// `(k^3 + 1) * 2^64 < k^3 * (k + 1) * p`, the high word of the Barrett
/// constant is `k`, and the low word is small enough for the reductions with
/// a single multiplication.
pub proof fn lemma_shape_words(p: int, k: int, k3: int, hi: int, lo: int)
    requires
        k >= 1,
        k3 == k * k * k,
        p >= 1,
        k * p < two_64(),
        0 <= hi,
        0 <= lo < two_64(),
        hi * two_64() + lo == barrett_ratio(p),
        (k3 + 1) * two_64() < k3 * (k + 1) * p,
    ensures
        hi == k,
        lo * two_64() + p * p < two_64() * two_64(),
        two_64() - k * p < p,
{
    let b = two_64();
    lemma_barrett_words(hi, lo, p);
    lemma_div_bounds(two_128(), p);
    assert(k3 >= 1) by (nonlinear_arith)
        requires
            k >= 1,
            k3 == k * k * k,
    ;
    // the shape, with the gap g = b - k * p
    let g = b - k * p;
    assert(k3 * g + b < k3 * p) by (nonlinear_arith)
        requires
            (k3 + 1) * b < k3 * (k + 1) * p,
            g == b - k * p,
    {
        assert(k3 * (k + 1) * p == k3 * (k * p) + k3 * p);
        assert(k3 * (k * p) == k3 * b - k3 * g);
        assert((k3 + 1) * b == k3 * b + b);
    }
    assert(g < p) by (nonlinear_arith)
        requires
            k3 * g + b < k3 * p,
            b > 0,
            k3 >= 1,
    ;
    assert(b < (k + 1) * p) by (nonlinear_arith)
        requires
            g < p,
            g == b - k * p,
    ;
    assert(b < (hi + 1) * p) by (nonlinear_arith)
        requires
            b * b < (hi * b + lo) * p + p,
            0 <= lo < b,
            p >= 1,
            hi >= 0,
    {
        assert((hi * b + lo) * p + p <= (hi * b + b) * p);
        assert((hi * b + b) * p == ((hi + 1) * p) * b);
    }
    assert(hi == k) by (nonlinear_arith)
        requires
            k * p < b,
            b < (hi + 1) * p,
            hi * p <= b,
            b < (k + 1) * p,
            p >= 1,
    ;
    // lo * p <= b * g
    assert(lo * p <= b * g) by (nonlinear_arith)
        requires
            (k * b + lo) * p <= b * b,
            g == b - k * p,
    {
        assert((k * b + lo) * p == (k * p) * b + lo * p);
    }
    let kp = k * p;
    assert(kp * kp * kp < b * b * b) by (nonlinear_arith)
        requires
            0 <= kp < b,
    {
        assert(kp * kp <= b * b);
        assert(kp * kp * kp <= kp * (b * b));
        assert(kp * (b * b) < b * (b * b));
    }
    assert(k3 * p * (p * p) == kp * kp * kp) by (nonlinear_arith)
        requires
            kp == k * p,
            k3 == k * k * k,
    ;
    assert(k3 * p * (lo * b) < k3 * p * (b * b) - b * b * b) by (nonlinear_arith)
        requires
            lo * p <= b * g,
            k3 * g + b < k3 * p,
            k3 >= 1,
            b > 0,
    {
        assert(k3 * p * (lo * b) == (k3 * b) * (lo * p));
        assert((k3 * b) * (lo * p) <= (k3 * b) * (b * g));
        assert((k3 * b) * (b * g) == (b * b) * (k3 * g));
        assert((b * b) * (k3 * g + b) < (b * b) * (k3 * p));
        assert((b * b) * (k3 * g + b) == (b * b) * (k3 * g) + b * b * b);
        assert((b * b) * (k3 * p) == k3 * p * (b * b));
    }
    assert(lo * b + p * p < b * b) by (nonlinear_arith)
        requires
            k3 * p * (lo * b) < k3 * p * (b * b) - b * b * b,
            k3 * p * (p * p) < b * b * b,
            k3 >= 1,
            p >= 1,
    {
        assert(k3 * p * (lo * b + p * p) == k3 * p * (lo * b) + k3 * p * (p * p));
        assert(k3 * p * (lo * b + p * p) < k3 * p * (b * b));
        assert(k3 * p >= 1);
    }
}

/// The reduction with a single multiplication of a number below `p * p`
/// leaves the true remainder or that plus `p`.
pub proof fn lemma_opt_u128(a: int, p: int, k: int, lo: int)
    requires
        k >= 1,
        p >= 1,
        k * p < two_64(),
        0 <= lo < two_64(),
        k * two_64() + lo == barrett_ratio(p),
        lo * two_64() + p * p < two_64() * two_64(),
        0 <= a < p * p,
    ensures
        0 <= lo * (a / two_64()) + a * k < two_128(),
        0 <= ((lo * (a / two_64()) + a * k) / two_64()) * p <= a,
        0 <= opt_residue(a, k, lo, p) < 2 * p,
        opt_residue(a, k, lo, p) % p == a % p,
{
    let b = two_64();
    let m = k * b + lo;
    let a_hi = a / b;
    let a_lo = a - a_hi * b;
    let t = lo * a_hi + a * k;
    let q = t / b;
    lemma_div_bounds(a, b);
    lemma_div_bounds(t, b);
    lemma_div_bounds(two_128(), p);
    assert(a_hi >= 0) by (nonlinear_arith)
        requires
            a_hi * b + b > a,
            a >= 0,
            b > 0,
    ;
    assert(lo * a_hi >= 0 && a * k >= 0 && lo * a_lo >= 0) by (nonlinear_arith)
        requires
            lo >= 0,
            a_hi >= 0,
            a >= 0,
            k >= 1,
            a_lo >= 0,
    ;
    // a * m == b * t + lo * a_lo
    assert(a * m == b * t + lo * a_lo) by (nonlinear_arith)
        requires
            m == k * b + lo,
            a_lo == a - a_hi * b,
            t == lo * a_hi + a * k,
    {
        assert(a * m == a * (k * b) + a * lo);
        assert(a * lo == (a_hi * b + a_lo) * lo);
        assert((a_hi * b + a_lo) * lo == (lo * a_hi) * b + lo * a_lo);
        assert(a * (k * b) == (a * k) * b);
        assert(b * t == (lo * a_hi) * b + (a * k) * b);
    }
    // a * m <= a * b * b / p, so t * b < b * b * b
    assert(a * m * p <= a * (b * b)) by (nonlinear_arith)
        requires
            m * p <= b * b,
            a >= 0,
    {
        assert(a * m * p == a * (m * p));
    }
    assert(t < b * b) by (nonlinear_arith)
        requires
            a * m == b * t + lo * a_lo,
            lo * a_lo >= 0,
            a * m * p <= a * (b * b),
            a < p * p,
            p * p < b * b,
            p >= 1,
            b > 0,
            t >= 0,
            a >= 0,
    {
        // b * t * p <= a * b * b < p * p * b * b, and p * b < b * b
        assert((b * t) * p <= a * (b * b));
        assert(a * (b * b) <= (p * p) * (b * b));
        assert((b * t) * p <= (p * p) * (b * b));
        assert(t * (b * p) <= (p * b) * (b * p));
        assert(b * p >= 1);
        assert(t <= p * b);
        assert(p * p < b * b);
        assert(p < b);
        assert(p * b < b * b);
    }
    assert(q >= 0) by (nonlinear_arith)
        requires
            q * b + b > t,
            t >= 0,
            b > 0,
    ;
    assert(q * p <= a) by (nonlinear_arith)
        requires
            q * b <= t,
            a * m == b * t + lo * a_lo,
            lo * a_lo >= 0,
            a * m * p <= a * (b * b),
            p >= 1,
            b > 0,
            q >= 0,
    {
        assert((q * b) * b <= t * b);
        assert(q * (b * b) <= a * m);
        assert(q * (b * b) * p <= a * m * p);
        assert((q * p) * (b * b) <= a * (b * b));
        assert(b * b >= 1);
    }
    assert(q * p >= 0) by (nonlinear_arith)
        requires
            q >= 0,
            p >= 1,
    ;
    assert(lo * a_lo + a < b * b) by (nonlinear_arith)
        requires
            lo * b + p * p < b * b,
            0 <= a_lo < b,
            0 <= lo,
            a < p * p,
    {
        assert(lo * a_lo <= lo * b);
    }
    assert(a < q * p + 2 * p) by (nonlinear_arith)
        requires
            t < q * b + b,
            a * m == b * t + lo * a_lo,
            b * b < m * p + p,
            lo * a_lo + a < b * b,
            a >= 0,
            p >= 1,
            b > 0,
    {
        assert(a * (b * b) <= a * (m * p + p));
        assert(a * (m * p + p) == (a * m) * p + a * p);
        assert(b * t <= b * (q * b + b) - b);
        assert(a * m <= (q + 1) * (b * b) - b + lo * a_lo);
        assert((a * m) * p <= ((q + 1) * (b * b) - b + lo * a_lo) * p);
        assert(((q + 1) * (b * b) - b + lo * a_lo) * p + a * p == ((q + 1) * p) * (b * b) + (lo
            * a_lo + a - b) * p);
        assert((lo * a_lo + a - b) * p < (b * b) * p);
        assert(a * (b * b) < ((q + 2) * p) * (b * b));
    }
    lemma_mod_multiples_vanish(-q, a, p);
    assert(a - q * p == p * (-q) + a) by (nonlinear_arith);
}

/// The shift-only reduction of a word: with `d = 2^64 / k` and a modulus
/// `p < d` whose gap `2^64 - k * p` is below `p`, `a - (a / d) * p` lies in
/// `[0, 2p)` and is congruent to `a`.
pub proof fn lemma_opt_word(a: int, p: int, k: int, d: int)
    requires
        k >= 1,
        1 <= p < d,
        k * d == two_64(),
        two_64() - k * p < p,
        0 <= a < two_64(),
    ensures
        0 <= (a / d) * p <= a,
        0 <= a - (a / d) * p < 2 * p,
        (a - (a / d) * p) % p == a % p,
{
    let q = a / d;
    lemma_div_bounds(a, d);
    assert(0 <= q < k) by (nonlinear_arith)
        requires
            q * d <= a < q * d + d,
            0 <= a < k * d,
            d > 0,
    ;
    assert(0 <= q * p <= q * d) by (nonlinear_arith)
        requires
            q >= 0,
            1 <= p < d,
    ;
    assert(a - q * p < 2 * p) by (nonlinear_arith)
        requires
            a < q * d + d,
            0 <= q < k,
            k * d - k * p < p,
            1 <= p < d,
    {
        // a - q p < d + q (d - p) <= d + (k - 1)(d - p) = k (d - p) + p
        assert(q * (d - p) <= (k - 1) * (d - p));
        assert((k - 1) * (d - p) == k * d - k * p - (d - p));
    }
    lemma_mod_multiples_vanish(-q, a, p);
    assert(a - q * p == p * (-q) + a) by (nonlinear_arith);
}

} // verus!
