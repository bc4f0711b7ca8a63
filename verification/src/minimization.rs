//! Minimized ciphertexts: why a ciphertext that was scaled down to the
//! first modulus still decrypts to the values it carried.
use crate::arith::lemma_div_bounds;
use crate::ciphertext::{scaled_in_ntt, Ciphertext};
use crate::correctness::{
    carries, decoded, fresh_rows, holds, lemma_fresh_carries, lemma_round_to_multiple,
    lemma_scaling_gap, lemma_small_sample, lemma_transform_combines, scaling, uses_reference_tables,
};
use crate::ntt::lemma_backward_sizes;
use crate::plaintext::Plaintext;
use crate::products::{
    integer_product, lemma_integer_product_len, lemma_product_bound, lemma_product_is_linear,
    lemma_product_residues, lemma_transform_of_product,
};
use crate::random::{chacha8_words, Seed};
use crate::rns::product_of;
use crate::rq::{
    column, converted, power_rows, rows_combine, rows_in, rows_product, small_coefficients,
    small_rows, Context, Operation, Representation,
};
use crate::scaler::{centered_lift, scale_value, scaled_rows};
use crate::secret_key::{key_power, phase, recentered, SecretKey};
use crate::zq::reduced;
use vstd::arithmetic::div_mod::*;
use vstd::prelude::*;

verus! {

/// Dividing by `d` with rounding to the nearest integer moves a number by
/// at most the half of `d`, measured in multiples of `1 / d`.
pub proof fn lemma_rounding_error(x: int, d: int)
    requires
        d >= 1,
    ensures
        -d <= 2 * (d * scale_value(x, 1, d as nat, false) - x) <= d,
{
    let half = d / 2;
    lemma_div_bounds(d, 2);
    if x >= 0 {
        let y = (x * 1 + half) / d;
        lemma_div_bounds(x + half, d);
        assert(y * d == d * y) by (nonlinear_arith);
    } else {
        let y = (-x * 1 + half) / d;
        lemma_div_bounds(-x + half, d);
        assert(y * d == d * y) by (nonlinear_arith);
        assert(d * (-y) == -(d * y)) by (nonlinear_arith);
    }
}

/// A number `u` with `t * u == (v + t * k) * q + rest`, for a value `v`
/// below `t` and a rest within a quarter of `q` of zero, is decoded to `v`.
pub proof fn lemma_decoded_multiple(u: int, v: int, k: int, rest: int, t: int, q: int)
    requires
        t >= 2,
        0 <= v < t,
        q >= 2 * t,
        t * u == (v + t * k) * q + rest,
        -q <= 4 * rest <= q,
    ensures
        decoded(u, t, q, q) == v,
{
    let r = u % q;
    lemma_fundamental_div_mod(u, q);
    lemma_mod_bound(u, q);
    lemma_div_bounds(q, 2);
    let kappa: int = if r >= q / 2 {
        u / q + 1
    } else {
        u / q
    };
    let y = centered_lift(r as nat, q as nat);
    assert(y == u - kappa * q) by (nonlinear_arith)
        requires
            u == q * (u / q) + r,
            y == if r >= q / 2 {
                r - q
            } else {
                r
            },
            kappa == if r >= q / 2 {
                u / q + 1
            } else {
                u / q
            },
    ;
    assert(-(q + 1) <= 2 * y < q);
    let c = v + t * (k - kappa);
    assert(t * y == c * q + rest) by (nonlinear_arith)
        requires
            t * u == (v + t * k) * q + rest,
            y == u - kappa * q,
            c == v + t * (k - kappa),
    ;
    // c lies between -t and t
    assert(c < t) by {
        if c >= t {
            assert(c * q >= t * q) by (nonlinear_arith)
                requires
                    c >= t,
                    q > 0,
            ;
            assert(2 * (t * y) < t * q) by (nonlinear_arith)
                requires
                    2 * y < q,
                    t >= 2,
            ;
            assert(t * q >= 2 * q) by (nonlinear_arith)
                requires
                    t >= 2,
                    q > 0,
            ;
        }
    }
    assert(c >= -t) by {
        if c <= -t - 1 {
            assert(c * q <= (-t - 1) * q) by (nonlinear_arith)
                requires
                    c <= -t - 1,
                    q > 0,
            ;
            assert(2 * (t * y) >= -(t * (q + 1))) by (nonlinear_arith)
                requires
                    2 * y >= -(q + 1),
                    t >= 2,
            ;
            assert((-t - 1) * q == -(t * q) - q) by (nonlinear_arith);
            assert(t * (q + 1) == t * q + t) by (nonlinear_arith);
            assert(t * q >= 4 * t) by (nonlinear_arith)
                requires
                    q >= 2 * t,
                    t >= 2,
            ;
        }
    }
    // and is v or v - t
    assert(c == v || c == v - t) by (nonlinear_arith)
        requires
            c == v + t * (k - kappa),
            -t <= c < t,
            0 <= v < t,
    {
        let d = k - kappa;
        if d >= 1 {
            assert(t * d >= t);
        }
        if d <= -2 {
            assert(t * d <= -2 * t);
        }
    }
    let w = scale_value(y, t as nat, q as nat, false);
    assert(w == c) by {
        lemma_div_bounds(q, 4);
        if y >= 0 {
            assert(y * t == t * y) by (nonlinear_arith);
            lemma_round_to_multiple(c, rest, q);
        } else {
            assert(-y * t == (-c) * q + (-rest)) by (nonlinear_arith)
                requires
                    t * y == c * q + rest,
            ;
            lemma_round_to_multiple(-c, -rest, q);
        }
    }
    // back into [0, t)
    let d = c % q;
    if c >= 0 {
        assert(c == v);
        lemma_small_mod(c as nat, q as nat);
        lemma_small_mod((c + t) as nat, q as nat);
        assert((d + t) % q == v + t);
        lemma_mod_add_multiples_vanish(v, t);
        lemma_small_mod(v as nat, t as nat);
        assert((v + t) % t == v);
    } else {
        assert(c == v - t);
        lemma_mod_add_multiples_vanish(c, q);
        lemma_small_mod((c + q) as nat, q as nat);
        assert(d == c + q);
        lemma_mod_add_multiples_vanish(c + t, q);
        lemma_small_mod((c + t) as nat, q as nat);
        assert(d + t == q + (c + t));
        assert((d + t) % q == v);
        lemma_small_mod(v as nat, t as nat);
    }
    assert(decoded(u, t, q, q) == (((w % q) + t) % q) % t);
}

/// In a context that uses the reference tables, rows in the transform
/// domain come back from the power basis as they were.
pub proof fn lemma_rows_back_and_forth(ctx: Context, rows: Seq<Seq<u64>>)
    requires
        ctx.wf(),
        uses_reference_tables(ctx),
        rows_in(rows, ctx.moduli(), ctx.degree()),
    ensures
        rows_in(
            converted(ctx, Representation::Ntt, Representation::PowerBasis, rows),
            ctx.moduli(),
            ctx.degree(),
        ),
        converted(
            ctx,
            Representation::PowerBasis,
            Representation::Ntt,
            converted(ctx, Representation::Ntt, Representation::PowerBasis, rows),
        ) == rows,
{
    let m = ctx.moduli();
    let n = ctx.degree();
    let back = converted(ctx, Representation::Ntt, Representation::PowerBasis, rows);
    let again = converted(ctx, Representation::PowerBasis, Representation::Ntt, back);
    assert forall|i: int| 0 <= i < m.len() implies (#[trigger] back[i]).len() == n && reduced(
        back[i],
        m[i],
    ) && again[i] == rows[i] by {
        let op = ctx.ops()[i];
        assert(op.wf() && op.modulus() == m[i] && op.size() == n && !op.accelerated());
        assert(rows[i].len() == n && reduced(rows[i], m[i]));
        lemma_backward_sizes(op, rows[i]);
        op.lemma_round_trip_back(rows[i]);
    }
    assert(again =~= rows);
}

/// In a context that uses the reference tables, rows in the power basis
/// come back from the transform domain as they were.
pub proof fn lemma_rows_forth_and_back(ctx: Context, rows: Seq<Seq<u64>>)
    requires
        ctx.wf(),
        uses_reference_tables(ctx),
        rows_in(rows, ctx.moduli(), ctx.degree()),
    ensures
        converted(
            ctx,
            Representation::Ntt,
            Representation::PowerBasis,
            converted(ctx, Representation::PowerBasis, Representation::Ntt, rows),
        ) == rows,
{
    let m = ctx.moduli();
    let n = ctx.degree();
    let forth = converted(ctx, Representation::PowerBasis, Representation::Ntt, rows);
    let again = converted(ctx, Representation::Ntt, Representation::PowerBasis, forth);
    assert forall|i: int| 0 <= i < m.len() implies #[trigger] again[i] == rows[i] by {
        let op = ctx.ops()[i];
        assert(op.wf() && op.modulus() == m[i] && op.size() == n && !op.accelerated());
        assert(rows[i].len() == n && reduced(rows[i], m[i]));
        op.lemma_round_trip(rows[i]);
    }
    assert(again =~= rows);
}

/// Over a single modulus, the number that stands behind a residue is the
/// residue itself.
pub proof fn lemma_single_lift(ctx: Context, x: u64)
    requires
        ctx.wf(),
        ctx.moduli().len() == 1,
        x < ctx.moduli()[0],
    ensures
        ctx.rns().modulus_value() == ctx.moduli()[0],
        ctx.rns().lift_spec(seq![x]) == x,
{
    let m = ctx.moduli();
    let q = m[0] as int;
    assert(m.drop_last().len() == 0);
    assert(product_of(m.drop_last()) == 1);
    assert(product_of(m) == 1 * (m.last() as nat));
    let rests = seq![x];
    assert forall|i: int| 0 <= i < rests.len() implies (#[trigger] rests[i]) as int == (x as int)
        % (ctx.rns().moduli()[i] as int) by {
        lemma_small_mod(x as nat, q as nat);
    }
    ctx.rns().lemma_lift_of_residues(x as int, rests);
    lemma_small_mod(x as nat, q as nat);
}

/// The centered representative of a number modulo a multiple of `q` has
/// the residue of the number modulo `q`.
pub proof fn lemma_centered_residue(x: nat, big: nat, q: int)
    requires
        q > 0,
        big % (q as nat) == 0,
    ensures
        centered_lift(x, big) % q == (x as int) % q,
{
    if x >= big / 2 {
        lemma_fundamental_div_mod(big as int, q);
        let c = (big as int) / q;
        assert(x - big + q * c == x as int);
        lemma_mod_multiples_vanish(c, x - big, q);
    }
}

/// In a context that uses the reference tables, the sum `a0 + a1 * s` of
/// rows in the transform domain is, in the power basis, the sum of `a0` and
/// of the product modulo `x^n + 1` of `a1` and `s`, each in the power
/// basis.
pub proof fn lemma_pair_in_power_basis(
    ctx: Context,
    a0: Seq<Seq<u64>>,
    a1: Seq<Seq<u64>>,
    sp: Seq<Seq<u64>>,
)
    requires
        ctx.wf(),
        uses_reference_tables(ctx),
        rows_in(a0, ctx.moduli(), ctx.degree()),
        rows_in(a1, ctx.moduli(), ctx.degree()),
        rows_in(sp, ctx.moduli(), ctx.degree()),
    ensures
        converted(
            ctx,
            Representation::Ntt,
            Representation::PowerBasis,
            rows_combine(
                Operation::Add,
                a0,
                rows_combine(
                    Operation::Mul,
                    a1,
                    converted(ctx, Representation::PowerBasis, Representation::Ntt, sp),
                    ctx.moduli(),
                ),
                ctx.moduli(),
            ),
        ) == rows_combine(
            Operation::Add,
            converted(ctx, Representation::Ntt, Representation::PowerBasis, a0),
            rows_product(
                converted(ctx, Representation::Ntt, Representation::PowerBasis, a1),
                sp,
                ctx.moduli(),
            ),
            ctx.moduli(),
        ),
{
    let m = ctx.moduli();
    let b0 = converted(ctx, Representation::Ntt, Representation::PowerBasis, a0);
    let b1 = converted(ctx, Representation::Ntt, Representation::PowerBasis, a1);
    lemma_rows_back_and_forth(ctx, a0);
    lemma_rows_back_and_forth(ctx, a1);
    lemma_transform_of_product(ctx, b1, sp);
    let product = rows_product(b1, sp, m);
    lemma_transform_combines(Operation::Add, ctx, b0, product);
    lemma_rows_forth_and_back(ctx, rows_combine(Operation::Add, b0, product, m));
}

/// A coefficient of a pair `(x0, x1)` that holds `e + v * delta` under the
/// key, up to a multiple of `big = q0 * d`, still decodes to `v` after both
/// polynomials were divided by `d` and rounded: the rounding adds an error
/// of at most `(1 + n * kb) / 2` to the sum, for a key with `n`
/// coefficients within `kb` of zero.
pub proof fn lemma_switched_coefficient(
    x0: Seq<int>,
    x1: Seq<int>,
    y0: Seq<int>,
    y1: Seq<int>,
    key: Seq<int>,
    j: int,
    e: int,
    v: int,
    delta: int,
    multiple: int,
    t: int,
    q0: int,
    d: int,
    b: int,
    kb: int,
)
    requires
        0 <= j < key.len(),
        x0.len() == key.len(),
        x1.len() == key.len(),
        y0.len() == key.len(),
        y1.len() == key.len(),
        forall|k: int| 0 <= k < key.len() ==> #[trigger] y0[k] == scale_value(x0[k], 1, d as nat, false),
        forall|k: int| 0 <= k < key.len() ==> #[trigger] y1[k] == scale_value(x1[k], 1, d as nat, false),
        forall|k: int| 0 <= k < key.len() ==> -kb <= #[trigger] key[k] <= kb,
        t >= 2,
        d >= 1,
        q0 >= 2 * t,
        b >= 0,
        kb >= 0,
        0 <= v < t,
        -b <= e <= b,
        -t < t * delta - q0 * d <= t,
        x0[j] + integer_product(x1, key)[j] == e + v * delta + multiple * (q0 * d),
        q0 * d >= 4 * t * (t + b) + 2 * t * d * (1 + key.len() * kb),
    ensures
        decoded(y0[j] + integer_product(y1, key)[j], t, q0, q0) == v,
{
    let n = key.len() as int;
    let big = q0 * d;
    let half = d / 2;
    lemma_div_bounds(d, 2);
    let dy1 = Seq::new(key.len(), |k: int| d * y1[k]);
    let r1 = Seq::new(key.len(), |k: int| d * y1[k] - x1[k]);
    lemma_integer_product_len(x1, key);
    lemma_integer_product_len(y1, key);
    lemma_integer_product_len(r1, key);
    lemma_integer_product_len(dy1, key);
    assert forall|k: int| 0 <= k < n implies #[trigger] dy1[k] == x1[k] + 1 * r1[k] by {}
    lemma_product_is_linear(x1, r1, 1, dy1, key);
    assert forall|k: int| 0 <= k < n implies #[trigger] dy1[k] == y1[k] + (d - 1) * y1[k] by {
        assert(d * y1[k] == y1[k] + (d - 1) * y1[k]) by (nonlinear_arith);
    }
    lemma_product_is_linear(y1, y1, d - 1, dy1, key);
    assert forall|k: int| 0 <= k < n implies -half <= #[trigger] r1[k] <= half by {
        lemma_rounding_error(x1[k], d);
    }
    lemma_product_bound(r1, key, half, kb);
    lemma_rounding_error(x0[j], d);
    let r0 = d * y0[j] - x0[j];
    let py = integer_product(y1, key)[j];
    let px = integer_product(x1, key)[j];
    let pr = integer_product(r1, key)[j];
    let pd = integer_product(dy1, key)[j];
    assert(pd == px + 1 * pr);
    assert(pd == py + (d - 1) * py);
    assert(d * py == px + pr) by (nonlinear_arith)
        requires
            pd == px + 1 * pr,
            pd == py + (d - 1) * py,
    ;
    let u = y0[j] + py;
    let rho = r0 + pr;
    assert(d * u == e + v * delta + multiple * big + rho) by (nonlinear_arith)
        requires
            u == y0[j] + py,
            r0 == d * y0[j] - x0[j],
            d * py == px + pr,
            rho == r0 + pr,
            x0[j] + px == e + v * delta + multiple * big,
    ;
    // the error of the rounding
    let w = n * half * kb;
    assert(-w <= pr <= w);
    assert(2 * w <= n * d * kb) by (nonlinear_arith)
        requires
            w == n * half * kb,
            2 * half <= d,
            n >= 0,
            kb >= 0,
    {
        assert(n * kb >= 0);
        assert(2 * w == (n * kb) * (2 * half));
        assert((n * kb) * (2 * half) <= (n * kb) * d);
        assert((n * kb) * d == n * d * kb);
    }
    let room = d + n * d * kb;
    assert(-room <= 2 * rho <= room);
    assert(t * d * (1 + n * kb) == t * room) by (nonlinear_arith)
        requires
            room == d + n * d * kb,
    ;
    // t * d * u is a multiple of big, up to a rest
    let g = t * delta - big;
    let rest_d = t * e + v * g + t * rho;
    assert(t * (d * u) == (v + t * multiple) * big + rest_d) by (nonlinear_arith)
        requires
            d * u == e + v * delta + multiple * big + rho,
            g == t * delta - big,
            rest_d == t * e + v * g + t * rho,
    ;
    let rest = t * u - (v + t * multiple) * q0;
    assert(rest_d == d * rest) by (nonlinear_arith)
        requires
            t * (d * u) == (v + t * multiple) * big + rest_d,
            big == q0 * d,
            rest == t * u - (v + t * multiple) * q0,
    ;
    assert(-(t * b) <= t * e <= t * b) by (nonlinear_arith)
        requires
            t >= 2,
            -b <= e <= b,
    ;
    assert(-(t * t) <= v * g <= t * t) by (nonlinear_arith)
        requires
            0 <= v < t,
            -t < g <= t,
    {
        assert(v * g <= v * t);
        assert(v * g >= -(v * t));
        assert(v * t <= t * t);
    }
    assert(-(t * room) <= 2 * (t * rho) <= t * room) by (nonlinear_arith)
        requires
            t >= 2,
            -room <= 2 * rho <= room,
    ;
    assert(4 * t * (t + b) == 4 * (t * t) + 4 * (t * b)) by (nonlinear_arith);
    assert(2 * t * d * (1 + n * kb) == 2 * (t * room)) by (nonlinear_arith)
        requires
            t * d * (1 + n * kb) == t * room,
    ;
    assert(-big <= 4 * rest_d <= big);
    assert(-q0 <= 4 * rest <= q0) by (nonlinear_arith)
        requires
            -big <= 4 * rest_d <= big,
            rest_d == d * rest,
            big == q0 * d,
            d >= 1,
    {
        if 4 * rest > q0 {
            assert(d * (4 * rest) >= d * (q0 + 1));
        }
        if 4 * rest < -q0 {
            assert(d * (4 * rest) <= d * (-q0 - 1));
        }
    }
    lemma_decoded_multiple(u, v, multiple, rest, t, q0);
}

/// Whether `min` holds the polynomials of `ct`, each scaled down to the
/// first modulus.
pub open spec fn minimizes(ct: &Ciphertext, min: &Ciphertext) -> bool {
    &&& min.par() == ct.par()
    &&& min.minimized()
    &&& min.polys().len() == ct.polys().len()
    &&& forall|i: int|
        0 <= i < ct.polys().len() ==> (#[trigger] min.polys()[i]).rows() == scaled_in_ntt(
            ct.polys()[i].rows(),
            ct.par().modswitch(),
        )
}

/// Whether the key is the polynomial with the coefficients `key`, which
/// are within `kb` of zero.
pub open spec fn key_is(sk: &SecretKey, key: Seq<int>, kb: int) -> bool {
    &&& key.len() == sk.par().spec_degree()
    &&& forall|j: int| 0 <= j < key.len() ==> -kb <= #[trigger] key[j] <= kb
    &&& sk.s().rows() == converted(
        sk.par().ctx(),
        Representation::PowerBasis,
        Representation::NttShoup,
        power_rows(key, sk.par().spec_moduli(), sk.par().spec_degree()),
    )
}

/// Whether the moduli leave room for errors within `b` of zero and for the
/// rounding of a minimization under a key with coefficients within `kb` of
/// zero: with the plaintext modulus `t`, the degree `n`, the first modulus
/// `q0` and the product `q` of all the moduli, `q` is at least
/// `4 * t * (t + b) + 2 * t * (q / q0) * (1 + n * kb)`, and `q0` at least
/// `2 * t`.
pub open spec fn has_room_minimized(sk: &SecretKey, b: int, kb: int) -> bool {
    let t = sk.par().spec_plaintext() as int;
    let q = sk.par().big_q() as int;
    let q0 = sk.par().spec_moduli()[0] as int;
    &&& q >= 4 * t * (t + b) + 2 * t * (q / q0) * (1 + sk.par().spec_degree() * kb)
    &&& q0 >= 2 * t
}

/// The centered numbers that stand behind the columns of rows.
pub open spec fn centered_columns(ctx: Context, rows: Seq<Seq<u64>>) -> Seq<int> {
    Seq::new(
        ctx.degree(),
        |k: int|
            centered_lift(ctx.rns().lift_spec(column(rows, k)), ctx.rns().modulus_value()),
    )
}

/// The centered number that stands behind a column has the residues of the
/// column.
pub proof fn lemma_centered_columns(ctx: Context, rows: Seq<Seq<u64>>, l: int, k: int)
    requires
        ctx.wf(),
        rows_in(rows, ctx.moduli(), ctx.degree()),
        0 <= l < ctx.moduli().len(),
        0 <= k < ctx.degree(),
    ensures
        centered_columns(ctx, rows)[k] % (ctx.moduli()[l] as int) == rows[l][k] as int,
{
    let m = ctx.moduli();
    let q = m[l] as int;
    let col = column(rows, k);
    ctx.rns().lemma_lift_residues(col, l);
    assert(col[l] == rows[l][k]);
    assert(rows[l].len() == ctx.degree() && reduced(rows[l], m[l]));
    lemma_small_mod(rows[l][k] as nat, q as nat);
    assert forall|i: int| 0 <= i < m.len() implies #[trigger] m[i] >= 1 by {}
    crate::rns::lemma_factor_divides(m, l);
    lemma_centered_residue(ctx.rns().lift_spec(col), ctx.rns().modulus_value(), q);
}

/// Where the rows `b0` and `b1` hold the residues of the numbers `x0` and
/// `x1`, the rows of `b0 + b1 * key` hold the residues of the coefficients
/// of `x0 + x1 * key`, computed over the integers.
pub proof fn lemma_pair_residues(
    m: Seq<u64>,
    n: nat,
    b0: Seq<Seq<u64>>,
    b1: Seq<Seq<u64>>,
    key: Seq<int>,
    x0: Seq<int>,
    x1: Seq<int>,
    l: int,
    j: int,
)
    requires
        rows_in(b0, m, n),
        rows_in(b1, m, n),
        key.len() == n,
        x0.len() == n,
        x1.len() == n,
        0 <= l < m.len(),
        0 <= j < n,
        m[l] > 0,
        forall|k: int| 0 <= k < n ==> (#[trigger] b0[l][k]) as int == x0[k] % (m[l] as int),
        forall|k: int| 0 <= k < n ==> (#[trigger] b1[l][k]) as int == x1[k] % (m[l] as int),
    ensures
        rows_combine(Operation::Add, b0, rows_product(b1, power_rows(key, m, n), m), m)[l][j]
            as int == (x0[j] + integer_product(x1, key)[j]) % (m[l] as int),
{
    let q = m[l] as int;
    let sp = power_rows(key, m, n);
    let product = rows_product(b1, sp, m);
    assert(b0[l].len() == n && b1[l].len() == n && sp[l].len() == n);
    assert forall|k: int| 0 <= k < key.len() implies (#[trigger] sp[l][k]) as int == key[k]
        % q by {
        lemma_mod_bound(key[k], q);
    }
    lemma_product_residues(x1, key, b1[l], sp[l], m[l]);
    assert(product[l] == crate::ntt::negacyclic_product(b1[l], sp[l], m[l]));
    let found = rows_combine(Operation::Add, b0, product, m)[l][j];
    lemma_mod_bound(b0[l][j] + product[l][j], q);
    assert(found as int == (b0[l][j] + product[l][j]) % q);
    lemma_add_mod_noop(x0[j], integer_product(x1, key)[j], q);
}

/// The rows, in the power basis of the plaintext context, of the sum
/// `c[0] + c[1] * s` of a minimized ciphertext of two polynomials: the sum
/// of the first polynomial scaled down and of the product of the second
/// one scaled down with the key.
pub open spec fn minimized_rows(sk: &SecretKey, ct: &Ciphertext, key: Seq<int>) -> Seq<Seq<u64>> {
    let par = sk.par();
    let pm = par.plaintext_ctx().moduli();
    let sc = par.modswitch();
    let b0 = converted(
        par.ctx(),
        Representation::Ntt,
        Representation::PowerBasis,
        ct.polys()[0].rows(),
    );
    let b1 = converted(
        par.ctx(),
        Representation::Ntt,
        Representation::PowerBasis,
        ct.polys()[1].rows(),
    );
    rows_combine(
        Operation::Add,
        scaled_rows(b0, sc.from(), sc.to(), sc.num(), sc.den(), false),
        rows_product(
            scaled_rows(b1, sc.from(), sc.to(), sc.num(), sc.den(), false),
            power_rows(key, pm, par.spec_degree()),
            pm,
        ),
        pm,
    )
}

/// In the power basis, the sum `c[0] + c[1] * s` of a minimized ciphertext
/// of two polynomials is made of the polynomials scaled down and the key.
pub proof fn lemma_minimized_phase(
    sk: &SecretKey,
    ct: &Ciphertext,
    min: &Ciphertext,
    key: Seq<int>,
    kb: int,
)
    requires
        sk.wf(),
        ct.wf(),
        min.wf(),
        ct.par() == sk.par(),
        !ct.minimized(),
        uses_reference_tables(sk.par().ctx()),
        uses_reference_tables(sk.par().plaintext_ctx()),
        ct.polys().len() == 2,
        key_is(sk, key, kb),
        minimizes(ct, min),
    ensures
        converted(
            sk.par().plaintext_ctx(),
            Representation::Ntt,
            Representation::PowerBasis,
            phase(min.polys(), sk.key_rows(true), sk.par().plaintext_ctx().moduli(), 2),
        ) == minimized_rows(sk, ct, key),
{
    let par = sk.par();
    let ctx = par.ctx();
    let pctx = par.plaintext_ctx();
    let m = par.spec_moduli();
    let pm = pctx.moduli();
    let n = par.spec_degree();
    let sc = par.modswitch();
    assert(ctx.moduli() == m && ctx.degree() == n && pctx.degree() == n);
    assert(pm =~= seq![m[0]]);
    assert(sc.from() == ctx && sc.to() == pctx);
    let c0 = ct.polys()[0].rows();
    let c1 = ct.polys()[1].rows();
    assert(ct.polys()[0].wf() && ct.polys()[1].wf());
    assert(ct.ctx() == ctx);
    lemma_rows_back_and_forth(ctx, c0);
    lemma_rows_back_and_forth(ctx, c1);
    let b0 = converted(ctx, Representation::Ntt, Representation::PowerBasis, c0);
    let b1 = converted(ctx, Representation::Ntt, Representation::PowerBasis, c1);
    let mp0 = scaled_rows(b0, sc.from(), sc.to(), sc.num(), sc.den(), false);
    let mp1 = scaled_rows(b1, sc.from(), sc.to(), sc.num(), sc.den(), false);
    assert(2 <= pm[0]);
    assert(rows_in(mp0, pm, n)) by {
        assert forall|i: int| 0 <= i < mp0.len() implies (#[trigger] mp0[i]).len() == n && reduced(
            mp0[i],
            pm[i],
        ) by {
            assert forall|k: int| 0 <= k < n implies #[trigger] mp0[i][k] < pm[i] by {
                let v = scale_value(centered_columns(ctx, b0)[k], sc.num(), sc.den(), false);
                lemma_mod_bound(v, pm[i] as int);
            }
        }
    }
    assert(rows_in(mp1, pm, n)) by {
        assert forall|i: int| 0 <= i < mp1.len() implies (#[trigger] mp1[i]).len() == n && reduced(
            mp1[i],
            pm[i],
        ) by {
            assert forall|k: int| 0 <= k < n implies #[trigger] mp1[i][k] < pm[i] by {
                let v = scale_value(centered_columns(ctx, b1)[k], sc.num(), sc.den(), false);
                lemma_mod_bound(v, pm[i] as int);
            }
        }
    }
    let m0 = min.polys()[0].rows();
    let m1 = min.polys()[1].rows();
    assert(m0 == converted(pctx, Representation::PowerBasis, Representation::Ntt, mp0));
    assert(m1 == converted(pctx, Representation::PowerBasis, Representation::Ntt, mp1));
    assert(min.polys()[0].wf() && min.polys()[1].wf());
    assert(min.ctx() == pctx);
    // the key over the first modulus
    let sp = power_rows(key, m, n);
    assert(rows_in(sp, m, n)) by {
        assert forall|i: int| 0 <= i < sp.len() implies (#[trigger] sp[i]).len() == n && reduced(
            sp[i],
            m[i],
        ) by {
            assert(2 <= m[i]);
            assert forall|k: int| 0 <= k < n implies #[trigger] sp[i][k] < m[i] by {
                lemma_mod_bound(key[k], m[i] as int);
            }
        }
    }
    lemma_rows_forth_and_back(ctx, sp);
    let s = sk.s().rows();
    assert(s =~= converted(ctx, Representation::PowerBasis, Representation::Ntt, sp));
    assert(converted(ctx, Representation::NttShoup, Representation::PowerBasis, s) =~= sp);
    let sp0 = power_rows(key, pm, n);
    assert(sp0 =~= seq![sp[0]]) by {
        assert(sp0.len() == 1);
        assert(sp0[0] =~= sp[0]);
    }
    assert(rows_in(sp0, pm, n));
    let ks = sk.key_rows(true);
    assert(ks == converted(pctx, Representation::PowerBasis, Representation::Ntt, sp0));
    // the sum of a pair
    let p = min.polys();
    assert(phase(p, ks, pm, 1) == m0);
    assert(key_power(ks, pm, 1) == ks);
    assert(phase(p, ks, pm, 2) == rows_combine(
        Operation::Add,
        phase(p, ks, pm, 1),
        rows_combine(Operation::Mul, p[1].rows(), key_power(ks, pm, 1), pm),
        pm,
    ));
    lemma_pair_in_power_basis(pctx, m0, m1, sp0);
    lemma_rows_forth_and_back(pctx, mp0);
    lemma_rows_forth_and_back(pctx, mp1);
}

/// The numbers behind a ciphertext of two polynomials that carries values
/// blurred by errors: with the key, they give the value times the scaling
/// constant plus the error, up to a multiple of the product of the moduli.
pub proof fn lemma_carried_numbers(
    sk: &SecretKey,
    ct: &Ciphertext,
    w: Seq<Seq<u64>>,
    vals: Seq<u64>,
    errs: Seq<int>,
    b: int,
    key: Seq<int>,
    kb: int,
    j: int,
)
    requires
        sk.wf(),
        ct.wf(),
        uses_reference_tables(sk.par().ctx()),
        ct.polys().len() == 2,
        carries(sk, ct, w),
        holds(
            w,
            sk.par().spec_moduli(),
            sk.par().spec_degree(),
            sk.par().spec_plaintext() as int,
            scaling(sk),
            vals,
            errs,
            b,
        ),
        key_is(sk, key, kb),
        0 <= j < sk.par().spec_degree(),
    ensures
        ({
            let ctx = sk.par().ctx();
            let x0 = centered_columns(
                ctx,
                converted(
                    ctx,
                    Representation::Ntt,
                    Representation::PowerBasis,
                    ct.polys()[0].rows(),
                ),
            );
            let x1 = centered_columns(
                ctx,
                converted(
                    ctx,
                    Representation::Ntt,
                    Representation::PowerBasis,
                    ct.polys()[1].rows(),
                ),
            );
            (x0[j] + integer_product(x1, key)[j] - (errs[j] + vals[j] * scaling(sk))) % (
            sk.par().big_q() as int) == 0
        }),
{
    let par = sk.par();
    let ctx = par.ctx();
    let m = par.spec_moduli();
    let n = par.spec_degree();
    let big = par.big_q();
    let delta = scaling(sk);
    assert(ctx.moduli() == m && ctx.degree() == n);
    assert(ctx.rns().modulus_value() == big);
    let c0 = ct.polys()[0].rows();
    let c1 = ct.polys()[1].rows();
    assert(ct.polys()[0].wf() && ct.polys()[1].wf());
    assert(ct.ctx() == ctx);
    lemma_rows_back_and_forth(ctx, c0);
    lemma_rows_back_and_forth(ctx, c1);
    let b0 = converted(ctx, Representation::Ntt, Representation::PowerBasis, c0);
    let b1 = converted(ctx, Representation::Ntt, Representation::PowerBasis, c1);
    let sp = power_rows(key, m, n);
    assert(rows_in(sp, m, n)) by {
        assert forall|i: int| 0 <= i < sp.len() implies (#[trigger] sp[i]).len() == n && reduced(
            sp[i],
            m[i],
        ) by {
            assert(2 <= m[i]);
            assert forall|k: int| 0 <= k < n implies #[trigger] sp[i][k] < m[i] by {
                lemma_mod_bound(key[k], m[i] as int);
            }
        }
    }
    let s = sk.s().rows();
    assert(s =~= converted(ctx, Representation::PowerBasis, Representation::Ntt, sp));
    let p = ct.polys();
    assert(phase(p, s, m, 1) == c0);
    assert(key_power(s, m, 1) == s);
    assert(phase(p, s, m, 2) == rows_combine(
        Operation::Add,
        phase(p, s, m, 1),
        rows_combine(Operation::Mul, p[1].rows(), key_power(s, m, 1), m),
        m,
    ));
    lemma_pair_in_power_basis(ctx, c0, c1, sp);
    lemma_rows_forth_and_back(ctx, w);
    assert(w == rows_combine(Operation::Add, b0, rows_product(b1, sp, m), m));
    let x0 = centered_columns(ctx, b0);
    let x1 = centered_columns(ctx, b1);
    let total = x0[j] + integer_product(x1, key)[j];
    let carried = errs[j] + vals[j] * delta;
    assert forall|l: int| 0 <= l < m.len() implies (total - carried) % (
    #[trigger] ctx.rns().moduli()[l] as int) == 0 by {
        let q = m[l] as int;
        assert(2 <= m[l]);
        assert forall|k: int| 0 <= k < n implies (#[trigger] b0[l][k]) as int == x0[k] % q by {
            lemma_centered_columns(ctx, b0, l, k);
        }
        assert forall|k: int| 0 <= k < n implies (#[trigger] b1[l][k]) as int == x1[k] % q by {
            lemma_centered_columns(ctx, b1, l, k);
        }
        lemma_pair_residues(m, n, b0, b1, key, x0, x1, l, j);
        assert(w[l][j] as int == total % q);
        assert(w[l][j] as int == carried % q);
        lemma_sub_mod_noop(total, carried, q);
        lemma_small_mod(0, q as nat);
    }
    ctx.rns().lemma_multiple_of_products(total - carried, m.len() as int);
    assert(m.subrange(0, m.len() as int) =~= m);
}

/// A ciphertext of two polynomials that carries values blurred by errors
/// still decrypts to the values once it is minimized, as long as the moduli
/// leave room for the errors and for the rounding.
pub proof fn lemma_minimized_decryption(
    sk: &SecretKey,
    ct: &Ciphertext,
    min: &Ciphertext,
    w: Seq<Seq<u64>>,
    vals: Seq<u64>,
    errs: Seq<int>,
    b: int,
    key: Seq<int>,
    kb: int,
)
    requires
        sk.wf(),
        ct.wf(),
        min.wf(),
        uses_reference_tables(sk.par().ctx()),
        uses_reference_tables(sk.par().plaintext_ctx()),
        ct.polys().len() == 2,
        carries(sk, ct, w),
        holds(
            w,
            sk.par().spec_moduli(),
            sk.par().spec_degree(),
            sk.par().spec_plaintext() as int,
            scaling(sk),
            vals,
            errs,
            b,
        ),
        b >= 0,
        kb >= 0,
        key_is(sk, key, kb),
        minimizes(ct, min),
        has_room_minimized(sk, b, kb),
    ensures
        sk.decrypted(min) == vals,
{
    let par = sk.par();
    let ctx = par.ctx();
    let pctx = par.plaintext_ctx();
    let m = par.spec_moduli();
    let pm = pctx.moduli();
    let n = par.spec_degree();
    let t = par.spec_plaintext();
    let big = par.big_q();
    let q0 = m[0];
    let delta = scaling(sk);
    let sc = par.modswitch();
    assert(ctx.moduli() == m && ctx.degree() == n && pctx.degree() == n);
    assert(ctx.rns().modulus_value() == big);
    assert(pm =~= seq![q0]);
    assert(2 <= t && 2 <= q0);
    assert forall|i: int| 0 <= i < m.len() implies #[trigger] m[i] >= 1 by {
        assert(2 <= m[i]);
    }
    // the product of the moduli is the first modulus times the others
    crate::rns::lemma_factor_divides(m, 0);
    lemma_fundamental_div_mod(big as int, q0 as int);
    let d = (big as int) / (q0 as int);
    assert(big == q0 * d);
    assert(d >= 1) by (nonlinear_arith)
        requires
            big == q0 * d,
            big >= 1,
            q0 >= 2,
    ;
    assert(sc.from() == ctx && sc.to() == pctx && sc.num() == 1 && sc.den() == d);
    lemma_scaling_gap(big, t as nat);
    // in the power basis, the ciphertext is the pair (b0, b1)
    let c0 = ct.polys()[0].rows();
    let c1 = ct.polys()[1].rows();
    assert(ct.polys()[0].wf() && ct.polys()[1].wf());
    assert(ct.ctx() == ctx);
    lemma_rows_back_and_forth(ctx, c0);
    lemma_rows_back_and_forth(ctx, c1);
    let b0 = converted(ctx, Representation::Ntt, Representation::PowerBasis, c0);
    let b1 = converted(ctx, Representation::Ntt, Representation::PowerBasis, c1);
    // the numbers behind the pair, and the numbers behind the scaled pair
    let x0 = centered_columns(ctx, b0);
    let x1 = centered_columns(ctx, b1);
    let y0 = Seq::new(n, |k: int| scale_value(x0[k], 1, d as nat, false));
    let y1 = Seq::new(n, |k: int| scale_value(x1[k], 1, d as nat, false));
    let mp0 = scaled_rows(b0, ctx, pctx, 1, d as nat, false);
    let mp1 = scaled_rows(b1, ctx, pctx, 1, d as nat, false);
    assert(mp0.len() == 1 && mp1.len() == 1);
    assert(mp0[0].len() == n && mp1[0].len() == n);
    assert(rows_in(mp0, pm, n)) by {
        assert forall|k: int| 0 <= k < n implies #[trigger] mp0[0][k] < pm[0] by {
            lemma_mod_bound(y0[k], q0 as int);
        }
    }
    assert(rows_in(mp1, pm, n)) by {
        assert forall|k: int| 0 <= k < n implies #[trigger] mp1[0][k] < pm[0] by {
            lemma_mod_bound(y1[k], q0 as int);
        }
    }
    lemma_minimized_phase(sk, ct, min, key, kb);
    let z = minimized_rows(sk, ct, key);
    assert(z == rows_combine(
        Operation::Add,
        mp0,
        rows_product(mp1, power_rows(key, pm, n), pm),
        pm,
    ));
    assert(z.len() == 1 && z[0].len() == n);
    let sm = par.scaler_minimized();
    assert(sm.from() == pctx && sm.to() == pctx && sm.num() == t && sm.den() == q0);
    assert(min.ctx() == pctx);
    let row = scaled_rows(z, pctx, pctx, t as nat, q0 as nat, false)[0];
    let found = recentered(row, t, q0);
    assert(sk.decrypted(min) == found);
    assert(row.len() == n);
    assert forall|j: int| 0 <= j < n implies found[j] == vals[j] by {
        let e = errs[j];
        let v = vals[j] as int;
        let total = x0[j] + integer_product(x1, key)[j];
        let carried = e + v * delta;
        lemma_carried_numbers(sk, ct, w, vals, errs, b, key, kb, j);
        lemma_fundamental_div_mod(total - carried, big as int);
        let multiple = (total - carried) / (big as int);
        assert(total == e + v * delta + multiple * (q0 * d)) by (nonlinear_arith)
            requires
                total - carried == big * multiple,
                big == q0 * d,
                carried == e + v * delta,
        ;
        lemma_switched_coefficient(
            x0,
            x1,
            y0,
            y1,
            key,
            j,
            e,
            v,
            delta,
            multiple,
            t as int,
            q0 as int,
            d,
            b,
            kb,
        );
        let u = y0[j] + integer_product(y1, key)[j];
        // the minimized pair holds u modulo the first modulus
        assert forall|k: int| 0 <= k < n implies (#[trigger] mp0[0][k]) as int == y0[k] % (
        pm[0] as int) by {
            lemma_mod_bound(y0[k], q0 as int);
        }
        assert forall|k: int| 0 <= k < n implies (#[trigger] mp1[0][k]) as int == y1[k] % (
        pm[0] as int) by {
            lemma_mod_bound(y1[k], q0 as int);
        }
        lemma_pair_residues(pm, n, mp0, mp1, key, y0, y1, 0, j);
        assert(z[0][j] as int == u % (q0 as int));
        lemma_mod_bound(u, q0 as int);
        assert(column(z, j) =~= seq![z[0][j]]);
        lemma_single_lift(pctx, z[0][j]);
        let y = centered_lift(pctx.rns().lift_spec(column(z, j)), pctx.rns().modulus_value());
        assert(y == centered_lift((u % (q0 as int)) as nat, q0 as nat));
        let scaled = scale_value(y, t as nat, q0 as nat, false);
        lemma_mod_bound(scaled, q0 as int);
        assert(row[j] as int == scaled % (q0 as int));
        lemma_mod_bound(((row[j] + t) % (q0 as int)) as int, t as int);
    }
    assert(found =~= vals);
}

/// A fresh ciphertext still decrypts to its plaintext once it is
/// minimized.
///
/// This holds for a key drawn from a seed and a plaintext of the same
/// parameters, where both contexts use the reference tables of the
/// transform and the moduli leave room for the error and for the rounding.
pub proof fn lemma_minimized_round_trip(
    sk: &SecretKey,
    pt: &Plaintext,
    ct: &Ciphertext,
    min: &Ciphertext,
    key_seed: Seed,
    seed: Seed,
    error_seed: Seed,
)
    requires
        sk.wf(),
        pt.wf(),
        min.wf(),
        pt.par() == sk.par(),
        sk.s().rows() == small_rows(
            sk.par().ctx(),
            Representation::NttShoup,
            sk.par().spec_variance(),
            key_seed@,
        ),
        uses_reference_tables(sk.par().ctx()),
        uses_reference_tables(sk.par().plaintext_ctx()),
        has_room_minimized(
            sk,
            2 * sk.par().spec_variance() as int,
            2 * sk.par().spec_variance() as int,
        ),
        sk.is_encryption(ct, pt, seed, error_seed),
        minimizes(ct, min),
    ensures
        sk.decrypted(min) == pt.values(),
{
    let n = sk.par().spec_degree();
    let variance = sk.par().spec_variance();
    let b = 2 * variance as int;
    let key = small_coefficients(key_seed@, variance, n);
    assert forall|j: int| 0 <= j < key.len() implies -b <= #[trigger] key[j] <= b by {
        lemma_small_sample(chacha8_words(key_seed@, n)[j], variance);
    }
    lemma_fresh_carries(sk, pt, ct, seed, error_seed);
    lemma_minimized_decryption(
        sk,
        ct,
        min,
        fresh_rows(sk, pt, error_seed),
        pt.values(),
        small_coefficients(error_seed@, variance, n),
        b,
        key,
        b,
    );
}

} // verus!
