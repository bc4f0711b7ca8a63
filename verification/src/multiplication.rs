//! Products of ciphertexts: why the product of two ciphertexts, folded back
//! to two polynomials by the relinearization key, decrypts to the product
//! of the two plaintexts.
use crate::arith::lemma_div_bounds;
use crate::ciphertext::{extended, is_product, product_rows, scaled_from_ntt, tensor, Ciphertext};
use crate::correctness::{
    carries, fresh_rows, has_room, holds, lemma_decryption, lemma_fresh_carries, lemma_scaling_gap,
    lemma_small_sample, lemma_transform_combines, scaling, shaped, uses_reference_tables,
};
use crate::encoding::{Encoding, EncodingEnum};
use crate::evaluation_key::{squared_rows, EvaluationKey};
use crate::minimization::{
    centered_columns, key_is, lemma_carried_numbers, lemma_rows_forth_and_back,
};
use crate::ntt::{negacyclic_product, pointwise_product};
use crate::parameters::{BfvParameters, MultiplicationParameters};
use crate::plaintext::Plaintext;
use crate::products::{
    integer_product, lemma_integer_product_len, lemma_product_bound, lemma_product_is_linear,
    lemma_product_residues, lemma_slots_multiply, lemma_transform_of_product,
};
use crate::random::{chacha8_words, Seed};
use crate::ring::{lemma_product_associates, lemma_product_commutes, lemma_product_is_linear_right};
use crate::rq::{
    as_ints, column, converted, lemma_product_of_polynomials, power_rows, rows_combine, rows_in,
    rows_product, rows_zero, small_coefficients, small_rows, Context, Operation, Representation,
};
use crate::scaler::{centered_lift, scale_value, scaled_rows};
use crate::secret_key::{key_power, phase, SecretKey};
use crate::switching::{
    lemma_combined_rows, lemma_forward_rows, lemma_key_switch, lemma_switched_sum,
    lemma_switching_noise, noise_numbers, switching_noise,
};
use crate::zq::reduced;
use vstd::arithmetic::div_mod::*;
use vstd::prelude::*;

verus! {

/// Scaling by `num / den` with rounding to the nearest integer moves a
/// number by at most the half of `den`, measured in multiples of `1 / den`.
pub proof fn lemma_scaling_error(x: int, num: nat, den: nat)
    requires
        den >= 1,
    ensures
        -(den as int) <= 2 * (den * scale_value(x, num, den, false) - num * x) <= den,
{
    let d = den as int;
    let half = d / 2;
    lemma_div_bounds(d, 2);
    if x >= 0 {
        let y = (x * num + half) / d;
        lemma_div_bounds(x * num + half, d);
        assert(y * d == d * y) by (nonlinear_arith);
        assert(x * num == num * x) by (nonlinear_arith);
    } else {
        let y = (-x * num + half) / d;
        lemma_div_bounds(-x * num + half, d);
        assert(y * d == d * y) by (nonlinear_arith);
        assert(d * (-y) == -(d * y)) by (nonlinear_arith);
        assert(-x * num == -(num * x)) by (nonlinear_arith);
    }
}

/// The centered representative of the residue of a number within the half
/// of the modulus of zero is the number itself.
pub proof fn lemma_centered_of_small(x: int, big: int)
    requires
        big >= 1,
        -(big / 2) <= x < big / 2,
    ensures
        centered_lift((x % big) as nat, big as nat) == x,
{
    lemma_div_bounds(big, 2);
    if x >= 0 {
        lemma_small_mod(x as nat, big as nat);
    } else {
        lemma_mod_add_multiples_vanish(x, big);
        lemma_small_mod((x + big) as nat, big as nat);
    }
}

/// A centered representative lies within the half of the modulus of zero,
/// rounded up.
pub proof fn lemma_centered_bound(x: nat, big: nat)
    requires
        x < big,
    ensures
        -(big - big / 2) <= centered_lift(x, big) <= big - big / 2,
{
    lemma_div_bounds(big as int, 2);
}

/// The centered numbers behind the columns of rows lie within the half of
/// the product of the moduli of zero, rounded up.
pub proof fn lemma_centered_columns_bound(ctx: Context, rows: Seq<Seq<u64>>, k: int)
    requires
        ctx.wf(),
        0 <= k < ctx.degree(),
    ensures
        centered_columns(ctx, rows).len() == ctx.degree(),
        -(ctx.rns().modulus_value() - ctx.rns().modulus_value() / 2) <= centered_columns(
            ctx,
            rows,
        )[k] <= ctx.rns().modulus_value() - ctx.rns().modulus_value() / 2,
{
    let big = ctx.rns().modulus_value();
    let lift = ctx.rns().lift_spec(column(rows, k));
    lemma_mod_bound(
        crate::rns::weighted_sum(column(rows, k), ctx.rns().garner_values()) as int,
        big as int,
    );
    lemma_centered_bound(lift, big);
}

/// The rows that an extension by one makes of rows in the transform
/// domain: the residues, modulo the moduli of the larger context, of the
/// centered numbers behind the columns.
pub open spec fn extended_rows(from: Context, to: Context, rows: Seq<Seq<u64>>) -> Seq<Seq<u64>> {
    scaled_rows(
        converted(from, Representation::Ntt, Representation::PowerBasis, rows),
        from,
        to,
        1,
        1,
        false,
    )
}

/// The numbers behind rows in the transform domain: the centered numbers
/// behind the columns of the rows in the power basis.
pub open spec fn numbers_behind(ctx: Context, rows: Seq<Seq<u64>>) -> Seq<int> {
    centered_columns(ctx, converted(ctx, Representation::Ntt, Representation::PowerBasis, rows))
}

/// An extension by one keeps the numbers behind the rows: the extended
/// rows hold their residues modulo the moduli of the larger context.
pub proof fn lemma_extended_rows(from: Context, to: Context, rows: Seq<Seq<u64>>)
    requires
        from.wf(),
        to.wf(),
        from.degree() == to.degree(),
    ensures
        rows_in(extended_rows(from, to, rows), to.moduli(), to.degree()),
        forall|l: int, k: int|
            0 <= l < to.moduli().len() && 0 <= k < to.degree() ==> (#[trigger] extended_rows(
                from,
                to,
                rows,
            )[l][k]) as int == numbers_behind(from, rows)[k] % (to.moduli()[l] as int),
{
    let ext = extended_rows(from, to, rows);
    let x = numbers_behind(from, rows);
    let m = to.moduli();
    let n = to.degree();
    assert forall|l: int| 0 <= l < ext.len() implies (#[trigger] ext[l]).len() == n && reduced(
        ext[l],
        m[l],
    ) by {
        assert(2 <= m[l]);
        assert forall|k: int| 0 <= k < n implies #[trigger] ext[l][k] < m[l] by {
            lemma_mod_bound(scale_value(x[k], 1, 1, false), m[l] as int);
        }
    }
    assert forall|l: int, k: int| 0 <= l < m.len() && 0 <= k < n implies (#[trigger] ext[l][k])
        as int == x[k] % (m[l] as int) by {
        assert(2 <= m[l]);
        lemma_mod_bound(x[k], m[l] as int);
    }
}

/// Where rows in the power basis hold the residues of numbers within the
/// half of the product of the moduli of zero, the centered numbers behind
/// their columns are those numbers.
pub proof fn lemma_numbers_of_residues(ctx: Context, rows: Seq<Seq<u64>>, numbers: Seq<int>, j: int)
    requires
        ctx.wf(),
        rows.len() == ctx.moduli().len(),
        numbers.len() == ctx.degree(),
        0 <= j < ctx.degree(),
        forall|l: int|
            0 <= l < ctx.moduli().len() ==> (#[trigger] rows[l])[j] as int == numbers[j] % (
            ctx.moduli()[l] as int),
        -(ctx.rns().modulus_value() / 2) <= numbers[j] < ctx.rns().modulus_value() / 2,
    ensures
        centered_columns(ctx, rows)[j] == numbers[j],
{
    let col = column(rows, j);
    assert forall|l: int| 0 <= l < col.len() implies (#[trigger] col[l]) as int == numbers[j] % (
    ctx.rns().moduli()[l] as int) by {
        assert(col[l] == rows[l][j]);
    }
    ctx.rns().lemma_lift_of_residues(numbers[j], col);
    lemma_centered_of_small(numbers[j], ctx.rns().modulus_value() as int);
}

/// The numbers behind the three polynomials of the product of two pairs,
/// as polynomials in the key: `a0 * b0`, `a0 * b1 + a1 * b0` and
/// `a1 * b1`, over the integers.
pub open spec fn tensor_numbers(
    a0: Seq<int>,
    a1: Seq<int>,
    b0: Seq<int>,
    b1: Seq<int>,
    index: int,
) -> Seq<int> {
    if index == 0 {
        integer_product(a0, b0)
    } else if index == 1 {
        Seq::new(b0.len(), |j: int| integer_product(a0, b1)[j] + integer_product(a1, b0)[j])
    } else {
        integer_product(a1, b1)
    }
}

/// The rows, in the transform domain of the larger context, of the three
/// polynomials of the product of two extended pairs.
pub open spec fn tensor_rows(
    to: Context,
    a0: Seq<Seq<u64>>,
    a1: Seq<Seq<u64>>,
    b0: Seq<Seq<u64>>,
    b1: Seq<Seq<u64>>,
    index: int,
) -> Seq<Seq<u64>> {
    let m = to.moduli();
    let fa0 = converted(to, Representation::PowerBasis, Representation::Ntt, a0);
    let fa1 = converted(to, Representation::PowerBasis, Representation::Ntt, a1);
    let fb0 = converted(to, Representation::PowerBasis, Representation::Ntt, b0);
    let fb1 = converted(to, Representation::PowerBasis, Representation::Ntt, b1);
    if index == 0 {
        rows_combine(Operation::Mul, fa0, fb0, m)
    } else if index == 1 {
        rows_combine(
            Operation::Add,
            rows_combine(Operation::Mul, fa0, fb1, m),
            rows_combine(Operation::Mul, fa1, fb0, m),
            m,
        )
    } else {
        rows_combine(Operation::Mul, fa1, fb1, m)
    }
}

/// The product of two extended pairs holds, in the power basis, the
/// residues of the products over the integers of the numbers behind the
/// pairs.
pub proof fn lemma_tensor_residues(
    to: Context,
    a0: Seq<Seq<u64>>,
    a1: Seq<Seq<u64>>,
    b0: Seq<Seq<u64>>,
    b1: Seq<Seq<u64>>,
    x0: Seq<int>,
    x1: Seq<int>,
    y0: Seq<int>,
    y1: Seq<int>,
    index: int,
    j: int,
)
    requires
        to.wf(),
        uses_reference_tables(to),
        rows_in(a0, to.moduli(), to.degree()),
        rows_in(a1, to.moduli(), to.degree()),
        rows_in(b0, to.moduli(), to.degree()),
        rows_in(b1, to.moduli(), to.degree()),
        x0.len() == to.degree(),
        x1.len() == to.degree(),
        y0.len() == to.degree(),
        y1.len() == to.degree(),
        forall|l: int, k: int|
            0 <= l < to.moduli().len() && 0 <= k < to.degree() ==> (#[trigger] a0[l][k]) as int
                == x0[k] % (to.moduli()[l] as int),
        forall|l: int, k: int|
            0 <= l < to.moduli().len() && 0 <= k < to.degree() ==> (#[trigger] a1[l][k]) as int
                == x1[k] % (to.moduli()[l] as int),
        forall|l: int, k: int|
            0 <= l < to.moduli().len() && 0 <= k < to.degree() ==> (#[trigger] b0[l][k]) as int
                == y0[k] % (to.moduli()[l] as int),
        forall|l: int, k: int|
            0 <= l < to.moduli().len() && 0 <= k < to.degree() ==> (#[trigger] b1[l][k]) as int
                == y1[k] % (to.moduli()[l] as int),
        0 <= index <= 2,
        0 <= j < to.degree(),
    ensures
        tensor_numbers(x0, x1, y0, y1, index).len() == to.degree(),
        converted(
            to,
            Representation::Ntt,
            Representation::PowerBasis,
            tensor_rows(to, a0, a1, b0, b1, index),
        ).len() == to.moduli().len(),
        forall|l: int|
            0 <= l < to.moduli().len() ==> (#[trigger] converted(
                to,
                Representation::Ntt,
                Representation::PowerBasis,
                tensor_rows(to, a0, a1, b0, b1, index),
            )[l])[j] as int == tensor_numbers(x0, x1, y0, y1, index)[j] % (to.moduli()[l] as int),
{
    let m = to.moduli();
    let n = to.degree();
    let numbers = tensor_numbers(x0, x1, y0, y1, index);
    let rows = tensor_rows(to, a0, a1, b0, b1, index);
    let back = converted(to, Representation::Ntt, Representation::PowerBasis, rows);
    lemma_integer_product_len(x0, y0);
    lemma_integer_product_len(x0, y1);
    lemma_integer_product_len(x1, y0);
    lemma_integer_product_len(x1, y1);
    if index == 1 {
        let first_term = rows_product(a0, b1, m);
        let second_term = rows_product(a1, b0, m);
        lemma_transform_of_product(to, a0, b1);
        lemma_transform_of_product(to, a1, b0);
        lemma_transform_combines(Operation::Add, to, first_term, second_term);
        let sum = rows_combine(Operation::Add, first_term, second_term, m);
        lemma_rows_forth_and_back(to, sum);
        assert(back == sum);
        assert forall|l: int| 0 <= l < m.len() implies (#[trigger] back[l])[j] as int
            == numbers[j] % (m[l] as int) by {
            let q = m[l] as int;
            assert(2 <= m[l]);
            assert(a0[l].len() == n && a1[l].len() == n && b0[l].len() == n && b1[l].len() == n);
            assert forall|k: int| 0 <= k < n implies (#[trigger] a0[l][k]) as int == x0[k] % q by {}
            assert forall|k: int| 0 <= k < n implies (#[trigger] a1[l][k]) as int == x1[k] % q by {}
            assert forall|k: int| 0 <= k < n implies (#[trigger] b0[l][k]) as int == y0[k] % q by {}
            assert forall|k: int| 0 <= k < n implies (#[trigger] b1[l][k]) as int == y1[k] % q by {}
            lemma_product_residues(x0, y1, a0[l], b1[l], m[l]);
            lemma_product_residues(x1, y0, a1[l], b0[l], m[l]);
            assert(first_term[l][j] as int == integer_product(x0, y1)[j] % q);
            assert(second_term[l][j] as int == integer_product(x1, y0)[j] % q);
            assert(first_term[l].len() == n);
            lemma_mod_bound(first_term[l][j] + second_term[l][j], q);
            lemma_add_mod_noop(integer_product(x0, y1)[j], integer_product(x1, y0)[j], q);
        }
    } else {
        let a = if index == 0 {
            a0
        } else {
            a1
        };
        let b = if index == 0 {
            b0
        } else {
            b1
        };
        let x = if index == 0 {
            x0
        } else {
            x1
        };
        let y = if index == 0 {
            y0
        } else {
            y1
        };
        lemma_product_of_polynomials(to, a, b);
        assert(back == rows_product(a, b, m));
        assert forall|l: int| 0 <= l < m.len() implies (#[trigger] back[l])[j] as int
            == numbers[j] % (m[l] as int) by {
            let q = m[l] as int;
            assert(2 <= m[l]);
            assert(a[l].len() == n && b[l].len() == n);
            assert forall|k: int| 0 <= k < n implies (#[trigger] a[l][k]) as int == x[k] % q by {}
            assert forall|k: int| 0 <= k < n implies (#[trigger] b[l][k]) as int == y[k] % q by {}
            lemma_product_residues(x, y, a[l], b[l], m[l]);
        }
    }
}

/// The numbers behind the product of two extended pairs are the products
/// over the integers of the numbers behind the pairs, as long as the
/// larger context has room for them: the half of the product of its moduli
/// exceeds `2 * n * h * h`, for the degree `n` and numbers within `h` of
/// zero.
pub proof fn lemma_tensor_numbers(
    to: Context,
    a0: Seq<Seq<u64>>,
    a1: Seq<Seq<u64>>,
    b0: Seq<Seq<u64>>,
    b1: Seq<Seq<u64>>,
    x0: Seq<int>,
    x1: Seq<int>,
    y0: Seq<int>,
    y1: Seq<int>,
    h: int,
    index: int,
    j: int,
)
    requires
        to.wf(),
        uses_reference_tables(to),
        rows_in(a0, to.moduli(), to.degree()),
        rows_in(a1, to.moduli(), to.degree()),
        rows_in(b0, to.moduli(), to.degree()),
        rows_in(b1, to.moduli(), to.degree()),
        x0.len() == to.degree(),
        x1.len() == to.degree(),
        y0.len() == to.degree(),
        y1.len() == to.degree(),
        forall|l: int, k: int|
            0 <= l < to.moduli().len() && 0 <= k < to.degree() ==> (#[trigger] a0[l][k]) as int
                == x0[k] % (to.moduli()[l] as int),
        forall|l: int, k: int|
            0 <= l < to.moduli().len() && 0 <= k < to.degree() ==> (#[trigger] a1[l][k]) as int
                == x1[k] % (to.moduli()[l] as int),
        forall|l: int, k: int|
            0 <= l < to.moduli().len() && 0 <= k < to.degree() ==> (#[trigger] b0[l][k]) as int
                == y0[k] % (to.moduli()[l] as int),
        forall|l: int, k: int|
            0 <= l < to.moduli().len() && 0 <= k < to.degree() ==> (#[trigger] b1[l][k]) as int
                == y1[k] % (to.moduli()[l] as int),
        h >= 0,
        forall|k: int| 0 <= k < to.degree() ==> -h <= #[trigger] x0[k] <= h,
        forall|k: int| 0 <= k < to.degree() ==> -h <= #[trigger] x1[k] <= h,
        forall|k: int| 0 <= k < to.degree() ==> -h <= #[trigger] y0[k] <= h,
        forall|k: int| 0 <= k < to.degree() ==> -h <= #[trigger] y1[k] <= h,
        to.rns().modulus_value() / 2 > 2 * (to.degree() * h * h),
        0 <= index <= 2,
        0 <= j < to.degree(),
    ensures
        tensor_numbers(x0, x1, y0, y1, index).len() == to.degree(),
        -(2 * (to.degree() * h * h)) <= tensor_numbers(x0, x1, y0, y1, index)[j] <= 2 * (to.degree()
            * h * h),
        centered_columns(
            to,
            converted(
                to,
                Representation::Ntt,
                Representation::PowerBasis,
                tensor_rows(to, a0, a1, b0, b1, index),
            ),
        )[j] == tensor_numbers(x0, x1, y0, y1, index)[j],
{
    let n = to.degree();
    let numbers = tensor_numbers(x0, x1, y0, y1, index);
    let rows = tensor_rows(to, a0, a1, b0, b1, index);
    let back = converted(to, Representation::Ntt, Representation::PowerBasis, rows);
    let w = n * h * h;
    lemma_integer_product_len(x0, y0);
    lemma_integer_product_len(x0, y1);
    lemma_integer_product_len(x1, y0);
    lemma_integer_product_len(x1, y1);
    lemma_product_bound(x0, y0, h, h);
    lemma_product_bound(x0, y1, h, h);
    lemma_product_bound(x1, y0, h, h);
    lemma_product_bound(x1, y1, h, h);
    assert(w >= 0) by (nonlinear_arith)
        requires
            w == n * h * h,
            n >= 0,
    ;
    assert(-(2 * w) <= numbers[j] <= 2 * w);
    lemma_tensor_residues(to, a0, a1, b0, b1, x0, x1, y0, y1, index, j);
    lemma_numbers_of_residues(to, back, numbers, j);
}

/// The bound of the error of a product: for the degree `n`, the plaintext
/// modulus `t`, operands with errors within `b0` and `b1` of zero that
/// wrap around the ciphertext modulus at most `wraps` times, and rounding
/// errors that add up to at most `rounding / 2`.
pub open spec fn product_bound(n: int, t: int, b0: int, b1: int, wraps: int, rounding: int) -> int {
    n * t * (1 + wraps) * (b0 + b1 + 2 * t) + t + 1 + rounding
}

/// A coefficient of the product of two ciphertexts, after the scaling by
/// `t / q`: where the operands hold `e + delta * v + q * k` and
/// `e' + delta * v' + q * k'` as polynomials, and `z` is the coefficient of
/// the product of those, given by the coefficients `ee`, `ev`, ... of the
/// nine products of their parts, the rounded quotient `u` of `t * z` by `q`
/// is the coefficient `gg % t` of the product of the values times `delta`,
/// plus a multiple of `q`, plus an error within the bound of the product.
pub proof fn lemma_tensor_coefficient(
    q: int,
    t: int,
    delta: int,
    u: int,
    z: int,
    rr: int,
    ee: int,
    ev: int,
    ek: int,
    ve: int,
    gg: int,
    vk: int,
    ke: int,
    kv: int,
    kk: int,
    n: int,
    b0: int,
    b1: int,
    wraps: int,
    rounding: int,
)
    requires
        t >= 2,
        q >= 1,
        n >= 1,
        b0 >= 0,
        b1 >= 0,
        wraps >= 0,
        rounding >= 0,
        -t < t * delta - q <= t,
        q * u == t * z + rr,
        z == ee + delta * ev + q * ek + delta * ve + delta * delta * gg + delta * q * vk + q * ke
            + q * delta * kv + q * q * kk,
        -(rounding * q) <= 2 * rr <= rounding * q,
        -(n * b0 * b1) <= ee <= n * b0 * b1,
        -(n * b0 * t) <= ev <= n * b0 * t,
        -(n * t * b1) <= ve <= n * t * b1,
        -(n * b0 * wraps) <= ek <= n * b0 * wraps,
        -(n * wraps * b1) <= ke <= n * wraps * b1,
        -(n * t * t) <= gg <= n * t * t,
        -(n * t * wraps) <= vk <= n * t * wraps,
        -(n * wraps * t) <= kv <= n * wraps * t,
        q >= n * t * (b0 * b1 + t * (b0 + b1) + t * t) + t * t,
    ensures
        -product_bound(n, t, b0, b1, wraps, rounding) <= u - (gg % t) * delta - q * (gg / t + vk
            + kv + t * kk) <= product_bound(n, t, b0, b1, wraps, rounding),
{
    let g = t * delta - q;
    let c = gg / t;
    let r = gg % t;
    lemma_fundamental_div_mod(gg, t);
    lemma_mod_bound(gg, t);
    lemma_div_bounds(gg, t);
    let nt = n * t;
    assert(nt >= 2) by (nonlinear_arith)
        requires
            nt == n * t,
            n >= 1,
            t >= 2,
    ;
    assert(n * t * t == nt * t) by (nonlinear_arith)
        requires
            nt == n * t,
    ;
    assert(-nt <= c <= nt) by (nonlinear_arith)
        requires
            c * t <= gg < c * t + t,
            -(nt * t) <= gg <= nt * t,
            t >= 2,
    ;
    // t * z, sorted by the powers of q
    let n1 = (ev + ve) + t * (ek + ke) + 2 * (g * c) + g * (vk + kv);
    let n2 = c + (vk + kv) + t * kk;
    let f = t * ee + g * (ev + ve) + (g * g) * c + (g * delta) * r;
    let td = t * delta;
    assert(td == q + g);
    assert(t * (delta * ev) == td * ev && t * (delta * ve) == td * ve && t * (delta * q * vk)
        == td * (q * vk) && t * (q * delta * kv) == td * (q * kv) && t * (delta * delta * gg)
        == td * (delta * gg)) by (nonlinear_arith)
        requires
            td == t * delta,
    ;
    assert(td * (delta * gg) == (td * (td * c)) + td * (delta * r)) by (nonlinear_arith)
        requires
            gg == t * c + r,
            td == t * delta,
    ;
    assert(td * (td * c) == (q * q) * c + q * (2 * (g * c)) + (g * g) * c) by (nonlinear_arith)
        requires
            td == q + g,
    ;
    assert(td * (delta * r) == q * (delta * r) + (g * delta) * r) by (nonlinear_arith)
        requires
            td == q + g,
    ;
    assert(td * ev + td * ve == q * (ev + ve) + g * (ev + ve)) by (nonlinear_arith)
        requires
            td == q + g,
    ;
    assert(td * (q * vk) + td * (q * kv) == (q * q) * (vk + kv) + q * (g * (vk + kv)))
        by (nonlinear_arith)
        requires
            td == q + g,
    ;
    assert(t * z == t * ee + t * (delta * ev) + t * (q * ek) + t * (delta * ve) + t * (delta
        * delta * gg) + t * (delta * q * vk) + t * (q * ke) + t * (q * delta * kv) + t * (q * q
        * kk)) by (nonlinear_arith)
        requires
            z == ee + delta * ev + q * ek + delta * ve + delta * delta * gg + delta * q * vk + q
                * ke + q * delta * kv + q * q * kk,
    ;
    assert(t * (q * ek) + t * (q * ke) == q * (t * (ek + ke))) by (nonlinear_arith);
    assert(t * (q * q * kk) == (q * q) * (t * kk)) by (nonlinear_arith);
    assert(q * n1 == q * (ev + ve) + q * (t * (ek + ke)) + q * (2 * (g * c)) + q * (g * (vk
        + kv))) by (nonlinear_arith)
        requires
            n1 == (ev + ve) + t * (ek + ke) + 2 * (g * c) + g * (vk + kv),
    ;
    assert((q * q) * n2 == (q * q) * c + (q * q) * (vk + kv) + (q * q) * (t * kk))
        by (nonlinear_arith)
        requires
            n2 == c + (vk + kv) + t * kk,
    ;
    assert(t * z == q * (delta * r) + q * n1 + (q * q) * n2 + f);
    let err = u - r * delta - q * n2;
    assert(q * err == q * n1 + f + rr) by (nonlinear_arith)
        requires
            q * u == t * z + rr,
            t * z == q * (delta * r) + q * n1 + (q * q) * n2 + f,
            err == u - r * delta - q * n2,
    ;
    // the bounds
    let bsum = b0 + b1;
    assert(-(nt * bsum) <= ev + ve <= nt * bsum) by (nonlinear_arith)
        requires
            -(n * b0 * t) <= ev <= n * b0 * t,
            -(n * t * b1) <= ve <= n * t * b1,
            nt == n * t,
            bsum == b0 + b1,
    ;
    let nw = n * wraps;
    assert(nw >= 0) by (nonlinear_arith)
        requires
            nw == n * wraps,
            n >= 1,
            wraps >= 0,
    ;
    assert(-(nw * bsum) <= ek + ke <= nw * bsum) by (nonlinear_arith)
        requires
            -(n * b0 * wraps) <= ek <= n * b0 * wraps,
            -(n * wraps * b1) <= ke <= n * wraps * b1,
            nw == n * wraps,
            bsum == b0 + b1,
    ;
    assert(-(2 * (nw * t)) <= vk + kv <= 2 * (nw * t)) by (nonlinear_arith)
        requires
            -(n * t * wraps) <= vk <= n * t * wraps,
            -(n * wraps * t) <= kv <= n * wraps * t,
            nw == n * wraps,
    ;
    assert(-(t * (nw * bsum)) <= t * (ek + ke) <= t * (nw * bsum)) by (nonlinear_arith)
        requires
            -(nw * bsum) <= ek + ke <= nw * bsum,
            t >= 2,
    ;
    assert(-(t * nt) <= g * c <= t * nt) by (nonlinear_arith)
        requires
            -t < g <= t,
            -nt <= c <= nt,
            nt >= 0,
            t >= 0,
    ;
    assert(-(t * (2 * (nw * t))) <= g * (vk + kv) <= t * (2 * (nw * t))) by (nonlinear_arith)
        requires
            -t < g <= t,
            -(2 * (nw * t)) <= vk + kv <= 2 * (nw * t),
            nw * t >= 0,
            t >= 0,
    {
        assert(nw * t >= 0);
    }
    let main = nt * bsum + t * (nw * bsum) + 2 * (t * nt) + t * (2 * (nw * t));
    assert(-main <= n1 <= main);
    let ntw = nt * wraps;
    let both = bsum + 2 * t;
    assert(t * (nw * bsum) == ntw * bsum) by (nonlinear_arith)
        requires
            nw == n * wraps,
            ntw == nt * wraps,
            nt == n * t,
    ;
    assert(t * (2 * (nw * t)) == ntw * (2 * t)) by (nonlinear_arith)
        requires
            nw == n * wraps,
            ntw == nt * wraps,
            nt == n * t,
    ;
    assert(2 * (t * nt) == nt * (2 * t)) by (nonlinear_arith);
    assert(nt * both == nt * bsum + nt * (2 * t)) by (nonlinear_arith)
        requires
            both == bsum + 2 * t,
    ;
    assert(ntw * both == ntw * bsum + ntw * (2 * t)) by (nonlinear_arith)
        requires
            both == bsum + 2 * t,
    ;
    assert(nt * (1 + wraps) == nt + ntw) by (nonlinear_arith)
        requires
            ntw == nt * wraps,
    ;
    assert((nt + ntw) * both == nt * both + ntw * both) by (nonlinear_arith);
    assert(n * t * (1 + wraps) * (b0 + b1 + 2 * t) == (nt * (1 + wraps)) * both);
    assert(main == n * t * (1 + wraps) * (b0 + b1 + 2 * t));
    // the rest f is within (t + 1) * q of zero
    assert(-(t * (n * b0 * b1)) <= t * ee <= t * (n * b0 * b1)) by (nonlinear_arith)
        requires
            -(n * b0 * b1) <= ee <= n * b0 * b1,
            t >= 2,
    ;
    assert(-(t * (nt * bsum)) <= g * (ev + ve) <= t * (nt * bsum)) by (nonlinear_arith)
        requires
            -t < g <= t,
            -(nt * bsum) <= ev + ve <= nt * bsum,
            nt * bsum >= 0,
            t >= 0,
    {
        assert(nt * bsum >= 0);
    }
    assert(0 <= g * g <= t * t) by (nonlinear_arith)
        requires
            -t < g <= t,
    ;
    assert(-((t * t) * nt) <= (g * g) * c <= (t * t) * nt) by (nonlinear_arith)
        requires
            0 <= g * g <= t * t,
            -nt <= c <= nt,
            nt >= 0,
    ;
    assert(delta >= 0) by (nonlinear_arith)
        requires
            t * delta > q - t,
            q >= 1,
            t >= 2,
    ;
    assert(-(t * q + t * t) <= (g * delta) * r <= t * q + t * t) by (nonlinear_arith)
        requires
            -t < g <= t,
            0 <= r < t,
            delta >= 0,
            t * delta == q + g,
            t >= 2,
    {
        assert(0 <= delta * r <= delta * t);
        assert(delta * t <= q + t);
        assert((g * delta) * r == g * (delta * r));
        assert(g * (delta * r) <= t * (delta * r));
        assert(g * (delta * r) >= -(t * (delta * r)));
        assert(t * (delta * r) <= t * (q + t));
    }
    let small = n * t * (b0 * b1 + t * (b0 + b1) + t * t) + t * t;
    assert(t * (n * b0 * b1) == nt * (b0 * b1)) by (nonlinear_arith)
        requires
            nt == n * t,
    ;
    assert(t * (nt * bsum) == nt * (t * (b0 + b1))) by (nonlinear_arith)
        requires
            bsum == b0 + b1,
    ;
    assert((t * t) * nt == nt * (t * t)) by (nonlinear_arith);
    assert(nt * (b0 * b1 + t * (b0 + b1) + t * t) == nt * (b0 * b1) + nt * (t * (b0 + b1)) + nt
        * (t * t)) by (nonlinear_arith);
    assert(n * t * (b0 * b1 + t * (b0 + b1) + t * t) == nt * (b0 * b1 + t * (b0 + b1) + t * t));
    assert(t * (n * b0 * b1) + t * (nt * bsum) + (t * t) * nt + t * t == small);
    assert(-(t * q + q) <= f <= t * q + q);
    // so the error is within the bound
    let bound = product_bound(n, t, b0, b1, wraps, rounding);
    assert(bound == main + t + 1 + rounding);
    assert(-(q * bound) <= q * err <= q * bound) by (nonlinear_arith)
        requires
            q * err == q * n1 + f + rr,
            -main <= n1 <= main,
            -(t * q + q) <= f <= t * q + q,
            -(rounding * q) <= 2 * rr <= rounding * q,
            bound == main + t + 1 + rounding,
            q >= 1,
            rounding >= 0,
    {
        assert(q * n1 <= q * main);
        assert(q * n1 >= -(q * main));
        assert(q * bound == q * main + t * q + q + rounding * q);
        assert(rr <= rounding * q);
        assert(rr >= -(rounding * q));
    }
    assert(-bound <= err <= bound) by (nonlinear_arith)
        requires
            -(q * bound) <= q * err <= q * bound,
            q >= 1,
    ;
}

/// The polynomial `x0 + x1 * s` over the integers.
pub open spec fn under_key(x0: Seq<int>, x1: Seq<int>, s: Seq<int>) -> Seq<int> {
    Seq::new(x0.len(), |k: int| x0[k] + integer_product(x1, s)[k])
}

/// The three polynomials of the product of two pairs give, with the key
/// and its square, the product of what the two pairs give with the key.
pub proof fn lemma_tensor_is_product(
    x0: Seq<int>,
    x1: Seq<int>,
    y0: Seq<int>,
    y1: Seq<int>,
    s: Seq<int>,
    j: int,
)
    requires
        x1.len() == x0.len(),
        y0.len() == x0.len(),
        y1.len() == x0.len(),
        s.len() == x0.len(),
        0 <= j < x0.len(),
    ensures
        tensor_numbers(x0, x1, y0, y1, 0)[j] + integer_product(
            tensor_numbers(x0, x1, y0, y1, 1),
            s,
        )[j] + integer_product(tensor_numbers(x0, x1, y0, y1, 2), integer_product(s, s))[j]
            == integer_product(under_key(x0, x1, s), under_key(y0, y1, s))[j],
{
    let n = x0.len();
    let xs = integer_product(x1, s);
    let ys = integer_product(y1, s);
    let s2 = integer_product(s, s);
    let wx = under_key(x0, x1, s);
    let wy = under_key(y0, y1, s);
    let cross = tensor_numbers(x0, x1, y0, y1, 1);
    let x0y1 = integer_product(x0, y1);
    let x1y0 = integer_product(x1, y0);
    lemma_integer_product_len(x1, s);
    lemma_integer_product_len(y1, s);
    lemma_integer_product_len(s, s);
    lemma_integer_product_len(x0, y1);
    lemma_integer_product_len(x1, y0);
    lemma_integer_product_len(x1, y1);
    lemma_integer_product_len(y0, s);
    lemma_integer_product_len(y1, s2);
    // the product of the two sums, term by term
    assert forall|k: int| 0 <= k < n implies #[trigger] wx[k] == x0[k] + 1 * xs[k] by {}
    assert forall|k: int| 0 <= k < n implies #[trigger] wy[k] == y0[k] + 1 * ys[k] by {}
    lemma_product_is_linear(x0, xs, 1, wx, wy);
    lemma_product_is_linear_right(x0, y0, ys, 1, wy);
    lemma_product_is_linear_right(xs, y0, ys, 1, wy);
    // x0 * (y1 * s) is (x0 * y1) * s
    lemma_product_associates(x0, y1, s);
    // (x1 * s) * y0 is (x1 * y0) * s
    lemma_product_associates(x1, s, y0);
    lemma_product_commutes(s, y0);
    lemma_product_associates(x1, y0, s);
    // (x1 * s) * (y1 * s) is (x1 * y1) * (s * s)
    lemma_product_associates(x1, s, ys);
    lemma_product_commutes(s, ys);
    lemma_product_associates(y1, s, s);
    lemma_product_associates(x1, y1, s2);
    // the middle polynomial
    assert forall|k: int| 0 <= k < n implies #[trigger] cross[k] == x0y1[k] + 1 * x1y0[k] by {}
    lemma_product_is_linear(x0y1, x1y0, 1, cross, s);
    assert(integer_product(wx, wy)[j] == integer_product(x0, wy)[j] + 1 * integer_product(
        xs,
        wy,
    )[j]);
    assert(integer_product(x0, wy)[j] == integer_product(x0, y0)[j] + 1 * integer_product(
        x0,
        ys,
    )[j]);
    assert(integer_product(xs, wy)[j] == integer_product(xs, y0)[j] + 1 * integer_product(
        xs,
        ys,
    )[j]);
    assert(integer_product(cross, s)[j] == integer_product(x0y1, s)[j] + 1 * integer_product(
        x1y0,
        s,
    )[j]);
}

/// The product of `e0 + delta * v0 + q * k0` and `e1 + delta * v1 + q * k1`
/// is the sum of the nine products of their parts, each with its factor.
pub proof fn lemma_nine_products(
    e0: Seq<int>,
    v0: Seq<int>,
    k0: Seq<int>,
    e1: Seq<int>,
    v1: Seq<int>,
    k1: Seq<int>,
    delta: int,
    q: int,
    w0: Seq<int>,
    w1: Seq<int>,
    j: int,
)
    requires
        v0.len() == e0.len(),
        k0.len() == e0.len(),
        e1.len() == e0.len(),
        v1.len() == e0.len(),
        k1.len() == e0.len(),
        w0.len() == e0.len(),
        w1.len() == e0.len(),
        forall|k: int| 0 <= k < e0.len() ==> #[trigger] w0[k] == e0[k] + delta * v0[k] + q * k0[k],
        forall|k: int| 0 <= k < e0.len() ==> #[trigger] w1[k] == e1[k] + delta * v1[k] + q * k1[k],
        0 <= j < e0.len(),
    ensures
        integer_product(w0, w1)[j] == integer_product(e0, e1)[j] + delta * integer_product(
            e0,
            v1,
        )[j] + q * integer_product(e0, k1)[j] + delta * integer_product(v0, e1)[j] + delta * delta
            * integer_product(v0, v1)[j] + delta * q * integer_product(v0, k1)[j] + q
            * integer_product(k0, e1)[j] + q * delta * integer_product(k0, v1)[j] + q * q
            * integer_product(k0, k1)[j],
{
    let n = e0.len();
    let h0 = Seq::new(n, |k: int| e0[k] + delta * v0[k]);
    let h1 = Seq::new(n, |k: int| e1[k] + delta * v1[k]);
    assert forall|k: int| 0 <= k < n implies #[trigger] w0[k] == h0[k] + q * k0[k] by {}
    assert forall|k: int| 0 <= k < n implies #[trigger] w1[k] == h1[k] + q * k1[k] by {}
    lemma_product_is_linear(h0, k0, q, w0, w1);
    lemma_product_is_linear(e0, v0, delta, h0, w1);
    lemma_product_is_linear_right(e0, h1, k1, q, w1);
    lemma_product_is_linear_right(e0, e1, v1, delta, h1);
    lemma_product_is_linear_right(v0, h1, k1, q, w1);
    lemma_product_is_linear_right(v0, e1, v1, delta, h1);
    lemma_product_is_linear_right(k0, h1, k1, q, w1);
    lemma_product_is_linear_right(k0, e1, v1, delta, h1);
    let ee = integer_product(e0, e1)[j];
    let ev = integer_product(e0, v1)[j];
    let ek = integer_product(e0, k1)[j];
    let ve = integer_product(v0, e1)[j];
    let vv = integer_product(v0, v1)[j];
    let vk = integer_product(v0, k1)[j];
    let ke = integer_product(k0, e1)[j];
    let kv = integer_product(k0, v1)[j];
    let kk = integer_product(k0, k1)[j];
    let ew = integer_product(e0, w1)[j];
    let vw = integer_product(v0, w1)[j];
    let kw = integer_product(k0, w1)[j];
    let hw = integer_product(h0, w1)[j];
    let eh = integer_product(e0, h1)[j];
    let vh = integer_product(v0, h1)[j];
    let kh = integer_product(k0, h1)[j];
    assert(integer_product(w0, w1)[j] == hw + q * kw);
    assert(hw == ew + delta * vw);
    assert(ew == eh + q * ek && eh == ee + delta * ev);
    assert(vw == vh + q * vk && vh == ve + delta * vv);
    assert(kw == kh + q * kk && kh == ke + delta * kv);
    assert(delta * vw == delta * ve + delta * delta * vv + delta * q * vk) by (nonlinear_arith)
        requires
            vw == ve + delta * vv + q * vk,
    ;
    assert(q * kw == q * ke + q * delta * kv + q * q * kk) by (nonlinear_arith)
        requires
            kw == ke + delta * kv + q * kk,
    ;
}

/// The numbers behind the polynomial of index `index` of the product of
/// two ciphertexts of two polynomials each, before the scaling.
pub open spec fn product_numbers(ct0: &Ciphertext, ct1: &Ciphertext, index: int) -> Seq<int> {
    let ctx = ct0.par().ctx();
    tensor_numbers(
        numbers_behind(ctx, ct0.polys()[0].rows()),
        numbers_behind(ctx, ct0.polys()[1].rows()),
        numbers_behind(ctx, ct1.polys()[0].rows()),
        numbers_behind(ctx, ct1.polys()[1].rows()),
        index,
    )
}

/// The numbers of `numbers`, each scaled by `num / den` and rounded.
pub open spec fn scaled_numbers(numbers: Seq<int>, num: nat, den: nat) -> Seq<int> {
    Seq::new(numbers.len(), |j: int| scale_value(numbers[j], num, den, false))
}

/// The half of the product of the ciphertext moduli, rounded up.
pub open spec fn half_up(par: BfvParameters) -> int {
    par.big_q() - par.big_q() / 2
}

/// Whether the larger context of the multiplication has room for the
/// products of the numbers behind two ciphertexts.
pub open spec fn has_room_above(par: BfvParameters) -> bool {
    par.mul_1_params().to().rns().modulus_value() / 2 > 2 * (par.spec_degree() * half_up(par)
        * half_up(par))
}

/// The polynomials of the product of two ciphertexts hold the residues of
/// the products of the numbers behind the ciphertexts, scaled by `t / q`
/// and rounded.
pub proof fn lemma_product_rows(ct0: &Ciphertext, ct1: &Ciphertext, index: int, j: int)
    requires
        ct0.wf(),
        ct1.wf(),
        ct1.par() == ct0.par(),
        !ct0.minimized(),
        !ct1.minimized(),
        ct0.polys().len() == 2,
        ct1.polys().len() == 2,
        uses_reference_tables(ct0.par().mul_1_params().to()),
        has_room_above(ct0.par()),
        0 <= index <= 2,
        0 <= j < ct0.par().spec_degree(),
    ensures
        rows_in(
            product_rows(ct0, ct1, ct0.par().mul_1_params(), index),
            ct0.par().spec_moduli(),
            ct0.par().spec_degree(),
        ),
        product_numbers(ct0, ct1, index).len() == ct0.par().spec_degree(),
        -(2 * (ct0.par().spec_degree() * half_up(ct0.par()) * half_up(ct0.par())))
            <= product_numbers(ct0, ct1, index)[j] <= 2 * (ct0.par().spec_degree() * half_up(
            ct0.par(),
        ) * half_up(ct0.par())),
        forall|i: int|
            0 <= i < ct0.par().spec_moduli().len() ==> (#[trigger] product_rows(
                ct0,
                ct1,
                ct0.par().mul_1_params(),
                index,
            )[i])[j] as int == scaled_numbers(
                product_numbers(ct0, ct1, index),
                ct0.par().spec_plaintext() as nat,
                ct0.par().big_q(),
            )[j] % (ct0.par().spec_moduli()[i] as int),
{
    let par = ct0.par();
    let mp = par.mul_1_params();
    let ctx = par.ctx();
    let to = mp.to();
    let m = par.spec_moduli();
    let n = par.spec_degree();
    let t = par.spec_plaintext() as nat;
    let big = par.big_q();
    let h = half_up(par);
    assert(ctx.moduli() == m && ctx.degree() == n);
    assert(ctx.rns().modulus_value() == big);
    assert(mp.from() == ctx);
    assert(to.wf() && to.degree() == n);
    lemma_div_bounds(big as int, 2);
    let a0 = ct0.polys()[0].rows();
    let a1 = ct0.polys()[1].rows();
    let b0 = ct1.polys()[0].rows();
    let b1 = ct1.polys()[1].rows();
    let x0 = numbers_behind(ctx, a0);
    let x1 = numbers_behind(ctx, a1);
    let y0 = numbers_behind(ctx, b0);
    let y1 = numbers_behind(ctx, b1);
    let ea0 = extended_rows(ctx, to, a0);
    let ea1 = extended_rows(ctx, to, a1);
    let eb0 = extended_rows(ctx, to, b0);
    let eb1 = extended_rows(ctx, to, b1);
    lemma_extended_rows(ctx, to, a0);
    lemma_extended_rows(ctx, to, a1);
    lemma_extended_rows(ctx, to, b0);
    lemma_extended_rows(ctx, to, b1);
    assert forall|k: int| 0 <= k < n implies -h <= #[trigger] x0[k] <= h by {
        lemma_centered_columns_bound(
            ctx,
            converted(ctx, Representation::Ntt, Representation::PowerBasis, a0),
            k,
        );
    }
    assert forall|k: int| 0 <= k < n implies -h <= #[trigger] x1[k] <= h by {
        lemma_centered_columns_bound(
            ctx,
            converted(ctx, Representation::Ntt, Representation::PowerBasis, a1),
            k,
        );
    }
    assert forall|k: int| 0 <= k < n implies -h <= #[trigger] y0[k] <= h by {
        lemma_centered_columns_bound(
            ctx,
            converted(ctx, Representation::Ntt, Representation::PowerBasis, b0),
            k,
        );
    }
    assert forall|k: int| 0 <= k < n implies -h <= #[trigger] y1[k] <= h by {
        lemma_centered_columns_bound(
            ctx,
            converted(ctx, Representation::Ntt, Representation::PowerBasis, b1),
            k,
        );
    }
    lemma_tensor_numbers(to, ea0, ea1, eb0, eb1, x0, x1, y0, y1, h, index, j);
    let rows = tensor_rows(to, ea0, ea1, eb0, eb1, index);
    let back = converted(to, Representation::Ntt, Representation::PowerBasis, rows);
    let found = product_rows(ct0, ct1, mp, index);
    assert(found == scaled_rows(back, to, ctx, t, big, false));
    let numbers = product_numbers(ct0, ct1, index);
    let scaled = scaled_numbers(numbers, t, big);
    assert forall|i: int| 0 <= i < m.len() implies (#[trigger] found[i])[j] as int == scaled[j] % (
    m[i] as int) by {
        assert(2 <= m[i]);
        lemma_mod_bound(scaled[j], m[i] as int);
    }
    assert(rows_in(found, m, n)) by {
        assert forall|i: int| 0 <= i < found.len() implies (#[trigger] found[i]).len() == n
            && reduced(found[i], m[i]) by {
            assert(2 <= m[i]);
            assert forall|k: int| 0 <= k < n implies #[trigger] found[i][k] < m[i] by {
                lemma_mod_bound(
                    scale_value(centered_columns(to, back)[k], t, big, false),
                    m[i] as int,
                );
            }
        }
    }
}

/// The sum `(a + d0) + (b + d1) * s` is `(a + b * s) + (d0 + d1 * s)`,
/// modulo `q` and with every product and sum reduced on the way.
pub proof fn lemma_folded_value(a: int, b: int, d0: int, d1: int, s: int, q: int)
    requires
        q > 0,
    ensures
        ((a + d0) % q + (((b + d1) % q) * s) % q) % q == ((a + (b * s) % q) % q + (d0 + (d1 * s)
            % q) % q) % q,
{
    lemma_mul_mod_noop_left(b + d1, s, q);
    lemma_add_mod_noop(a + d0, (b + d1) * s, q);
    lemma_add_mod_noop_right(a, b * s, q);
    lemma_add_mod_noop_right(d0, d1 * s, q);
    lemma_add_mod_noop(a + b * s, d0 + d1 * s, q);
    assert((a + d0) + (b + d1) * s == (a + b * s) + (d0 + d1 * s)) by (nonlinear_arith);
}

/// Folding a pair `(d0, d1)` into a pair `(a, b)` adds what the one gives
/// with the key to what the other gives with it.
pub proof fn lemma_folded_rows(
    a: Seq<Seq<u64>>,
    b: Seq<Seq<u64>>,
    d0: Seq<Seq<u64>>,
    d1: Seq<Seq<u64>>,
    s: Seq<Seq<u64>>,
    m: Seq<u64>,
    n: nat,
)
    requires
        shaped(a, m.len(), n),
        shaped(b, m.len(), n),
        shaped(d0, m.len(), n),
        shaped(d1, m.len(), n),
        shaped(s, m.len(), n),
        forall|i: int| 0 <= i < m.len() ==> #[trigger] m[i] > 0,
    ensures
        rows_combine(
            Operation::Add,
            rows_combine(Operation::Add, a, d0, m),
            rows_combine(Operation::Mul, rows_combine(Operation::Add, b, d1, m), s, m),
            m,
        ) == rows_combine(
            Operation::Add,
            rows_combine(Operation::Add, a, rows_combine(Operation::Mul, b, s, m), m),
            rows_combine(Operation::Add, d0, rows_combine(Operation::Mul, d1, s, m), m),
            m,
        ),
{
    let left = rows_combine(
        Operation::Add,
        rows_combine(Operation::Add, a, d0, m),
        rows_combine(Operation::Mul, rows_combine(Operation::Add, b, d1, m), s, m),
        m,
    );
    let right = rows_combine(
        Operation::Add,
        rows_combine(Operation::Add, a, rows_combine(Operation::Mul, b, s, m), m),
        rows_combine(Operation::Add, d0, rows_combine(Operation::Mul, d1, s, m), m),
        m,
    );
    assert forall|i: int| 0 <= i < m.len() implies #[trigger] left[i] =~= right[i] by {
        let q = m[i] as int;
        assert(a[i].len() == n && b[i].len() == n && d0[i].len() == n && d1[i].len() == n
            && s[i].len() == n);
        assert forall|j: int| 0 <= j < n implies left[i][j] == right[i][j] by {
            let av = a[i][j] as int;
            let bv = b[i][j] as int;
            let x0 = d0[i][j] as int;
            let x1 = d1[i][j] as int;
            let sv = s[i][j] as int;
            lemma_folded_value(av, bv, x0, x1, sv, q);
            lemma_mod_bound(av + x0, q);
            lemma_mod_bound(bv + x1, q);
            lemma_mod_bound(((bv + x1) % q) * sv, q);
            lemma_mod_bound(bv * sv, q);
            lemma_mod_bound(x1 * sv, q);
            lemma_mod_bound(av + (bv * sv) % q, q);
            lemma_mod_bound(x0 + (x1 * sv) % q, q);
        }
    }
    assert(left =~= right);
}

/// What the relinearized product of two ciphertexts carries, in the power
/// basis: the three polynomials of the product taken with the key and its
/// square, plus the error of the key switch.
pub open spec fn product_carried(
    sk: &SecretKey,
    ct0: &Ciphertext,
    ct1: &Ciphertext,
    mp: MultiplicationParameters,
    key: Seq<int>,
    error_seed: Seq<u8>,
) -> Seq<Seq<u64>> {
    let par = sk.par();
    let m = par.spec_moduli();
    let y0 = product_rows(ct0, ct1, mp, 0);
    let y1 = product_rows(ct0, ct1, mp, 1);
    let y2 = product_rows(ct0, ct1, mp, 2);
    let sp = power_rows(key, m, par.spec_degree());
    rows_combine(
        Operation::Add,
        rows_combine(Operation::Add, y0, rows_product(y1, sp, m), m),
        rows_combine(
            Operation::Add,
            switching_noise(par, y2, error_seed, m.len()),
            rows_product(y2, rows_product(sp, sp, m), m),
            m,
        ),
        m,
    )
}

/// The relinearized product of two ciphertexts carries the three
/// polynomials of the product taken with the key and its square, plus the
/// error of the key switch.
pub proof fn lemma_product_is_carried(
    sk: &SecretKey,
    ek: &EvaluationKey,
    ct0: &Ciphertext,
    ct1: &Ciphertext,
    ct: &Ciphertext,
    mp: MultiplicationParameters,
    key: Seq<int>,
    kb: int,
    seed: Seed,
    error_seed: Seed,
)
    requires
        sk.wf(),
        ek.wf(),
        uses_reference_tables(sk.par().ctx()),
        forall|index: int|
            0 <= index <= 2 ==> rows_in(
                #[trigger] product_rows(ct0, ct1, mp, index),
                sk.par().spec_moduli(),
                sk.par().spec_degree(),
            ),
        key_is(sk, key, kb),
        ek.made_with(sk, true, squared_rows(sk), seed, error_seed),
        ct0.par() == sk.par(),
        is_product(ct, ct0, ct1, ek, mp),
    ensures
        carries(sk, ct, product_carried(sk, ct0, ct1, mp, key, error_seed@)),
        rows_in(
            product_carried(sk, ct0, ct1, mp, key, error_seed@),
            sk.par().spec_moduli(),
            sk.par().spec_degree(),
        ),
{
    let par = sk.par();
    let ctx = par.ctx();
    let m = par.spec_moduli();
    let n = par.spec_degree();
    let s = sk.s().rows();
    assert(ctx.moduli() == m && ctx.degree() == n);
    assert forall|i: int| 0 <= i < m.len() implies #[trigger] m[i] > 0 by {
        assert(2 <= m[i]);
    }
    let y0 = product_rows(ct0, ct1, mp, 0);
    let y1 = product_rows(ct0, ct1, mp, 1);
    let y2 = product_rows(ct0, ct1, mp, 2);
    assert(rows_in(y0, m, n) && rows_in(y1, m, n) && rows_in(y2, m, n));
    // the key and its square
    let sp = power_rows(key, m, n);
    assert(rows_in(sp, m, n)) by {
        assert forall|i: int| 0 <= i < sp.len() implies (#[trigger] sp[i]).len() == n && reduced(
            sp[i],
            m[i],
        ) by {
            assert forall|k: int| 0 <= k < n implies #[trigger] sp[i][k] < m[i] by {
                lemma_mod_bound(key[k], m[i] as int);
            }
        }
    }
    assert(s =~= converted(ctx, Representation::PowerBasis, Representation::Ntt, sp));
    let sp2 = rows_product(sp, sp, m);
    lemma_product_of_polynomials(ctx, sp, sp);
    assert(squared_rows(sk) == sp2);
    lemma_transform_of_product(ctx, sp, sp);
    // the key switch of the third polynomial
    let ksk = ek.relin_key()->Some_0;
    assert(ksk.made_with(sk, sp2, seed, error_seed));
    lemma_key_switch(sk, &ksk, sp2, y2, seed, error_seed);
    lemma_switched_sum(sk, &ksk, sp2, y2, seed, error_seed, m.len());
    let d0 = crate::key_switching_key::switched(ksk.c0(), y2, par, m.len());
    let d1 = crate::key_switching_key::switched(ksk.c1(), y2, par, m.len());
    let noise = switching_noise(par, y2, error_seed@, m.len());
    let f0 = converted(ctx, Representation::PowerBasis, Representation::Ntt, y0);
    let f1 = converted(ctx, Representation::PowerBasis, Representation::Ntt, y1);
    lemma_forward_rows(ctx, y0);
    lemma_forward_rows(ctx, y1);
    assert(ek.par() == par);
    let r0 = ct.polys()[0].rows();
    let r1 = ct.polys()[1].rows();
    assert(r0 == rows_combine(Operation::Add, f0, d0, m));
    assert(r1 == rows_combine(Operation::Add, f1, d1, m));
    let p = ct.polys();
    assert(phase(p, s, m, 1) == r0);
    assert(key_power(s, m, 1) == s);
    assert(phase(p, s, m, 2) == rows_combine(
        Operation::Add,
        phase(p, s, m, 1),
        rows_combine(Operation::Mul, p[1].rows(), key_power(s, m, 1), m),
        m,
    ));
    assert(sk.s().wf());
    lemma_folded_rows(f0, f1, d0, d1, s, m, n);
    // both halves are transforms
    lemma_transform_of_product(ctx, y1, sp);
    let first = rows_combine(Operation::Add, y0, rows_product(y1, sp, m), m);
    lemma_transform_combines(Operation::Add, ctx, y0, rows_product(y1, sp, m));
    lemma_transform_of_product(ctx, y2, sp2);
    let second = rows_combine(Operation::Add, noise, rows_product(y2, sp2, m), m);
    lemma_transform_combines(Operation::Add, ctx, noise, rows_product(y2, sp2, m));
    lemma_transform_combines(Operation::Add, ctx, first, second);
}

/// What three polynomials give with the key and its square, over the
/// integers: `t0 + t1 * s + t2 * s^2`.
pub open spec fn with_key(t0: Seq<int>, t1: Seq<int>, t2: Seq<int>, s: Seq<int>) -> Seq<int> {
    Seq::new(
        s.len(),
        |j: int|
            t0[j] + integer_product(t1, s)[j] + integer_product(t2, integer_product(s, s))[j],
    )
}

/// The rounding of the three polynomials of a product costs little: what
/// the scaled polynomials give with the key, times `q`, is `t` times what
/// the polynomials give with it, up to `q * rounding / 2`, where
/// `rounding` is `1 + n * kb + n * (n * kb * kb)` for a key with `n`
/// coefficients within `kb` of zero.
pub proof fn lemma_rounded_sum(
    t0: Seq<int>,
    t1: Seq<int>,
    t2: Seq<int>,
    s: Seq<int>,
    kb: int,
    t: nat,
    q: nat,
    j: int,
)
    requires
        t0.len() == s.len(),
        t1.len() == s.len(),
        t2.len() == s.len(),
        q >= 1,
        kb >= 0,
        forall|k: int| 0 <= k < s.len() ==> -kb <= #[trigger] s[k] <= kb,
        0 <= j < s.len(),
    ensures
        -(q * (1 + s.len() * kb + s.len() * (s.len() * kb * kb))) <= 2 * (q * with_key(
            scaled_numbers(t0, t, q),
            scaled_numbers(t1, t, q),
            scaled_numbers(t2, t, q),
            s,
        )[j] - t * with_key(t0, t1, t2, s)[j]) <= q * (1 + s.len() * kb + s.len() * (s.len() * kb
            * kb)),
{
    let n = s.len() as int;
    let qi = q as int;
    let ti = t as int;
    let half = qi / 2;
    lemma_div_bounds(qi, 2);
    let y0 = scaled_numbers(t0, t, q);
    let y1 = scaled_numbers(t1, t, q);
    let y2 = scaled_numbers(t2, t, q);
    let s2 = integer_product(s, s);
    lemma_integer_product_len(s, s);
    lemma_product_bound(s, s, kb, kb);
    let kb2 = n * kb * kb;
    assert(kb2 >= 0) by (nonlinear_arith)
        requires
            kb2 == n * kb * kb,
            n >= 0,
    ;
    // the rounding errors of the three polynomials
    let r1 = Seq::new(s.len(), |k: int| qi * y1[k] - ti * t1[k]);
    let r2 = Seq::new(s.len(), |k: int| qi * y2[k] - ti * t2[k]);
    let qy1 = Seq::new(s.len(), |k: int| qi * y1[k]);
    let qy2 = Seq::new(s.len(), |k: int| qi * y2[k]);
    lemma_scaling_error(t0[j], t, q);
    let r0 = qi * y0[j] - ti * t0[j];
    assert(-half <= r0 <= half);
    assert forall|k: int| 0 <= k < n implies -half <= #[trigger] r1[k] <= half by {
        lemma_scaling_error(t1[k], t, q);
    }
    assert forall|k: int| 0 <= k < n implies -half <= #[trigger] r2[k] <= half by {
        lemma_scaling_error(t2[k], t, q);
    }
    lemma_product_bound(r1, s, half, kb);
    lemma_product_bound(r2, s2, half, kb2);
    // q times a product, in two ways
    assert forall|k: int| 0 <= k < n implies #[trigger] qy1[k] == y1[k] + (qi - 1) * y1[k] by {
        assert(qi * y1[k] == y1[k] + (qi - 1) * y1[k]) by (nonlinear_arith);
    }
    assert forall|k: int| 0 <= k < n implies #[trigger] qy2[k] == y2[k] + (qi - 1) * y2[k] by {
        assert(qi * y2[k] == y2[k] + (qi - 1) * y2[k]) by (nonlinear_arith);
    }
    assert forall|k: int| 0 <= k < n implies #[trigger] qy1[k] == r1[k] + ti * t1[k] by {}
    assert forall|k: int| 0 <= k < n implies #[trigger] qy2[k] == r2[k] + ti * t2[k] by {}
    lemma_product_is_linear(y1, y1, qi - 1, qy1, s);
    lemma_product_is_linear(r1, t1, ti, qy1, s);
    lemma_product_is_linear(y2, y2, qi - 1, qy2, s2);
    lemma_product_is_linear(r2, t2, ti, qy2, s2);
    let py1 = integer_product(y1, s)[j];
    let py2 = integer_product(y2, s2)[j];
    let pt1 = integer_product(t1, s)[j];
    let pt2 = integer_product(t2, s2)[j];
    let pr1 = integer_product(r1, s)[j];
    let pr2 = integer_product(r2, s2)[j];
    let pq1 = integer_product(qy1, s)[j];
    let pq2 = integer_product(qy2, s2)[j];
    assert(pq1 == py1 + (qi - 1) * py1 && pq1 == pr1 + ti * pt1);
    assert(pq2 == py2 + (qi - 1) * py2 && pq2 == pr2 + ti * pt2);
    assert(qi * py1 == pr1 + ti * pt1) by (nonlinear_arith)
        requires
            pq1 == py1 + (qi - 1) * py1,
            pq1 == pr1 + ti * pt1,
    ;
    assert(qi * py2 == pr2 + ti * pt2) by (nonlinear_arith)
        requires
            pq2 == py2 + (qi - 1) * py2,
            pq2 == pr2 + ti * pt2,
    ;
    let u = with_key(y0, y1, y2, s)[j];
    let z = with_key(t0, t1, t2, s)[j];
    assert(u == y0[j] + py1 + py2);
    assert(z == t0[j] + pt1 + pt2);
    let rest = r0 + pr1 + pr2;
    assert(qi * u - ti * z == rest) by (nonlinear_arith)
        requires
            u == y0[j] + py1 + py2,
            z == t0[j] + pt1 + pt2,
            r0 == qi * y0[j] - ti * t0[j],
            qi * py1 == pr1 + ti * pt1,
            qi * py2 == pr2 + ti * pt2,
            rest == r0 + pr1 + pr2,
    ;
    // the bound
    let w1 = n * half * kb;
    let w2 = n * half * kb2;
    assert(-w1 <= pr1 <= w1);
    assert(-w2 <= pr2 <= w2);
    assert(2 * w1 <= qi * (n * kb)) by (nonlinear_arith)
        requires
            w1 == n * half * kb,
            2 * half <= qi,
            n >= 0,
            kb >= 0,
    {
        assert(n * kb >= 0);
        assert(2 * w1 == (n * kb) * (2 * half));
        assert((n * kb) * (2 * half) <= (n * kb) * qi);
    }
    assert(2 * w2 <= qi * (n * kb2)) by (nonlinear_arith)
        requires
            w2 == n * half * kb2,
            2 * half <= qi,
            n >= 0,
            kb2 >= 0,
    {
        assert(n * kb2 >= 0);
        assert(2 * w2 == (n * kb2) * (2 * half));
        assert((n * kb2) * (2 * half) <= (n * kb2) * qi);
    }
    assert(qi * (1 + n * kb + n * kb2) == qi + qi * (n * kb) + qi * (n * kb2))
        by (nonlinear_arith);
    assert(n * (n * kb * kb) == n * kb2);
}

/// How often what a ciphertext gives with the key wraps around the product
/// `q` of the moduli: the quotients by `q` of the differences between the
/// numbers `w` and the numbers `e + delta * v` that they stand for.
pub open spec fn wraps_of(w: Seq<int>, e: Seq<int>, v: Seq<u64>, delta: int, q: int) -> Seq<int> {
    Seq::new(w.len(), |k: int| (w[k] - (e[k] + v[k] * delta)) / q)
}

/// What a ciphertext of two polynomials gives with the key, over the
/// integers.
pub open spec fn given_with_key(sk: &SecretKey, ct: &Ciphertext, key: Seq<int>) -> Seq<int> {
    under_key(
        numbers_behind(sk.par().ctx(), ct.polys()[0].rows()),
        numbers_behind(sk.par().ctx(), ct.polys()[1].rows()),
        key,
    )
}

/// What a ciphertext that carries values blurred by errors gives with the
/// key is the error plus the value times the scaling constant, plus a
/// multiple of the product `q` of the moduli; and the multiple is within
/// `3 + n * kb` of zero, for a key with `n` coefficients within `kb` of
/// zero and an error which, with the plaintext modulus, is at most `q`.
pub proof fn lemma_wraps(
    sk: &SecretKey,
    ct: &Ciphertext,
    w: Seq<Seq<u64>>,
    vals: Seq<u64>,
    errs: Seq<int>,
    b: int,
    key: Seq<int>,
    kb: int,
    j: int,
)
    requires
        sk.wf(),
        ct.wf(),
        uses_reference_tables(sk.par().ctx()),
        ct.polys().len() == 2,
        carries(sk, ct, w),
        holds(
            w,
            sk.par().spec_moduli(),
            sk.par().spec_degree(),
            sk.par().spec_plaintext() as int,
            scaling(sk),
            vals,
            errs,
            b,
        ),
        key_is(sk, key, kb),
        b >= 0,
        kb >= 0,
        b + sk.par().spec_plaintext() <= sk.par().big_q(),
        0 <= j < sk.par().spec_degree(),
    ensures
        given_with_key(sk, ct, key).len() == sk.par().spec_degree(),
        given_with_key(sk, ct, key)[j] == errs[j] + scaling(sk) * vals[j] + sk.par().big_q()
            * wraps_of(
            given_with_key(sk, ct, key),
            errs,
            vals,
            scaling(sk),
            sk.par().big_q() as int,
        )[j],
        -(3 + sk.par().spec_degree() * kb) <= wraps_of(
            given_with_key(sk, ct, key),
            errs,
            vals,
            scaling(sk),
            sk.par().big_q() as int,
        )[j] <= 3 + sk.par().spec_degree() * kb,
{
    let par = sk.par();
    let ctx = par.ctx();
    let n = par.spec_degree();
    let t = par.spec_plaintext() as int;
    let q = par.big_q() as int;
    let delta = scaling(sk);
    let h = half_up(par);
    assert(ctx.moduli() == par.spec_moduli() && ctx.degree() == n);
    assert(ctx.rns().modulus_value() == par.big_q());
    assert(q >= 1);
    lemma_div_bounds(q, 2);
    let b0 = converted(ctx, Representation::Ntt, Representation::PowerBasis, ct.polys()[0].rows());
    let b1 = converted(ctx, Representation::Ntt, Representation::PowerBasis, ct.polys()[1].rows());
    let x0 = numbers_behind(ctx, ct.polys()[0].rows());
    let x1 = numbers_behind(ctx, ct.polys()[1].rows());
    let wk = given_with_key(sk, ct, key);
    lemma_centered_columns_bound(ctx, b0, j);
    assert forall|k: int| 0 <= k < x1.len() implies -h <= #[trigger] x1[k] <= h by {
        lemma_centered_columns_bound(ctx, b1, k);
    }
    lemma_product_bound(x1, key, h, kb);
    lemma_integer_product_len(x1, key);
    lemma_carried_numbers(sk, ct, w, vals, errs, b, key, kb, j);
    let carried = errs[j] + vals[j] * delta;
    let kappa = (wk[j] - carried) / q;
    lemma_fundamental_div_mod(wk[j] - carried, q);
    assert(vals[j] * delta == delta * vals[j]) by (nonlinear_arith);
    assert(q * kappa == wk[j] - carried);
    // the bound
    lemma_scaling_gap(par.big_q(), t as nat);
    assert(2 <= t);
    assert(delta >= 0) by (nonlinear_arith)
        requires
            t * delta > q - t,
            q >= 1,
            t >= 2,
    ;
    assert(0 <= vals[j] * delta <= q + t) by (nonlinear_arith)
        requires
            0 <= vals[j] < t,
            delta >= 0,
            t * delta <= q + t,
    {
        assert(vals[j] * delta <= t * delta);
    }
    let nk = n * kb;
    assert(nk >= 0) by (nonlinear_arith)
        requires
            nk == n * kb,
            n >= 0,
            kb >= 0,
    ;
    assert(x1.len() * h * kb == h * nk) by (nonlinear_arith)
        requires
            x1.len() == n,
            nk == n * kb,
    ;
    assert(h * nk <= q * nk) by (nonlinear_arith)
        requires
            0 <= h <= q,
            nk >= 0,
    ;
    assert(q * (3 + nk) == 3 * q + q * nk) by (nonlinear_arith);
    assert(-(q * (3 + nk)) <= q * kappa <= q * (3 + nk));
    assert(-(3 + nk) <= kappa <= 3 + nk) by (nonlinear_arith)
        requires
            -(q * (3 + nk)) <= q * kappa <= q * (3 + nk),
            q >= 1,
    ;
}

/// Whether `err` explains the number `u` as the value `val` times `delta`
/// plus an error within `bound` of zero, up to a multiple of `q`.
pub open spec fn explains(err: int, u: int, val: int, delta: int, q: int, bound: int) -> bool {
    &&& -bound <= err <= bound
    &&& (u - val * delta - err) % q == 0
}

/// The bound of the error of the product of two ciphertexts with errors
/// within `b0` and `b1` of zero, before the key switch, under a key with
/// coefficients within `kb` of zero, where the rounding errors add up to at
/// most `rounding / 2`.
pub open spec fn error_bound(par: BfvParameters, b0: int, b1: int, kb: int, rounding: int) -> int {
    let n = par.spec_degree() as int;
    product_bound(n, par.spec_plaintext() as int, b0, b1, 3 + n * kb, rounding)
}

/// The bound of the error of the product of two ciphertexts with the wide
/// extension, before the key switch.
pub open spec fn tensor_bound(par: BfvParameters, b0: int, b1: int, kb: int) -> int {
    let n = par.spec_degree() as int;
    error_bound(par, b0, b1, kb, 1 + n * kb + n * (n * kb * kb))
}

/// A number `u` which, times the product `q` of the moduli, is `t` times
/// a coefficient of the product of what two ciphertexts give with the key,
/// up to `q * rounding / 2`: it is the coefficient of the product of the two
/// plaintexts times the scaling constant, plus a small error, up to a
/// multiple of `q`.
pub proof fn lemma_explained_product(
    sk: &SecretKey,
    ct0: &Ciphertext,
    ct1: &Ciphertext,
    w0: Seq<Seq<u64>>,
    v0: Seq<u64>,
    e0: Seq<int>,
    b0: int,
    w1: Seq<Seq<u64>>,
    v1: Seq<u64>,
    e1: Seq<int>,
    b1: int,
    key: Seq<int>,
    kb: int,
    u: int,
    rounding: int,
    j: int,
)
    requires
        sk.wf(),
        ct0.wf(),
        ct1.wf(),
        uses_reference_tables(sk.par().ctx()),
        ct0.polys().len() == 2,
        ct1.polys().len() == 2,
        carries(sk, ct0, w0),
        carries(sk, ct1, w1),
        holds(
            w0,
            sk.par().spec_moduli(),
            sk.par().spec_degree(),
            sk.par().spec_plaintext() as int,
            scaling(sk),
            v0,
            e0,
            b0,
        ),
        holds(
            w1,
            sk.par().spec_moduli(),
            sk.par().spec_degree(),
            sk.par().spec_plaintext() as int,
            scaling(sk),
            v1,
            e1,
            b1,
        ),
        key_is(sk, key, kb),
        b0 >= 0,
        b1 >= 0,
        kb >= 0,
        b0 + sk.par().spec_plaintext() <= sk.par().big_q(),
        b1 + sk.par().spec_plaintext() <= sk.par().big_q(),
        sk.par().big_q() >= sk.par().spec_degree() * sk.par().spec_plaintext() * (b0 * b1
            + sk.par().spec_plaintext() * (b0 + b1) + sk.par().spec_plaintext()
            * sk.par().spec_plaintext()) + sk.par().spec_plaintext() * sk.par().spec_plaintext(),
        0 <= j < sk.par().spec_degree(),
        rounding >= 0,
        -(sk.par().big_q() * rounding) <= 2 * (sk.par().big_q() * u - sk.par().spec_plaintext()
            * integer_product(given_with_key(sk, ct0, key), given_with_key(sk, ct1, key))[j])
            <= sk.par().big_q() * rounding,
    ensures
        negacyclic_product(v0, v1, sk.par().spec_plaintext()).len() == sk.par().spec_degree(),
        negacyclic_product(v0, v1, sk.par().spec_plaintext())[j] < sk.par().spec_plaintext(),
        exists|err: int|
            explains(
                err,
                u,
                negacyclic_product(v0, v1, sk.par().spec_plaintext())[j] as int,
                scaling(sk),
                sk.par().big_q() as int,
                error_bound(sk.par(), b0, b1, kb, rounding),
            ),
{
    let par = sk.par();
    let ctx = par.ctx();
    let n = par.spec_degree();
    let tt = par.spec_plaintext();
    let t = tt as int;
    let q = par.big_q() as int;
    let delta = scaling(sk);
    assert(ctx.moduli() == par.spec_moduli() && ctx.degree() == n);
    assert(ct0.par() == par && ct1.par() == par);
    assert(q >= 1 && 2 <= t);
    lemma_scaling_gap(par.big_q(), t as nat);
    let wk0 = given_with_key(sk, ct0, key);
    let wk1 = given_with_key(sk, ct1, key);
    let k0 = wraps_of(wk0, e0, v0, delta, q);
    let k1 = wraps_of(wk1, e1, v1, delta, q);
    let z0 = as_ints(v0);
    let z1 = as_ints(v1);
    let wraps = 3 + n * kb;
    assert(wraps >= 0) by (nonlinear_arith)
        requires
            wraps == 3 + n * kb,
            n >= 0,
            kb >= 0,
    ;
    assert forall|k: int| 0 <= k < n implies #[trigger] wk0[k] == e0[k] + delta * z0[k] + q
        * k0[k] && -wraps <= k0[k] <= wraps by {
        lemma_wraps(sk, ct0, w0, v0, e0, b0, key, kb, k);
    }
    assert forall|k: int| 0 <= k < n implies #[trigger] wk1[k] == e1[k] + delta * z1[k] + q
        * k1[k] && -wraps <= k1[k] <= wraps by {
        lemma_wraps(sk, ct1, w1, v1, e1, b1, key, kb, k);
    }
    let z = integer_product(wk0, wk1)[j];
    lemma_nine_products(e0, z0, k0, e1, z1, k1, delta, q, wk0, wk1, j);
    // the bounds of the nine products
    assert forall|k: int| 0 <= k < n implies -t <= #[trigger] z0[k] <= t by {
        assert(v0[k] < t);
    }
    assert forall|k: int| 0 <= k < n implies -t <= #[trigger] z1[k] <= t by {
        assert(v1[k] < t);
    }
    lemma_product_bound(e0, e1, b0, b1);
    lemma_product_bound(e0, z1, b0, t);
    lemma_product_bound(e0, k1, b0, wraps);
    lemma_product_bound(z0, e1, t, b1);
    lemma_product_bound(z0, z1, t, t);
    lemma_product_bound(z0, k1, t, wraps);
    lemma_product_bound(k0, e1, wraps, b1);
    lemma_product_bound(k0, z1, wraps, t);
    let rr = q * u - t * z;
    assert(rounding * q == q * rounding) by (nonlinear_arith);
    let ee = integer_product(e0, e1)[j];
    let ev = integer_product(e0, z1)[j];
    let ek = integer_product(e0, k1)[j];
    let ve = integer_product(z0, e1)[j];
    let gg = integer_product(z0, z1)[j];
    let vk = integer_product(z0, k1)[j];
    let ke = integer_product(k0, e1)[j];
    let kv = integer_product(k0, z1)[j];
    let kk = integer_product(k0, k1)[j];
    lemma_tensor_coefficient(
        q,
        t,
        delta,
        u,
        z,
        rr,
        ee,
        ev,
        ek,
        ve,
        gg,
        vk,
        ke,
        kv,
        kk,
        n as int,
        b0,
        b1,
        wraps,
        rounding,
    );
    // the value is the coefficient of the product of the values
    assert forall|k: int| 0 <= k < n implies (#[trigger] v0[k]) as int == z0[k] % t by {
        lemma_small_mod(v0[k] as nat, t as nat);
    }
    assert forall|k: int| 0 <= k < n implies (#[trigger] v1[k]) as int == z1[k] % t by {
        lemma_small_mod(v1[k] as nat, t as nat);
    }
    lemma_product_residues(z0, z1, v0, v1, tt);
    crate::ntt::lemma_negacyclic_product_reduced(v0, v1, tt);
    let val = negacyclic_product(v0, v1, tt)[j] as int;
    assert(val == gg % t);
    let multiple = gg / t + vk + kv + t * kk;
    let err = u - val * delta - q * multiple;
    assert(u - val * delta - err == q * multiple);
    lemma_mod_multiples_basic(multiple, q);
    assert(q * multiple == multiple * q) by (nonlinear_arith);
    assert(explains(err, u, val, delta, q, error_bound(par, b0, b1, kb, rounding)));
}

/// A coefficient of what the three polynomials of the product of two
/// ciphertexts give with the key: the coefficient of the product of the
/// two plaintexts times the scaling constant, plus a small error, up to a
/// multiple of the product of the moduli.
pub proof fn lemma_product_number(
    sk: &SecretKey,
    ct0: &Ciphertext,
    ct1: &Ciphertext,
    w0: Seq<Seq<u64>>,
    v0: Seq<u64>,
    e0: Seq<int>,
    b0: int,
    w1: Seq<Seq<u64>>,
    v1: Seq<u64>,
    e1: Seq<int>,
    b1: int,
    key: Seq<int>,
    kb: int,
    j: int,
)
    requires
        sk.wf(),
        ct0.wf(),
        ct1.wf(),
        uses_reference_tables(sk.par().ctx()),
        ct0.polys().len() == 2,
        ct1.polys().len() == 2,
        carries(sk, ct0, w0),
        carries(sk, ct1, w1),
        holds(
            w0,
            sk.par().spec_moduli(),
            sk.par().spec_degree(),
            sk.par().spec_plaintext() as int,
            scaling(sk),
            v0,
            e0,
            b0,
        ),
        holds(
            w1,
            sk.par().spec_moduli(),
            sk.par().spec_degree(),
            sk.par().spec_plaintext() as int,
            scaling(sk),
            v1,
            e1,
            b1,
        ),
        key_is(sk, key, kb),
        b0 >= 0,
        b1 >= 0,
        kb >= 0,
        b0 + sk.par().spec_plaintext() <= sk.par().big_q(),
        b1 + sk.par().spec_plaintext() <= sk.par().big_q(),
        sk.par().big_q() >= sk.par().spec_degree() * sk.par().spec_plaintext() * (b0 * b1
            + sk.par().spec_plaintext() * (b0 + b1) + sk.par().spec_plaintext()
            * sk.par().spec_plaintext()) + sk.par().spec_plaintext() * sk.par().spec_plaintext(),
        0 <= j < sk.par().spec_degree(),
    ensures
        negacyclic_product(v0, v1, sk.par().spec_plaintext()).len() == sk.par().spec_degree(),
        negacyclic_product(v0, v1, sk.par().spec_plaintext())[j] < sk.par().spec_plaintext(),
        exists|err: int|
            explains(
                err,
                with_key(
                    scaled_numbers(
                        product_numbers(ct0, ct1, 0),
                        sk.par().spec_plaintext() as nat,
                        sk.par().big_q(),
                    ),
                    scaled_numbers(
                        product_numbers(ct0, ct1, 1),
                        sk.par().spec_plaintext() as nat,
                        sk.par().big_q(),
                    ),
                    scaled_numbers(
                        product_numbers(ct0, ct1, 2),
                        sk.par().spec_plaintext() as nat,
                        sk.par().big_q(),
                    ),
                    key,
                )[j],
                negacyclic_product(v0, v1, sk.par().spec_plaintext())[j] as int,
                scaling(sk),
                sk.par().big_q() as int,
                tensor_bound(sk.par(), b0, b1, kb),
            ),
{
    let par = sk.par();
    let ctx = par.ctx();
    let n = par.spec_degree();
    let t = par.spec_plaintext() as nat;
    let x0 = numbers_behind(ctx, ct0.polys()[0].rows());
    let x1 = numbers_behind(ctx, ct0.polys()[1].rows());
    let y0 = numbers_behind(ctx, ct1.polys()[0].rows());
    let y1 = numbers_behind(ctx, ct1.polys()[1].rows());
    assert(ctx.degree() == n);
    assert(ct0.par() == par && ct1.par() == par);
    let t0 = product_numbers(ct0, ct1, 0);
    let t1 = product_numbers(ct0, ct1, 1);
    let t2 = product_numbers(ct0, ct1, 2);
    lemma_integer_product_len(x0, y0);
    lemma_integer_product_len(x1, y1);
    lemma_tensor_is_product(x0, x1, y0, y1, key, j);
    lemma_rounded_sum(t0, t1, t2, key, kb, t, par.big_q(), j);
    let u = with_key(
        scaled_numbers(t0, t, par.big_q()),
        scaled_numbers(t1, t, par.big_q()),
        scaled_numbers(t2, t, par.big_q()),
        key,
    )[j];
    let rounding = 1 + n * kb + n * (n * kb * kb);
    assert(rounding >= 0) by (nonlinear_arith)
        requires
            rounding == 1 + n * kb + n * (n * kb * kb),
            n >= 0,
            kb >= 0,
    {
        assert(n * kb >= 0);
        assert(n * kb * kb >= 0);
        assert(n * (n * kb * kb) >= 0);
    }
    assert(with_key(t0, t1, t2, key)[j] == integer_product(
        given_with_key(sk, ct0, key),
        given_with_key(sk, ct1, key),
    )[j]);
    lemma_explained_product(sk, ct0, ct1, w0, v0, e0, b0, w1, v1, e1, b1, key, kb, u, rounding, j);
    let val = negacyclic_product(v0, v1, par.spec_plaintext())[j] as int;
    let q = par.big_q() as int;
    let bound = error_bound(par, b0, b1, kb, rounding);
    let err = choose|err: int| explains(err, u, val, scaling(sk), q, bound);
    assert(explains(err, u, val, scaling(sk), q, bound));
    assert(tensor_bound(par, b0, b1, kb) == bound);
    assert(explains(err, u, val, scaling(sk), q, tensor_bound(par, b0, b1, kb)));
}

/// The bound of the error that a key switch adds: each modulus adds at
/// most `n * 2^62 * 2 * variance` to a coefficient.
pub open spec fn switching_bound(par: BfvParameters) -> int {
    (par.spec_moduli().len() * (par.spec_degree() * 0x4000_0000_0000_0000 * (2
        * par.spec_variance()))) as int
}

/// Whether the moduli leave room for the product of two ciphertexts with
/// errors within `b0` and `b1` of zero, under a key with coefficients
/// within `kb` of zero: the larger context has room for the products of
/// the numbers behind the ciphertexts, and the ciphertext modulus for the
/// error of the product and of the key switch.
pub open spec fn has_room_product(sk: &SecretKey, b0: int, b1: int, kb: int) -> bool {
    let par = sk.par();
    let n = par.spec_degree();
    let t = par.spec_plaintext();
    &&& has_room_above(par)
    &&& b0 + t <= par.big_q()
    &&& b1 + t <= par.big_q()
    &&& par.big_q() >= n * t * (b0 * b1 + t * (b0 + b1) + t * t) + t * t
    &&& has_room(sk, tensor_bound(par, b0, b1, kb) + switching_bound(par))
}

/// Whether the polynomials of a product hold the residues of the numbers
/// `numbers.0`, `numbers.1` and `numbers.2`.
pub open spec fn product_holds(
    sk: &SecretKey,
    ct0: &Ciphertext,
    ct1: &Ciphertext,
    mp: MultiplicationParameters,
    numbers: (Seq<int>, Seq<int>, Seq<int>),
) -> bool {
    let m = sk.par().spec_moduli();
    let n = sk.par().spec_degree();
    &&& numbers.0.len() == n && numbers.1.len() == n && numbers.2.len() == n
    &&& forall|index: int|
        0 <= index <= 2 ==> rows_in(#[trigger] product_rows(ct0, ct1, mp, index), m, n)
    &&& forall|i: int, j: int|
        0 <= i < m.len() && 0 <= j < n ==> (#[trigger] product_rows(ct0, ct1, mp, 0)[i][j]) as int
            == numbers.0[j] % (m[i] as int)
    &&& forall|i: int, j: int|
        0 <= i < m.len() && 0 <= j < n ==> (#[trigger] product_rows(ct0, ct1, mp, 1)[i][j]) as int
            == numbers.1[j] % (m[i] as int)
    &&& forall|i: int, j: int|
        0 <= i < m.len() && 0 <= j < n ==> (#[trigger] product_rows(ct0, ct1, mp, 2)[i][j]) as int
            == numbers.2[j] % (m[i] as int)
}

/// Whether the number `u[j]` is explained as the value `vals[j]` times
/// `delta` plus an error within `bound` of zero, up to a multiple of `q`.
pub open spec fn is_explained(
    u: Seq<int>,
    vals: Seq<u64>,
    delta: int,
    q: int,
    bound: int,
    j: int,
) -> bool {
    exists|err: int| explains(err, u[j], vals[j] as int, delta, q, bound)
}

/// A relinearized product decrypts to the values `vals`, where what the
/// numbers behind its three polynomials give with the key is explained by
/// the values with errors within `bound` of zero, and the moduli leave
/// room for those errors and that of the key switch.
pub proof fn lemma_folded_decryption(
    sk: &SecretKey,
    ek: &EvaluationKey,
    ct0: &Ciphertext,
    ct1: &Ciphertext,
    ct: &Ciphertext,
    mp: MultiplicationParameters,
    numbers: (Seq<int>, Seq<int>, Seq<int>),
    vals: Seq<u64>,
    bound: int,
    key: Seq<int>,
    kb: int,
    seed: Seed,
    error_seed: Seed,
)
    requires
        sk.wf(),
        ek.wf(),
        ct.wf(),
        uses_reference_tables(sk.par().ctx()),
        ct0.par() == sk.par(),
        key_is(sk, key, kb),
        ek.made_with(sk, true, squared_rows(sk), seed, error_seed),
        is_product(ct, ct0, ct1, ek, mp),
        product_holds(sk, ct0, ct1, mp, numbers),
        vals.len() == sk.par().spec_degree(),
        forall|j: int|
            0 <= j < sk.par().spec_degree() ==> (#[trigger] vals[j]) < sk.par().spec_plaintext(),
        forall|j: int|
            0 <= j < sk.par().spec_degree() ==> #[trigger] is_explained(
                with_key(numbers.0, numbers.1, numbers.2, key),
                vals,
                scaling(sk),
                sk.par().big_q() as int,
                bound,
                j,
            ),
        has_room(sk, bound + switching_bound(sk.par())),
    ensures
        sk.decrypted(ct) == vals,
{
    let par = sk.par();
    let ctx = par.ctx();
    let m = par.spec_moduli();
    let n = par.spec_degree();
    let tt = par.spec_plaintext();
    let t = tt as int;
    let q = par.big_q() as int;
    let delta = scaling(sk);
    let extra = switching_bound(par);
    assert(ctx.moduli() == m && ctx.degree() == n);
    assert forall|i: int| 0 <= i < m.len() implies #[trigger] m[i] >= 1 by {
        assert(2 <= m[i]);
    }
    lemma_product_is_carried(sk, ek, ct0, ct1, ct, mp, key, kb, seed, error_seed);
    let wr = product_carried(sk, ct0, ct1, mp, key, error_seed@);
    let y0 = product_rows(ct0, ct1, mp, 0);
    let y1 = product_rows(ct0, ct1, mp, 1);
    let y2 = product_rows(ct0, ct1, mp, 2);
    assert(rows_in(y0, m, n) && rows_in(y1, m, n) && rows_in(y2, m, n));
    let n0 = numbers.0;
    let n1 = numbers.1;
    let n2 = numbers.2;
    let u = with_key(n0, n1, n2, key);
    let noise = noise_numbers(par, y2, error_seed@, m.len());
    let errs = Seq::new(
        n,
        |j: int| (choose|err: int| explains(err, u[j], vals[j] as int, delta, q, bound)) + noise[j],
    );
    let sp = power_rows(key, m, n);
    let sp2 = rows_product(sp, sp, m);
    let s2 = integer_product(key, key);
    lemma_integer_product_len(key, key);
    let rows_noise = switching_noise(par, y2, error_seed@, m.len());
    let first = rows_product(y1, sp, m);
    let second = rows_product(y2, sp2, m);
    assert forall|j: int| 0 <= j < n implies -(bound + extra) <= #[trigger] errs[j] <= bound
        + extra && (forall|i: int|
        0 <= i < m.len() ==> (#[trigger] wr[i][j]) as int == (errs[j] + vals[j] * delta) % (
        m[i] as int)) by {
        assert(is_explained(u, vals, delta, q, bound, j));
        let err = choose|err: int| explains(err, u[j], vals[j] as int, delta, q, bound);
        assert(explains(err, u[j], vals[j] as int, delta, q, bound));
        lemma_switching_noise(par, y2, error_seed@, m.len(), 0, j);
        assert(errs[j] == err + noise[j]);
        assert forall|i: int| 0 <= i < m.len() implies (#[trigger] wr[i][j]) as int == (errs[j]
            + vals[j] * delta) % (m[i] as int) by {
            let p = m[i] as int;
            assert(2 <= m[i]);
            assert(y0[i].len() == n && y1[i].len() == n && y2[i].len() == n && sp[i].len() == n);
            assert forall|k: int| 0 <= k < n implies (#[trigger] y1[i][k]) as int == n1[k]
                % p by {}
            assert forall|k: int| 0 <= k < n implies (#[trigger] y2[i][k]) as int == n2[k]
                % p by {}
            assert(y0[i][j] as int == n0[j] % p);
            assert forall|k: int| 0 <= k < n implies (#[trigger] sp[i][k]) as int == key[k]
                % p by {
                lemma_mod_bound(key[k], p);
            }
            lemma_product_residues(n1, key, y1[i], sp[i], m[i]);
            lemma_product_residues(key, key, sp[i], sp[i], m[i]);
            assert(sp2[i] == negacyclic_product(sp[i], sp[i], m[i]));
            lemma_product_residues(n2, s2, y2[i], sp2[i], m[i]);
            lemma_switching_noise(par, y2, error_seed@, m.len(), i, j);
            let a = n0[j];
            let b = integer_product(n1, key)[j];
            let c = noise[j];
            let d = integer_product(n2, s2)[j];
            assert(first[i] == negacyclic_product(y1[i], sp[i], m[i]));
            assert(second[i] == negacyclic_product(y2[i], sp2[i], m[i]));
            assert(first[i][j] as int == b % p);
            assert(second[i][j] as int == d % p);
            assert(rows_noise[i][j] as int == c % p);
            lemma_mod_bound(y0[i][j] + first[i][j], p);
            lemma_mod_bound(rows_noise[i][j] + second[i][j], p);
            let left = (y0[i][j] + first[i][j]) % p;
            let right = (rows_noise[i][j] + second[i][j]) % p;
            lemma_mod_bound(left + right, p);
            assert(wr[i][j] as int == (left + right) % p);
            lemma_add_mod_noop(a, b, p);
            lemma_add_mod_noop(c, d, p);
            lemma_add_mod_noop(a + b, c + d, p);
            assert(u[j] == a + b + d);
            assert(wr[i][j] as int == (u[j] + c) % p);
            // the multiple of the product of the moduli vanishes
            let gap = u[j] - vals[j] * delta - err;
            lemma_fundamental_div_mod(gap, q);
            crate::rns::lemma_factor_divides(m, i);
            lemma_fundamental_div_mod(q, p);
            let times = gap / q;
            assert(gap == p * (times * (q / p))) by (nonlinear_arith)
                requires
                    gap == q * times,
                    q == p * (q / p),
            ;
            lemma_mod_multiples_vanish(times * (q / p), errs[j] + vals[j] * delta, p);
            assert(u[j] + c == p * (times * (q / p)) + (errs[j] + vals[j] * delta));
        }
    }
    assert(bound + extra >= 0) by {
        assert(is_explained(u, vals, delta, q, bound, 0));
        let err = choose|err: int| explains(err, u[0], vals[0] as int, delta, q, bound);
        assert(explains(err, u[0], vals[0] as int, delta, q, bound));
        lemma_switching_noise(par, y2, error_seed@, m.len(), 0, 0);
    }
    assert(holds(wr, m, n, t, delta, vals, errs, bound + extra));
    lemma_decryption(sk, ct, wr, vals, errs, bound + extra);
}

/// The relinearized product of two ciphertexts that carry values blurred
/// by errors decrypts to the product of the values modulo `x^n + 1` and
/// the plaintext modulus, as long as the moduli leave room for the product.
pub proof fn lemma_product_decryption(
    sk: &SecretKey,
    ek: &EvaluationKey,
    ct0: &Ciphertext,
    ct1: &Ciphertext,
    ct: &Ciphertext,
    w0: Seq<Seq<u64>>,
    v0: Seq<u64>,
    e0: Seq<int>,
    b0: int,
    w1: Seq<Seq<u64>>,
    v1: Seq<u64>,
    e1: Seq<int>,
    b1: int,
    key: Seq<int>,
    kb: int,
    seed: Seed,
    error_seed: Seed,
)
    requires
        sk.wf(),
        ek.wf(),
        ct0.wf(),
        ct1.wf(),
        ct.wf(),
        uses_reference_tables(sk.par().ctx()),
        uses_reference_tables(sk.par().mul_1_params().to()),
        ct0.polys().len() == 2,
        ct1.polys().len() == 2,
        carries(sk, ct0, w0),
        carries(sk, ct1, w1),
        holds(
            w0,
            sk.par().spec_moduli(),
            sk.par().spec_degree(),
            sk.par().spec_plaintext() as int,
            scaling(sk),
            v0,
            e0,
            b0,
        ),
        holds(
            w1,
            sk.par().spec_moduli(),
            sk.par().spec_degree(),
            sk.par().spec_plaintext() as int,
            scaling(sk),
            v1,
            e1,
            b1,
        ),
        key_is(sk, key, kb),
        b0 >= 0,
        b1 >= 0,
        kb >= 0,
        ek.made_with(sk, true, squared_rows(sk), seed, error_seed),
        is_product(ct, ct0, ct1, ek, sk.par().mul_1_params()),
        has_room_product(sk, b0, b1, kb),
    ensures
        sk.decrypted(ct) == negacyclic_product(v0, v1, sk.par().spec_plaintext()),
{
    let par = sk.par();
    let n = par.spec_degree();
    let t = par.spec_plaintext() as nat;
    let mp = par.mul_1_params();
    let bound = tensor_bound(par, b0, b1, kb);
    assert(ct0.par() == par && ct1.par() == par);
    let numbers = (
        scaled_numbers(product_numbers(ct0, ct1, 0), t, par.big_q()),
        scaled_numbers(product_numbers(ct0, ct1, 1), t, par.big_q()),
        scaled_numbers(product_numbers(ct0, ct1, 2), t, par.big_q()),
    );
    let vals = negacyclic_product(v0, v1, par.spec_plaintext());
    assert(product_holds(sk, ct0, ct1, mp, numbers)) by {
        lemma_product_rows(ct0, ct1, 0, 0);
        lemma_product_rows(ct0, ct1, 1, 0);
        lemma_product_rows(ct0, ct1, 2, 0);
        assert forall|i: int, j: int|
            0 <= i < par.spec_moduli().len() && 0 <= j < n implies (#[trigger] product_rows(
            ct0,
            ct1,
            mp,
            0,
        )[i][j]) as int == numbers.0[j] % (par.spec_moduli()[i] as int) by {
            lemma_product_rows(ct0, ct1, 0, j);
        }
        assert forall|i: int, j: int|
            0 <= i < par.spec_moduli().len() && 0 <= j < n implies (#[trigger] product_rows(
            ct0,
            ct1,
            mp,
            1,
        )[i][j]) as int == numbers.1[j] % (par.spec_moduli()[i] as int) by {
            lemma_product_rows(ct0, ct1, 1, j);
        }
        assert forall|i: int, j: int|
            0 <= i < par.spec_moduli().len() && 0 <= j < n implies (#[trigger] product_rows(
            ct0,
            ct1,
            mp,
            2,
        )[i][j]) as int == numbers.2[j] % (par.spec_moduli()[i] as int) by {
            lemma_product_rows(ct0, ct1, 2, j);
        }
    }
    crate::ntt::lemma_negacyclic_product_reduced(v0, v1, par.spec_plaintext());
    assert forall|j: int| 0 <= j < n implies #[trigger] is_explained(
        with_key(numbers.0, numbers.1, numbers.2, key),
        vals,
        scaling(sk),
        par.big_q() as int,
        bound,
        j,
    ) by {
        lemma_product_number(sk, ct0, ct1, w0, v0, e0, b0, w1, v1, e1, b1, key, kb, j);
    }
    lemma_folded_decryption(
        sk,
        ek,
        ct0,
        ct1,
        ct,
        mp,
        numbers,
        vals,
        bound,
        key,
        kb,
        seed,
        error_seed,
    );
}

/// The relinearized product of two fresh ciphertexts decrypts to the
/// product of the two plaintexts modulo `x^n + 1` and the plaintext
/// modulus.
///
/// This holds for a key drawn from a seed, an evaluation key built from
/// seeds and plaintexts of the same parameters, where the two contexts of
/// the multiplication use the reference tables of the transform and the
/// moduli leave room for the product.
pub proof fn lemma_product_round_trip(
    sk: &SecretKey,
    ek: &EvaluationKey,
    pt0: &Plaintext,
    pt1: &Plaintext,
    ct0: &Ciphertext,
    ct1: &Ciphertext,
    ct: &Ciphertext,
    key_seed: Seed,
    seeds: (Seed, Seed, Seed, Seed, Seed, Seed),
)
    requires
        sk.wf(),
        ek.wf(),
        ct.wf(),
        pt0.wf(),
        pt1.wf(),
        pt0.par() == sk.par(),
        pt1.par() == sk.par(),
        sk.s().rows() == small_rows(
            sk.par().ctx(),
            Representation::NttShoup,
            sk.par().spec_variance(),
            key_seed@,
        ),
        uses_reference_tables(sk.par().ctx()),
        uses_reference_tables(sk.par().mul_1_params().to()),
        sk.is_encryption(ct0, pt0, seeds.0, seeds.1),
        sk.is_encryption(ct1, pt1, seeds.2, seeds.3),
        ek.made_with(sk, true, squared_rows(sk), seeds.4, seeds.5),
        is_product(ct, ct0, ct1, ek, sk.par().mul_1_params()),
        has_room_product(
            sk,
            2 * sk.par().spec_variance() as int,
            2 * sk.par().spec_variance() as int,
            2 * sk.par().spec_variance() as int,
        ),
    ensures
        sk.decrypted(ct) == negacyclic_product(
            pt0.values(),
            pt1.values(),
            sk.par().spec_plaintext(),
        ),
{
    let n = sk.par().spec_degree();
    let variance = sk.par().spec_variance();
    let b = 2 * variance as int;
    let key = small_coefficients(key_seed@, variance, n);
    assert forall|j: int| 0 <= j < key.len() implies -b <= #[trigger] key[j] <= b by {
        lemma_small_sample(chacha8_words(key_seed@, n)[j], variance);
    }
    lemma_fresh_carries(sk, pt0, ct0, seeds.0, seeds.1);
    lemma_fresh_carries(sk, pt1, ct1, seeds.2, seeds.3);
    lemma_product_decryption(
        sk,
        ek,
        ct0,
        ct1,
        ct,
        fresh_rows(sk, pt0, seeds.1),
        pt0.values(),
        small_coefficients(seeds.1@, variance, n),
        b,
        fresh_rows(sk, pt1, seeds.3),
        pt1.values(),
        small_coefficients(seeds.3@, variance, n),
        b,
        key,
        b,
        seeds.4,
        seeds.5,
    );
}

/// The relinearized product of two fresh ciphertexts decrypts to a
/// plaintext whose slots, decoded as a batch, are the products of the slots
/// of the two plaintexts.
///
/// This holds under the conditions of the product of fresh ciphertexts,
/// where the transform modulo the plaintext modulus uses the reference
/// tables too.
pub proof fn lemma_batched_product_of_ciphertexts(
    sk: &SecretKey,
    ek: &EvaluationKey,
    encoding: Encoding,
    pt0: &Plaintext,
    pt1: &Plaintext,
    ct0: &Ciphertext,
    ct1: &Ciphertext,
    ct: &Ciphertext,
    key_seed: Seed,
    seeds: (Seed, Seed, Seed, Seed, Seed, Seed),
)
    requires
        sk.wf(),
        ek.wf(),
        ct.wf(),
        pt0.wf(),
        pt1.wf(),
        pt0.par() == sk.par(),
        pt1.par() == sk.par(),
        encoding.encoding == EncodingEnum::Simd,
        sk.par().op() matches Some(o) && !o.accelerated(),
        sk.s().rows() == small_rows(
            sk.par().ctx(),
            Representation::NttShoup,
            sk.par().spec_variance(),
            key_seed@,
        ),
        uses_reference_tables(sk.par().ctx()),
        uses_reference_tables(sk.par().mul_1_params().to()),
        sk.is_encryption(ct0, pt0, seeds.0, seeds.1),
        sk.is_encryption(ct1, pt1, seeds.2, seeds.3),
        ek.made_with(sk, true, squared_rows(sk), seeds.4, seeds.5),
        is_product(ct, ct0, ct1, ek, sk.par().mul_1_params()),
        has_room_product(
            sk,
            2 * sk.par().spec_variance() as int,
            2 * sk.par().spec_variance() as int,
            2 * sk.par().spec_variance() as int,
        ),
    ensures
        crate::plaintext::decoded(sk.decrypted(ct), encoding, sk.par()) == pointwise_product(
            crate::plaintext::decoded(pt0.values(), encoding, sk.par()),
            crate::plaintext::decoded(pt1.values(), encoding, sk.par()),
            sk.par().spec_plaintext(),
        ),
{
    lemma_product_round_trip(sk, ek, pt0, pt1, ct0, ct1, ct, key_seed, seeds);
    lemma_slots_multiply(sk.par(), encoding, pt0.values(), pt1.values());
}

/// The three polynomials of the product of two pairs of polynomials, as
/// they are added up product by product: `a0 * b0`, `a0 * b1 + a1 * b0`
/// and `a1 * b1`.
pub proof fn lemma_tensor_of_pairs(
    a: Seq<Seq<Seq<u64>>>,
    b: Seq<Seq<Seq<u64>>>,
    m: Seq<u64>,
    n: nat,
)
    requires
        a.len() == 2,
        b.len() == 2,
        shaped(a[0], m.len(), n),
        shaped(a[1], m.len(), n),
        forall|i: int| 0 <= i < m.len() ==> #[trigger] m[i] > 0,
    ensures
        tensor(a, b, m, n, 4).len() == 3,
        tensor(a, b, m, n, 4)[0] == rows_combine(Operation::Mul, a[0], b[0], m),
        tensor(a, b, m, n, 4)[1] == rows_combine(
            Operation::Add,
            rows_combine(Operation::Mul, a[0], b[1], m),
            rows_combine(Operation::Mul, a[1], b[0], m),
            m,
        ),
        tensor(a, b, m, n, 4)[2] == rows_combine(Operation::Mul, a[1], b[1], m),
{
    let zero = rows_zero(m.len(), n);
    let s0 = tensor(a, b, m, n, 0);
    let s1 = tensor(a, b, m, n, 1);
    let s2 = tensor(a, b, m, n, 2);
    let s3 = tensor(a, b, m, n, 3);
    let s4 = tensor(a, b, m, n, 4);
    let x00 = rows_combine(Operation::Mul, a[0], b[0], m);
    let x01 = rows_combine(Operation::Mul, a[0], b[1], m);
    let x10 = rows_combine(Operation::Mul, a[1], b[0], m);
    let x11 = rows_combine(Operation::Mul, a[1], b[1], m);
    lemma_combined_rows(Operation::Mul, a[0], b[0], m, n);
    lemma_combined_rows(Operation::Mul, a[0], b[1], m, n);
    lemma_combined_rows(Operation::Mul, a[1], b[0], m, n);
    lemma_combined_rows(Operation::Mul, a[1], b[1], m, n);
    assert(s0.len() == 3 && s0[0] == zero && s0[1] == zero && s0[2] == zero);
    assert(s1 == s0.update(0, rows_combine(Operation::Add, s0[0], x00, m)));
    assert(s2 == s1.update(1, rows_combine(Operation::Add, s1[1], x01, m)));
    assert(s3 == s2.update(1, rows_combine(Operation::Add, s2[1], x10, m)));
    assert(s4 == s3.update(2, rows_combine(Operation::Add, s3[2], x11, m)));
    // adding to zero changes nothing
    assert forall|x: Seq<Seq<u64>>| #[trigger] rows_in(x, m, n) implies rows_combine(
        Operation::Add,
        zero,
        x,
        m,
    ) == x by {
        let y = rows_combine(Operation::Add, zero, x, m);
        assert forall|i: int| 0 <= i < m.len() implies #[trigger] y[i] =~= x[i] by {
            assert(x[i].len() == n && reduced(x[i], m[i]));
            assert forall|j: int| 0 <= j < n implies y[i][j] == x[i][j] by {
                lemma_small_mod(x[i][j] as nat, m[i] as nat);
            }
        }
        assert(y =~= x);
    }
    assert(s1[0] == x00);
    assert(s2[1] == x01);
    assert(s4[2] == x11);
}

/// Whether `ct` is the product of two ciphertexts of two polynomials each
/// without relinearization: a ciphertext of the three polynomials of the
/// product, scaled back.
pub open spec fn is_tensor(ct: &Ciphertext, ct0: &Ciphertext, ct1: &Ciphertext) -> bool {
    let par = ct0.par();
    let mp = par.mul_1_params();
    let t = tensor(
        extended(ct0, mp.extender_self()),
        extended(ct1, mp.extender_self()),
        mp.to().moduli(),
        par.spec_degree(),
        4,
    );
    &&& ct.wf()
    &&& ct.par() == par
    &&& !ct.minimized()
    &&& ct.polys().len() == 3
    &&& forall|l: int|
        0 <= l < 3 ==> (#[trigger] ct.polys()[l]).rows() == converted(
            par.ctx(),
            Representation::PowerBasis,
            Representation::Ntt,
            scaled_from_ntt(t[l], mp.down_scaler()),
        )
}

/// The product of two ciphertexts without relinearization, a ciphertext of
/// three polynomials, decrypts to the product of the values that the two
/// ciphertexts carry, modulo `x^n + 1` and the plaintext modulus, as long
/// as the moduli leave room for the product.
pub proof fn lemma_tensor_decryption(
    sk: &SecretKey,
    ct0: &Ciphertext,
    ct1: &Ciphertext,
    ct: &Ciphertext,
    w0: Seq<Seq<u64>>,
    v0: Seq<u64>,
    e0: Seq<int>,
    b0: int,
    w1: Seq<Seq<u64>>,
    v1: Seq<u64>,
    e1: Seq<int>,
    b1: int,
    key: Seq<int>,
    kb: int,
)
    requires
        sk.wf(),
        ct0.wf(),
        ct1.wf(),
        uses_reference_tables(sk.par().ctx()),
        uses_reference_tables(sk.par().mul_1_params().to()),
        ct0.polys().len() == 2,
        ct1.polys().len() == 2,
        carries(sk, ct0, w0),
        carries(sk, ct1, w1),
        holds(
            w0,
            sk.par().spec_moduli(),
            sk.par().spec_degree(),
            sk.par().spec_plaintext() as int,
            scaling(sk),
            v0,
            e0,
            b0,
        ),
        holds(
            w1,
            sk.par().spec_moduli(),
            sk.par().spec_degree(),
            sk.par().spec_plaintext() as int,
            scaling(sk),
            v1,
            e1,
            b1,
        ),
        key_is(sk, key, kb),
        b0 >= 0,
        b1 >= 0,
        kb >= 0,
        is_tensor(ct, ct0, ct1),
        has_room_above(sk.par()),
        b0 + sk.par().spec_plaintext() <= sk.par().big_q(),
        b1 + sk.par().spec_plaintext() <= sk.par().big_q(),
        sk.par().big_q() >= sk.par().spec_degree() * sk.par().spec_plaintext() * (b0 * b1
            + sk.par().spec_plaintext() * (b0 + b1) + sk.par().spec_plaintext()
            * sk.par().spec_plaintext()) + sk.par().spec_plaintext() * sk.par().spec_plaintext(),
        has_room(sk, tensor_bound(sk.par(), b0, b1, kb)),
    ensures
        sk.decrypted(ct) == negacyclic_product(v0, v1, sk.par().spec_plaintext()),
{
    let par = sk.par();
    let ctx = par.ctx();
    let m = par.spec_moduli();
    let n = par.spec_degree();
    let tt = par.spec_plaintext();
    let t = tt as int;
    let q = par.big_q() as int;
    let delta = scaling(sk);
    let mp = par.mul_1_params();
    let to = mp.to();
    let bound = tensor_bound(par, b0, b1, kb);
    let s = sk.s().rows();
    assert(ctx.moduli() == m && ctx.degree() == n);
    assert(ct0.par() == par && ct1.par() == par);
    assert(to.wf() && to.degree() == n && mp.from() == ctx);
    assert forall|i: int| 0 <= i < m.len() implies #[trigger] m[i] >= 1 by {
        assert(2 <= m[i]);
    }
    assert forall|i: int| 0 <= i < to.moduli().len() implies #[trigger] to.moduli()[i] > 0 by {
        assert(2 <= to.moduli()[i]);
    }
    // the three polynomials are those of the product of the pairs
    let a = extended(ct0, mp.extender_self());
    let b = extended(ct1, mp.extender_self());
    lemma_extended_rows(ctx, to, ct0.polys()[0].rows());
    lemma_extended_rows(ctx, to, ct0.polys()[1].rows());
    lemma_forward_rows(to, extended_rows(ctx, to, ct0.polys()[0].rows()));
    lemma_forward_rows(to, extended_rows(ctx, to, ct0.polys()[1].rows()));
    lemma_tensor_of_pairs(a, b, to.moduli(), n);
    let y0 = product_rows(ct0, ct1, mp, 0);
    let y1 = product_rows(ct0, ct1, mp, 1);
    let y2 = product_rows(ct0, ct1, mp, 2);
    let all = tensor(a, b, to.moduli(), n, 4);
    assert(scaled_from_ntt(all[0], mp.down_scaler()) == y0);
    assert(scaled_from_ntt(all[1], mp.down_scaler()) == y1);
    assert(scaled_from_ntt(all[2], mp.down_scaler()) == y2);
    lemma_product_rows(ct0, ct1, 0, 0);
    lemma_product_rows(ct0, ct1, 1, 0);
    lemma_product_rows(ct0, ct1, 2, 0);
    // with the key and its square, they are the transform of rows
    let sp = power_rows(key, m, n);
    assert(rows_in(sp, m, n)) by {
        assert forall|i: int| 0 <= i < sp.len() implies (#[trigger] sp[i]).len() == n && reduced(
            sp[i],
            m[i],
        ) by {
            assert(2 <= m[i]);
            assert forall|k: int| 0 <= k < n implies #[trigger] sp[i][k] < m[i] by {
                lemma_mod_bound(key[k], m[i] as int);
            }
        }
    }
    assert(s =~= converted(ctx, Representation::PowerBasis, Representation::Ntt, sp));
    let sp2 = rows_product(sp, sp, m);
    lemma_transform_of_product(ctx, sp, sp);
    lemma_transform_of_product(ctx, y1, sp);
    lemma_transform_of_product(ctx, y2, sp2);
    let first = rows_product(y1, sp, m);
    let second = rows_product(y2, sp2, m);
    let pair = rows_combine(Operation::Add, y0, first, m);
    lemma_transform_combines(Operation::Add, ctx, y0, first);
    let wr = rows_combine(Operation::Add, pair, second, m);
    lemma_transform_combines(Operation::Add, ctx, pair, second);
    let p = ct.polys();
    assert(p[0].rows() == converted(ctx, Representation::PowerBasis, Representation::Ntt, y0));
    assert(p[1].rows() == converted(ctx, Representation::PowerBasis, Representation::Ntt, y1));
    assert(p[2].rows() == converted(ctx, Representation::PowerBasis, Representation::Ntt, y2));
    assert(phase(p, s, m, 1) == p[0].rows());
    assert(key_power(s, m, 1) == s);
    assert(key_power(s, m, 2) == rows_combine(Operation::Mul, key_power(s, m, 1), s, m));
    assert(phase(p, s, m, 2) == rows_combine(
        Operation::Add,
        phase(p, s, m, 1),
        rows_combine(Operation::Mul, p[1].rows(), key_power(s, m, 1), m),
        m,
    ));
    assert(phase(p, s, m, 3) == rows_combine(
        Operation::Add,
        phase(p, s, m, 2),
        rows_combine(Operation::Mul, p[2].rows(), key_power(s, m, 2), m),
        m,
    ));
    assert(carries(sk, ct, wr));
    // the rows hold the values and small errors
    let n0 = scaled_numbers(product_numbers(ct0, ct1, 0), t as nat, par.big_q());
    let n1 = scaled_numbers(product_numbers(ct0, ct1, 1), t as nat, par.big_q());
    let n2 = scaled_numbers(product_numbers(ct0, ct1, 2), t as nat, par.big_q());
    let u = with_key(n0, n1, n2, key);
    let vals = negacyclic_product(v0, v1, tt);
    let errs = Seq::new(
        n,
        |j: int| choose|err: int| explains(err, u[j], vals[j] as int, delta, q, bound),
    );
    let s2 = integer_product(key, key);
    lemma_integer_product_len(key, key);
    crate::ntt::lemma_negacyclic_product_reduced(v0, v1, tt);
    assert forall|j: int| 0 <= j < n implies (#[trigger] vals[j]) < t && -bound <= errs[j]
        <= bound && (forall|i: int|
        0 <= i < m.len() ==> (#[trigger] wr[i][j]) as int == (errs[j] + vals[j] * delta) % (
        m[i] as int)) by {
        lemma_product_number(sk, ct0, ct1, w0, v0, e0, b0, w1, v1, e1, b1, key, kb, j);
        let err = choose|err: int| explains(err, u[j], vals[j] as int, delta, q, bound);
        assert(explains(err, u[j], vals[j] as int, delta, q, bound));
        assert forall|i: int| 0 <= i < m.len() implies (#[trigger] wr[i][j]) as int == (errs[j]
            + vals[j] * delta) % (m[i] as int) by {
            let md = m[i] as int;
            assert(2 <= m[i]);
            assert(y0[i].len() == n && y1[i].len() == n && y2[i].len() == n && sp[i].len() == n);
            assert forall|k: int| 0 <= k < n implies (#[trigger] y1[i][k]) as int == n1[k]
                % md by {
                lemma_product_rows(ct0, ct1, 1, k);
            }
            assert forall|k: int| 0 <= k < n implies (#[trigger] y2[i][k]) as int == n2[k]
                % md by {
                lemma_product_rows(ct0, ct1, 2, k);
            }
            lemma_product_rows(ct0, ct1, 0, j);
            assert(y0[i][j] as int == n0[j] % md);
            assert forall|k: int| 0 <= k < n implies (#[trigger] sp[i][k]) as int == key[k]
                % md by {
                lemma_mod_bound(key[k], md);
            }
            lemma_product_residues(n1, key, y1[i], sp[i], m[i]);
            lemma_product_residues(key, key, sp[i], sp[i], m[i]);
            assert(sp2[i] == negacyclic_product(sp[i], sp[i], m[i]));
            lemma_product_residues(n2, s2, y2[i], sp2[i], m[i]);
            let x = n0[j];
            let y = integer_product(n1, key)[j];
            let z = integer_product(n2, s2)[j];
            assert(first[i] == negacyclic_product(y1[i], sp[i], m[i]));
            assert(second[i] == negacyclic_product(y2[i], sp2[i], m[i]));
            assert(first[i][j] as int == y % md);
            assert(second[i][j] as int == z % md);
            lemma_mod_bound(y0[i][j] + first[i][j], md);
            assert(pair[i][j] as int == (y0[i][j] + first[i][j]) % md);
            assert(pair[i].len() == n);
            lemma_mod_bound(pair[i][j] + second[i][j], md);
            assert(wr[i][j] as int == (pair[i][j] + second[i][j]) % md);
            lemma_add_mod_noop(x, y, md);
            lemma_add_mod_noop(x + y, z, md);
            assert(u[j] == x + y + z);
            assert(wr[i][j] as int == u[j] % md);
            // the multiple of the product of the moduli vanishes
            let gap = u[j] - vals[j] * delta - err;
            lemma_fundamental_div_mod(gap, q);
            crate::rns::lemma_factor_divides(m, i);
            lemma_fundamental_div_mod(q, md);
            let times = gap / q;
            assert(gap == md * (times * (q / md))) by (nonlinear_arith)
                requires
                    gap == q * times,
                    q == md * (q / md),
            ;
            lemma_mod_multiples_vanish(times * (q / md), errs[j] + vals[j] * delta, md);
            assert(u[j] == md * (times * (q / md)) + (errs[j] + vals[j] * delta));
        }
    }
    assert(rows_in(wr, m, n));
    assert(bound >= 0) by {
        lemma_product_number(sk, ct0, ct1, w0, v0, e0, b0, w1, v1, e1, b1, key, kb, 0);
        let err = choose|err: int| explains(err, u[0], vals[0] as int, delta, q, bound);
        assert(explains(err, u[0], vals[0] as int, delta, q, bound));
    }
    assert(holds(wr, m, n, t, delta, vals, errs, bound));
    lemma_decryption(sk, ct, wr, vals, errs, bound);
}

} // verus!
