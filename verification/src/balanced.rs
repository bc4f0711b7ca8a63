//! Products of ciphertexts with the balanced extension: the second operand
//! is scaled into the moduli of the extension, so that the larger context
//! needs no more moduli than twice those of the ciphertexts.
use crate::arith::lemma_div_bounds;
use crate::ciphertext::{is_product, product_rows, Ciphertext};
use crate::correctness::{
    carries, fresh_rows, has_room, holds, lemma_fresh_carries, lemma_small_sample, scaling,
    uses_reference_tables,
};
use crate::evaluation_key::{squared_rows, EvaluationKey};
use crate::minimization::{centered_columns, key_is};
use crate::multiplication::{
    error_bound, explains, extended_rows, given_with_key, half_up, has_room_product, is_explained,
    lemma_centered_columns_bound, lemma_explained_product, lemma_extended_rows,
    lemma_folded_decryption, lemma_product_decryption, lemma_rounded_sum, lemma_scaling_error,
    lemma_tensor_is_product, lemma_tensor_residues, numbers_behind, product_holds, scaled_numbers,
    switching_bound, tensor_numbers, tensor_rows, under_key, with_key,
};
use crate::ntt::negacyclic_product;
use crate::parameters::{extension_sizes, pick_all, BfvParameters};
use crate::plaintext::Plaintext;
use crate::products::{
    integer_product, lemma_integer_product_len, lemma_product_bound, lemma_product_is_linear,
};
use crate::random::{chacha8_words, Seed};
use crate::ring::lemma_product_is_linear_right;
use crate::rns::{lemma_product_concat, product_of};
use crate::rq::{
    column, converted, rows_in, small_coefficients, small_rows, Context, Representation,
};
use crate::scaler::{centered_lift, scale_value, scaled_rows};
use crate::secret_key::SecretKey;
use crate::zq::reduced;
use vstd::arithmetic::div_mod::*;
use vstd::prelude::*;

verus! {

/// The list that the picking gives starts with the moduli that were given.
pub proof fn lemma_pick_all_prefix(chosen: Seq<u64>, sizes: Seq<usize>, degree: nat)
    requires
        pick_all(chosen, sizes, degree).is_ok(),
    ensures
        pick_all(chosen, sizes, degree)->Ok_0.len() == chosen.len() + sizes.len(),
        pick_all(chosen, sizes, degree)->Ok_0.subrange(0, chosen.len() as int) == chosen,
    decreases sizes.len(),
{
    let all = pick_all(chosen, sizes, degree)->Ok_0;
    if sizes.len() > 0 {
        let next = crate::parameters::next_modulus(chosen, sizes[0] as nat, degree)->Some_0;
        lemma_pick_all_prefix(chosen.push(next), sizes.drop_first(), degree);
        let more = chosen.push(next);
        assert(all.subrange(0, more.len() as int) == more);
        assert(all.subrange(0, chosen.len() as int) =~= more.subrange(0, chosen.len() as int));
        assert(more.subrange(0, chosen.len() as int) =~= chosen);
    } else {
        assert(all.subrange(0, chosen.len() as int) =~= chosen);
    }
}

/// The product of the moduli of the extension: the denominator of the
/// scaling that ends a product with the balanced extension.
pub open spec fn extension_modulus(par: BfvParameters) -> nat {
    par.mul_2_params().down_scaler().den()
}

/// The product of the moduli of the larger context of the balanced
/// extension is the product of the ciphertext moduli times the product of
/// the moduli of the extension.
pub proof fn lemma_balanced_modulus(par: BfvParameters)
    requires
        par.wf(),
    ensures
        par.mul_2_params().to().rns().modulus_value() == par.big_q() * extension_modulus(par),
        extension_modulus(par) >= 1,
{
    let m = par.spec_moduli();
    let k = m.len() as int;
    let n = par.spec_degree();
    let all = pick_all(m, extension_sizes(m.len()), n)->Ok_0;
    lemma_pick_all_prefix(m, extension_sizes(m.len()), n);
    let to = par.mul_2_params().to();
    let low = all.subrange(0, k);
    let high = all.subrange(k, 2 * k);
    assert(to.wf());
    assert(to.moduli() == all.subrange(0, 2 * k));
    assert(all.subrange(0, 2 * k) =~= low + high);
    lemma_product_concat(low, high);
    assert(to.rns().modulus_value() == product_of(to.moduli()));
    assert(low == m);
    assert forall|i: int| 0 <= i < high.len() implies #[trigger] high[i] >= 1 by {
        assert(high[i] == to.moduli()[k + i]);
        assert(2 <= to.moduli()[k + i]);
    }
    crate::rns::lemma_product_positive(high);
}

/// The rows that a scaling by `num / den` makes of rows in the transform
/// domain hold the residues, modulo the moduli of the target, of the
/// scaled numbers behind the rows.
pub proof fn lemma_scaled_extension(
    from: Context,
    to: Context,
    rows: Seq<Seq<u64>>,
    num: nat,
    den: nat,
)
    requires
        from.wf(),
        to.wf(),
        from.degree() == to.degree(),
    ensures
        rows_in(
            scaled_rows(
                converted(from, Representation::Ntt, Representation::PowerBasis, rows),
                from,
                to,
                num,
                den,
                false,
            ),
            to.moduli(),
            to.degree(),
        ),
        forall|l: int, k: int|
            0 <= l < to.moduli().len() && 0 <= k < to.degree() ==> (#[trigger] scaled_rows(
                converted(from, Representation::Ntt, Representation::PowerBasis, rows),
                from,
                to,
                num,
                den,
                false,
            )[l][k]) as int == scaled_numbers(numbers_behind(from, rows), num, den)[k] % (
            to.moduli()[l] as int),
{
    let ext = scaled_rows(
        converted(from, Representation::Ntt, Representation::PowerBasis, rows),
        from,
        to,
        num,
        den,
        false,
    );
    let x = scaled_numbers(numbers_behind(from, rows), num, den);
    let m = to.moduli();
    let n = to.degree();
    assert forall|l: int| 0 <= l < ext.len() implies (#[trigger] ext[l]).len() == n && reduced(
        ext[l],
        m[l],
    ) by {
        assert(2 <= m[l]);
        assert forall|k: int| 0 <= k < n implies #[trigger] ext[l][k] < m[l] by {
            lemma_mod_bound(x[k], m[l] as int);
        }
    }
    assert forall|l: int, k: int| 0 <= l < m.len() && 0 <= k < n implies (#[trigger] ext[l][k])
        as int == x[k] % (m[l] as int) by {
        assert(2 <= m[l]);
        lemma_mod_bound(x[k], m[l] as int);
    }
}

/// Where rows in the power basis hold the residues of numbers, the
/// centered numbers behind their columns are those numbers up to multiples
/// of the product of the moduli.
pub proof fn lemma_wrapped_numbers(ctx: Context, rows: Seq<Seq<u64>>, numbers: Seq<int>, j: int)
    requires
        ctx.wf(),
        rows.len() == ctx.moduli().len(),
        numbers.len() == ctx.degree(),
        0 <= j < ctx.degree(),
        forall|l: int|
            0 <= l < ctx.moduli().len() ==> (#[trigger] rows[l])[j] as int == numbers[j] % (
            ctx.moduli()[l] as int),
    ensures
        (numbers[j] - centered_columns(ctx, rows)[j]) % (ctx.rns().modulus_value() as int) == 0,
{
    let big = ctx.rns().modulus_value() as int;
    let col = column(rows, j);
    assert forall|l: int| 0 <= l < col.len() implies (#[trigger] col[l]) as int == numbers[j] % (
    ctx.rns().moduli()[l] as int) by {
        assert(col[l] == rows[l][j]);
    }
    ctx.rns().lemma_lift_of_residues(numbers[j], col);
    let lift = ctx.rns().lift_spec(col) as int;
    let c = centered_lift(lift as nat, big as nat);
    lemma_fundamental_div_mod(numbers[j], big);
    let d = numbers[j] / big;
    if lift >= big / 2 {
        assert(numbers[j] - c == big * (d + 1)) by (nonlinear_arith)
            requires
                numbers[j] == big * d + lift,
                c == lift - big,
        ;
        lemma_mod_multiples_basic(d + 1, big);
        assert(big * (d + 1) == (d + 1) * big) by (nonlinear_arith);
    } else {
        assert(numbers[j] - c == big * d);
        lemma_mod_multiples_basic(d, big);
        assert(big * d == d * big) by (nonlinear_arith);
    }
}

/// The numbers behind the second operand of a product with the balanced
/// extension, scaled into the moduli of the extension.
pub open spec fn scaled_operand(ct: &Ciphertext, index: int) -> Seq<int> {
    scaled_numbers(
        numbers_behind(ct.par().ctx(), ct.polys()[index].rows()),
        extension_modulus(ct.par()),
        ct.par().big_q(),
    )
}

/// The products over the integers of the numbers behind the operands of a
/// product with the balanced extension.
pub open spec fn balanced_numbers(ct0: &Ciphertext, ct1: &Ciphertext, index: int) -> Seq<int> {
    let ctx = ct0.par().ctx();
    tensor_numbers(
        numbers_behind(ctx, ct0.polys()[0].rows()),
        numbers_behind(ctx, ct0.polys()[1].rows()),
        scaled_operand(ct1, 0),
        scaled_operand(ct1, 1),
        index,
    )
}

/// The rows of the second operand of a product with the balanced
/// extension, scaled into the larger context.
pub open spec fn scaled_operand_rows(ct: &Ciphertext, index: int) -> Seq<Seq<u64>> {
    let par = ct.par();
    scaled_rows(
        converted(
            par.ctx(),
            Representation::Ntt,
            Representation::PowerBasis,
            ct.polys()[index].rows(),
        ),
        par.ctx(),
        par.mul_2_params().to(),
        extension_modulus(par),
        par.big_q(),
        false,
    )
}

/// The centered numbers behind the polynomial of index `index` of the
/// product of two ciphertexts in the larger context of the balanced
/// extension.
pub open spec fn balanced_lifts(ct0: &Ciphertext, ct1: &Ciphertext, index: int) -> Seq<int> {
    let par = ct0.par();
    let ctx = par.ctx();
    let to = par.mul_2_params().to();
    centered_columns(
        to,
        converted(
            to,
            Representation::Ntt,
            Representation::PowerBasis,
            tensor_rows(
                to,
                extended_rows(ctx, to, ct0.polys()[0].rows()),
                extended_rows(ctx, to, ct0.polys()[1].rows()),
                scaled_operand_rows(ct1, 0),
                scaled_operand_rows(ct1, 1),
                index,
            ),
        ),
    )
}

/// The polynomials of a product with the balanced extension hold the
/// residues of the scaled numbers behind the product in the larger
/// context, which are the products of the numbers behind the operands up
/// to multiples of the product of the moduli of the larger context.
pub proof fn lemma_balanced_rows(ct0: &Ciphertext, ct1: &Ciphertext, index: int, j: int)
    requires
        ct0.wf(),
        ct1.wf(),
        ct1.par() == ct0.par(),
        !ct0.minimized(),
        !ct1.minimized(),
        ct0.polys().len() == 2,
        ct1.polys().len() == 2,
        uses_reference_tables(ct0.par().mul_2_params().to()),
        0 <= index <= 2,
        0 <= j < ct0.par().spec_degree(),
    ensures
        rows_in(
            product_rows(ct0, ct1, ct0.par().mul_2_params(), index),
            ct0.par().spec_moduli(),
            ct0.par().spec_degree(),
        ),
        balanced_numbers(ct0, ct1, index).len() == ct0.par().spec_degree(),
        balanced_lifts(ct0, ct1, index).len() == ct0.par().spec_degree(),
        (balanced_numbers(ct0, ct1, index)[j] - balanced_lifts(ct0, ct1, index)[j]) % ((
        ct0.par().big_q() * extension_modulus(ct0.par())) as int) == 0,
        forall|i: int|
            0 <= i < ct0.par().spec_moduli().len() ==> (#[trigger] product_rows(
                ct0,
                ct1,
                ct0.par().mul_2_params(),
                index,
            )[i])[j] as int == scaled_numbers(
                balanced_lifts(ct0, ct1, index),
                ct0.par().spec_plaintext() as nat,
                extension_modulus(ct0.par()),
            )[j] % (ct0.par().spec_moduli()[i] as int),
{
    let par = ct0.par();
    let mp = par.mul_2_params();
    let ctx = par.ctx();
    let to = mp.to();
    let m = par.spec_moduli();
    let n = par.spec_degree();
    let t = par.spec_plaintext() as nat;
    let big = par.big_q();
    let p = extension_modulus(par);
    assert(ctx.moduli() == m && ctx.degree() == n);
    assert(mp.from() == ctx);
    assert(to.wf() && to.degree() == n);
    lemma_balanced_modulus(par);
    let a0 = ct0.polys()[0].rows();
    let a1 = ct0.polys()[1].rows();
    let b0 = ct1.polys()[0].rows();
    let b1 = ct1.polys()[1].rows();
    let x0 = numbers_behind(ctx, a0);
    let x1 = numbers_behind(ctx, a1);
    let z0 = scaled_operand(ct1, 0);
    let z1 = scaled_operand(ct1, 1);
    let ea0 = extended_rows(ctx, to, a0);
    let ea1 = extended_rows(ctx, to, a1);
    let ez0 = scaled_operand_rows(ct1, 0);
    let ez1 = scaled_operand_rows(ct1, 1);
    lemma_extended_rows(ctx, to, a0);
    lemma_extended_rows(ctx, to, a1);
    lemma_scaled_extension(ctx, to, b0, p, big);
    lemma_scaled_extension(ctx, to, b1, p, big);
    lemma_tensor_residues(to, ea0, ea1, ez0, ez1, x0, x1, z0, z1, index, j);
    let rows = tensor_rows(to, ea0, ea1, ez0, ez1, index);
    let back = converted(to, Representation::Ntt, Representation::PowerBasis, rows);
    let numbers = balanced_numbers(ct0, ct1, index);
    lemma_wrapped_numbers(to, back, numbers, j);
    let found = product_rows(ct0, ct1, mp, index);
    assert(found == scaled_rows(back, to, ctx, t, p, false));
    let lifts = balanced_lifts(ct0, ct1, index);
    let scaled = scaled_numbers(lifts, t, p);
    assert forall|i: int| 0 <= i < m.len() implies (#[trigger] found[i])[j] as int == scaled[j] % (
    m[i] as int) by {
        assert(2 <= m[i]);
        lemma_mod_bound(scaled[j], m[i] as int);
    }
    assert(rows_in(found, m, n)) by {
        assert forall|i: int| 0 <= i < found.len() implies (#[trigger] found[i]).len() == n
            && reduced(found[i], m[i]) by {
            assert(2 <= m[i]);
            assert forall|k: int| 0 <= k < n implies #[trigger] found[i][k] < m[i] by {
                lemma_mod_bound(scale_value(lifts[k], t, p, false), m[i] as int);
            }
        }
    }
}

/// What three polynomials give with the key is linear in the
/// polynomials.
pub proof fn lemma_with_key_is_linear(
    c: (Seq<int>, Seq<int>, Seq<int>),
    m: (Seq<int>, Seq<int>, Seq<int>),
    factor: int,
    sum: (Seq<int>, Seq<int>, Seq<int>),
    s: Seq<int>,
    j: int,
)
    requires
        c.0.len() == s.len() && c.1.len() == s.len() && c.2.len() == s.len(),
        m.0.len() == s.len() && m.1.len() == s.len() && m.2.len() == s.len(),
        sum.0.len() == s.len() && sum.1.len() == s.len() && sum.2.len() == s.len(),
        forall|k: int| 0 <= k < s.len() ==> #[trigger] sum.0[k] == c.0[k] + factor * m.0[k],
        forall|k: int| 0 <= k < s.len() ==> #[trigger] sum.1[k] == c.1[k] + factor * m.1[k],
        forall|k: int| 0 <= k < s.len() ==> #[trigger] sum.2[k] == c.2[k] + factor * m.2[k],
        0 <= j < s.len(),
    ensures
        with_key(sum.0, sum.1, sum.2, s)[j] == with_key(c.0, c.1, c.2, s)[j] + factor * with_key(
            m.0,
            m.1,
            m.2,
            s,
        )[j],
{
    let s2 = integer_product(s, s);
    lemma_integer_product_len(s, s);
    lemma_product_is_linear(c.1, m.1, factor, sum.1, s);
    lemma_product_is_linear(c.2, m.2, factor, sum.2, s2);
    let a = integer_product(c.1, s)[j];
    let b = integer_product(m.1, s)[j];
    let d = integer_product(c.2, s2)[j];
    let e = integer_product(m.2, s2)[j];
    assert(integer_product(sum.1, s)[j] == a + factor * b);
    assert(integer_product(sum.2, s2)[j] == d + factor * e);
    assert((c.0[j] + factor * m.0[j]) + (a + factor * b) + (d + factor * e) == (c.0[j] + a + d)
        + factor * (m.0[j] + b + e)) by (nonlinear_arith);
}

/// What the rounding of the scaled operand adds, with the key: the sum of
/// the rounding error of the first polynomial and of the product of that
/// of the second one with the key.
pub open spec fn rounding_sum(x0: Seq<int>, x1: Seq<int>, key: Seq<int>, p: nat, q: nat) -> Seq<
    int,
> {
    let z0 = scaled_numbers(x0, p, q);
    let z1 = scaled_numbers(x1, p, q);
    let sigma = Seq::new(x1.len(), |k: int| q * z1[k] - p * x1[k]);
    Seq::new(x0.len(), |k: int| (q * z0[k] - p * x0[k]) + integer_product(sigma, key)[k])
}

/// What a pair scaled by `p / q` gives with the key, times `q`, is `p`
/// times what the pair gives with it, plus what the rounding adds, which is
/// at most `(q / 2) * (1 + n * kb)` for a key with `n` coefficients within
/// `kb` of zero.
pub proof fn lemma_scaled_under_key(
    x0: Seq<int>,
    x1: Seq<int>,
    key: Seq<int>,
    kb: int,
    p: nat,
    q: nat,
    k: int,
)
    requires
        x0.len() == key.len(),
        x1.len() == key.len(),
        q >= 1,
        kb >= 0,
        forall|i: int| 0 <= i < key.len() ==> -kb <= #[trigger] key[i] <= kb,
        0 <= k < key.len(),
    ensures
        q * under_key(scaled_numbers(x0, p, q), scaled_numbers(x1, p, q), key)[k] == rounding_sum(
            x0,
            x1,
            key,
            p,
            q,
        )[k] + p * under_key(x0, x1, key)[k],
        -((q / 2) * (1 + key.len() * kb)) <= rounding_sum(x0, x1, key, p, q)[k] <= (q / 2) * (1
            + key.len() * kb),
{
    let n = key.len() as int;
    let qi = q as int;
    let pi = p as int;
    let half = qi / 2;
    lemma_div_bounds(qi, 2);
    let z0 = scaled_numbers(x0, p, q);
    let z1 = scaled_numbers(x1, p, q);
    let sigma = Seq::new(x1.len(), |i: int| qi * z1[i] - pi * x1[i]);
    let qz1 = Seq::new(x1.len(), |i: int| qi * z1[i]);
    lemma_scaling_error(x0[k], p, q);
    assert forall|i: int| 0 <= i < n implies -half <= #[trigger] sigma[i] <= half by {
        lemma_scaling_error(x1[i], p, q);
    }
    lemma_product_bound(sigma, key, half, kb);
    assert forall|i: int| 0 <= i < n implies #[trigger] qz1[i] == z1[i] + (qi - 1) * z1[i] by {
        assert(qi * z1[i] == z1[i] + (qi - 1) * z1[i]) by (nonlinear_arith);
    }
    assert forall|i: int| 0 <= i < n implies #[trigger] qz1[i] == sigma[i] + pi * x1[i] by {}
    lemma_product_is_linear(z1, z1, qi - 1, qz1, key);
    lemma_product_is_linear(sigma, x1, pi, qz1, key);
    lemma_integer_product_len(z1, key);
    lemma_integer_product_len(x1, key);
    lemma_integer_product_len(sigma, key);
    let pz = integer_product(z1, key)[k];
    let px = integer_product(x1, key)[k];
    let ps = integer_product(sigma, key)[k];
    let pq = integer_product(qz1, key)[k];
    assert(pq == pz + (qi - 1) * pz && pq == ps + pi * px);
    assert(qi * pz == ps + pi * px) by (nonlinear_arith)
        requires
            pq == pz + (qi - 1) * pz,
            pq == ps + pi * px,
    ;
    assert(qi * (z0[k] + pz) == (qi * z0[k] - pi * x0[k]) + ps + pi * (x0[k] + px))
        by (nonlinear_arith)
        requires
            qi * pz == ps + pi * px,
    ;
    let w = n * half * kb;
    assert(-w <= ps <= w);
    assert(half * (1 + n * kb) == half + w) by (nonlinear_arith)
        requires
            w == n * half * kb,
    ;
}

/// What the roundings of a product with the balanced extension add up to,
/// at most, in halves: `4 * t * n * (1 + n * kb)^2` for the scaling of the
/// second operand, and `1 + n * kb + n * (n * kb * kb)` for the scaling of
/// the product.
pub open spec fn balanced_rounding(par: BfvParameters, kb: int) -> int {
    let n = par.spec_degree() as int;
    4 * (par.spec_plaintext() * (n * ((1 + n * kb) * (1 + n * kb)))) + (1 + n * kb + n * (n * kb
        * kb))
}

/// The bound of the error of the product of two ciphertexts with the
/// balanced extension, before the key switch.
pub open spec fn balanced_bound(par: BfvParameters, b0: int, b1: int, kb: int) -> int {
    error_bound(par, b0, b1, kb, balanced_rounding(par, kb))
}

/// How often the numbers behind a polynomial of a product with the
/// balanced extension wrap around the product of the moduli of the larger
/// context.
pub open spec fn balanced_wraps(ct0: &Ciphertext, ct1: &Ciphertext, index: int) -> Seq<int> {
    Seq::new(
        ct0.par().spec_degree(),
        |k: int|
            (balanced_numbers(ct0, ct1, index)[k] - balanced_lifts(ct0, ct1, index)[k]) / ((
            ct0.par().big_q() * extension_modulus(ct0.par())) as int),
    )
}

/// A coefficient of what the three polynomials of a product with the
/// balanced extension give with the key: the coefficient of the product of
/// the two plaintexts times the scaling constant, plus a small error, up
/// to a multiple of the product of the moduli.
pub proof fn lemma_balanced_number(
    sk: &SecretKey,
    ct0: &Ciphertext,
    ct1: &Ciphertext,
    w0: Seq<Seq<u64>>,
    v0: Seq<u64>,
    e0: Seq<int>,
    b0: int,
    w1: Seq<Seq<u64>>,
    v1: Seq<u64>,
    e1: Seq<int>,
    b1: int,
    key: Seq<int>,
    kb: int,
    j: int,
)
    requires
        sk.wf(),
        ct0.wf(),
        ct1.wf(),
        uses_reference_tables(sk.par().ctx()),
        uses_reference_tables(sk.par().mul_2_params().to()),
        ct0.polys().len() == 2,
        ct1.polys().len() == 2,
        carries(sk, ct0, w0),
        carries(sk, ct1, w1),
        holds(
            w0,
            sk.par().spec_moduli(),
            sk.par().spec_degree(),
            sk.par().spec_plaintext() as int,
            scaling(sk),
            v0,
            e0,
            b0,
        ),
        holds(
            w1,
            sk.par().spec_moduli(),
            sk.par().spec_degree(),
            sk.par().spec_plaintext() as int,
            scaling(sk),
            v1,
            e1,
            b1,
        ),
        key_is(sk, key, kb),
        b0 >= 0,
        b1 >= 0,
        kb >= 0,
        b0 + sk.par().spec_plaintext() <= sk.par().big_q(),
        b1 + sk.par().spec_plaintext() <= sk.par().big_q(),
        sk.par().big_q() >= sk.par().spec_degree() * sk.par().spec_plaintext() * (b0 * b1
            + sk.par().spec_plaintext() * (b0 + b1) + sk.par().spec_plaintext()
            * sk.par().spec_plaintext()) + sk.par().spec_plaintext() * sk.par().spec_plaintext(),
        sk.par().big_q() <= 4 * extension_modulus(sk.par()),
        0 <= j < sk.par().spec_degree(),
    ensures
        is_explained(
            with_key(
                scaled_numbers(
                    balanced_lifts(ct0, ct1, 0),
                    sk.par().spec_plaintext() as nat,
                    extension_modulus(sk.par()),
                ),
                scaled_numbers(
                    balanced_lifts(ct0, ct1, 1),
                    sk.par().spec_plaintext() as nat,
                    extension_modulus(sk.par()),
                ),
                scaled_numbers(
                    balanced_lifts(ct0, ct1, 2),
                    sk.par().spec_plaintext() as nat,
                    extension_modulus(sk.par()),
                ),
                key,
            ),
            negacyclic_product(v0, v1, sk.par().spec_plaintext()),
            scaling(sk),
            sk.par().big_q() as int,
            balanced_bound(sk.par(), b0, b1, kb),
            j,
        ),
{
    let par = sk.par();
    let ctx = par.ctx();
    let n = par.spec_degree();
    let t = par.spec_plaintext() as int;
    let q = par.big_q() as int;
    let p = extension_modulus(par) as int;
    let delta = scaling(sk);
    let h = half_up(par);
    assert(ctx.moduli() == par.spec_moduli() && ctx.degree() == n);
    assert(ctx.rns().modulus_value() == par.big_q());
    assert(ct0.par() == par && ct1.par() == par);
    lemma_balanced_modulus(par);
    assert(q >= 1 && p >= 1 && 2 <= t);
    lemma_div_bounds(q, 2);
    let qp = q * p;
    assert(qp >= 1) by (nonlinear_arith)
        requires
            qp == q * p,
            q >= 1,
            p >= 1,
    ;
    let x0 = numbers_behind(ctx, ct0.polys()[0].rows());
    let x1 = numbers_behind(ctx, ct0.polys()[1].rows());
    let y0 = numbers_behind(ctx, ct1.polys()[0].rows());
    let y1 = numbers_behind(ctx, ct1.polys()[1].rows());
    let z0 = scaled_operand(ct1, 0);
    let z1 = scaled_operand(ct1, 1);
    let wk0 = given_with_key(sk, ct0, key);
    let wk1 = given_with_key(sk, ct1, key);
    let wz = under_key(z0, z1, key);
    // the numbers behind the product, and how often they wrap
    let c0 = balanced_lifts(ct0, ct1, 0);
    let c1 = balanced_lifts(ct0, ct1, 1);
    let c2 = balanced_lifts(ct0, ct1, 2);
    let t0 = balanced_numbers(ct0, ct1, 0);
    let t1 = balanced_numbers(ct0, ct1, 1);
    let t2 = balanced_numbers(ct0, ct1, 2);
    let m0 = balanced_wraps(ct0, ct1, 0);
    let m1 = balanced_wraps(ct0, ct1, 1);
    let m2 = balanced_wraps(ct0, ct1, 2);
    assert forall|k: int| 0 <= k < n implies #[trigger] t0[k] == c0[k] + qp * m0[k] by {
        lemma_balanced_rows(ct0, ct1, 0, k);
        lemma_fundamental_div_mod(t0[k] - c0[k], qp);
    }
    assert forall|k: int| 0 <= k < n implies #[trigger] t1[k] == c1[k] + qp * m1[k] by {
        lemma_balanced_rows(ct0, ct1, 1, k);
        lemma_fundamental_div_mod(t1[k] - c1[k], qp);
    }
    assert forall|k: int| 0 <= k < n implies #[trigger] t2[k] == c2[k] + qp * m2[k] by {
        lemma_balanced_rows(ct0, ct1, 2, k);
        lemma_fundamental_div_mod(t2[k] - c2[k], qp);
    }
    lemma_balanced_rows(ct0, ct1, 0, 0);
    lemma_balanced_rows(ct0, ct1, 1, 0);
    lemma_balanced_rows(ct0, ct1, 2, 0);
    lemma_with_key_is_linear((c0, c1, c2), (m0, m1, m2), qp, (t0, t1, t2), key, j);
    let sum_t = with_key(t0, t1, t2, key)[j];
    let sum_c = with_key(c0, c1, c2, key)[j];
    let wrap = with_key(m0, m1, m2, key)[j];
    assert(sum_t == sum_c + qp * wrap);
    // the three polynomials give the product of what the operands give
    lemma_tensor_is_product(x0, x1, z0, z1, key, j);
    assert(sum_t == integer_product(wk0, wz)[j]);
    // the scaled operand is the operand times p / q, up to the rounding
    let sigma = crate::balanced::rounding_sum(y0, y1, key, p as nat, q as nat);
    let half = q / 2;
    let side = 1 + n * kb;
    assert(side >= 1) by (nonlinear_arith)
        requires
            side == 1 + n * kb,
            n >= 0,
            kb >= 0,
    ;
    let qwz = Seq::new(n, |k: int| q * wz[k]);
    assert forall|k: int| 0 <= k < n implies #[trigger] qwz[k] == sigma[k] + p * wk1[k] && -(half
        * side) <= sigma[k] <= half * side by {
        lemma_scaled_under_key(y0, y1, key, kb, p as nat, q as nat, k);
    }
    assert forall|k: int| 0 <= k < n implies #[trigger] qwz[k] == wz[k] + (q - 1) * wz[k] by {
        assert(q * wz[k] == wz[k] + (q - 1) * wz[k]) by (nonlinear_arith);
    }
    lemma_product_is_linear_right(wk0, wz, wz, q - 1, qwz);
    lemma_product_is_linear_right(wk0, sigma, wk1, p, qwz);
    let z = integer_product(wk0, wk1)[j];
    let cross = integer_product(wk0, sigma)[j];
    let pw = integer_product(wk0, wz)[j];
    let pq = integer_product(wk0, qwz)[j];
    assert(pq == pw + (q - 1) * pw && pq == cross + p * z);
    assert(q * pw == cross + p * z) by (nonlinear_arith)
        requires
            pq == pw + (q - 1) * pw,
            pq == cross + p * z,
    ;
    // the bound of the cross term
    let wide = h * side;
    assert forall|k: int| 0 <= k < n implies -wide <= #[trigger] wk0[k] <= wide by {
        lemma_centered_columns_bound(
            ctx,
            converted(ctx, Representation::Ntt, Representation::PowerBasis, ct0.polys()[0].rows()),
            k,
        );
        assert forall|i: int| 0 <= i < x1.len() implies -h <= #[trigger] x1[i] <= h by {
            lemma_centered_columns_bound(
                ctx,
                converted(
                    ctx,
                    Representation::Ntt,
                    Representation::PowerBasis,
                    ct0.polys()[1].rows(),
                ),
                i,
            );
        }
        lemma_product_bound(x1, key, h, kb);
        lemma_integer_product_len(x1, key);
        assert(x1.len() * h * kb == h * (n * kb)) by (nonlinear_arith)
            requires
                x1.len() == n,
        ;
        assert(h * side == h + h * (n * kb)) by (nonlinear_arith)
            requires
                side == 1 + n * kb,
        ;
    }
    assert(wide >= 0 && half * side >= 0) by (nonlinear_arith)
        requires
            wide == h * side,
            h >= 0,
            half >= 0,
            side >= 1,
    ;
    assert forall|k: int| 0 <= k < sigma.len() implies -(half * side) <= #[trigger] sigma[k]
        <= half * side by {
        assert(qwz[k] == sigma[k] + p * wk1[k]);
    }
    lemma_product_bound(wk0, sigma, wide, half * side);
    let cb = n * (side * side);
    let cross_bound = wk0.len() * wide * (half * side);
    assert(-cross_bound <= cross <= cross_bound);
    assert(2 * cross_bound <= (q * q) * cb) by (nonlinear_arith)
        requires
            cross_bound == wk0.len() * wide * (half * side),
            wk0.len() == n,
            wide == h * side,
            0 <= h <= q,
            0 <= 2 * half <= q,
            side >= 1,
            cb == n * (side * side),
            n >= 0,
    {
        let ss = side * side;
        assert(ss >= 0);
        assert(2 * cross_bound == (n * ss) * (h * (2 * half)));
        assert(h * (2 * half) <= q * q);
        assert(n * ss >= 0);
        assert((n * ss) * (h * (2 * half)) <= (n * ss) * (q * q));
    }
    // the rounding of the product
    let tn = t as nat;
    let pn = p as nat;
    lemma_rounded_sum(c0, c1, c2, key, kb, tn, pn, j);
    let u = with_key(
        scaled_numbers(c0, tn, pn),
        scaled_numbers(c1, tn, pn),
        scaled_numbers(c2, tn, pn),
        key,
    )[j];
    let rounding = 1 + n * kb + n * (n * kb * kb);
    let r = p * u - t * sum_c;
    assert(-(p * rounding) <= 2 * r <= p * rounding);
    // what the numbers give, cleared of the wraps
    let lifted = u + t * (q * wrap);
    let rr = q * lifted - t * z;
    assert(p * rr == p * (q * lifted) - p * (t * z)) by (nonlinear_arith)
        requires
            rr == q * lifted - t * z,
    ;
    assert(p * (q * lifted) == p * (q * u) + p * (q * (t * (q * wrap)))) by (nonlinear_arith)
        requires
            lifted == u + t * (q * wrap),
    ;
    assert(q * r == q * (p * u) - q * (t * sum_c)) by (nonlinear_arith)
        requires
            r == p * u - t * sum_c,
    ;
    assert(t * cross == t * (q * pw) - t * (p * z)) by (nonlinear_arith)
        requires
            q * pw == cross + p * z,
    ;
    assert(t * (q * pw) == t * (q * sum_c) + t * (q * (qp * wrap))) by (nonlinear_arith)
        requires
            pw == sum_c + qp * wrap,
    ;
    assert(p * (q * u) == q * (p * u)) by (nonlinear_arith);
    assert(p * (t * z) == t * (p * z)) by (nonlinear_arith);
    assert(q * (t * sum_c) == t * (q * sum_c)) by (nonlinear_arith);
    assert(p * (q * (t * (q * wrap))) == t * (q * (qp * wrap))) by (nonlinear_arith)
        requires
            qp == q * p,
    ;
    assert(p * rr == q * r + t * cross);
    let total = balanced_rounding(par, kb);
    assert(total == 4 * (t * cb) + rounding);
    assert(-(p * (q * total)) <= 2 * (p * rr) <= p * (q * total)) by (nonlinear_arith)
        requires
            p * rr == q * r + t * cross,
            -(p * rounding) <= 2 * r <= p * rounding,
            -cross_bound <= cross <= cross_bound,
            2 * cross_bound <= (q * q) * cb,
            q <= 4 * p,
            q >= 1,
            t >= 2,
            cb >= 0,
            total == 4 * (t * cb) + rounding,
    {
        assert(2 * (q * r) <= q * (p * rounding));
        assert(2 * (q * r) >= -(q * (p * rounding)));
        assert(2 * (t * cross) <= t * ((q * q) * cb));
        assert(2 * (t * cross) >= -(t * ((q * q) * cb)));
        assert((q * q) * cb <= (q * (4 * p)) * cb);
        assert(t * ((q * q) * cb) <= t * ((q * (4 * p)) * cb));
        assert(t * ((q * (4 * p)) * cb) == 2 * (p * (q * (2 * (t * cb)))));
        assert(q * (p * rounding) == p * (q * rounding));
        assert(p * (q * total) == 2 * (p * (q * (2 * (t * cb)))) + p * (q * rounding));
    }
    assert(cb >= 0) by (nonlinear_arith)
        requires
            cb == n * (side * side),
            n >= 0,
    ;
    assert(-(q * total) <= 2 * rr <= q * total) by (nonlinear_arith)
        requires
            -(p * (q * total)) <= 2 * (p * rr) <= p * (q * total),
            p >= 1,
    ;
    assert(total >= 0) by (nonlinear_arith)
        requires
            total == 4 * (t * cb) + rounding,
            rounding == 1 + n * kb + n * (n * kb * kb),
            cb >= 0,
            t >= 2,
            n >= 0,
            kb >= 0,
    {
        assert(n * kb >= 0);
        assert(n * kb * kb >= 0);
        assert(n * (n * kb * kb) >= 0);
        assert(t * cb >= 0);
    }
    lemma_explained_product(sk, ct0, ct1, w0, v0, e0, b0, w1, v1, e1, b1, key, kb, lifted, total, j);
    let val = negacyclic_product(v0, v1, par.spec_plaintext())[j] as int;
    let bound = balanced_bound(par, b0, b1, kb);
    let err = choose|err: int| explains(err, lifted, val, delta, q, bound);
    assert(explains(err, lifted, val, delta, q, bound));
    assert(u - val * delta - err == q * (-(t * wrap)) + (lifted - val * delta - err))
        by (nonlinear_arith)
        requires
            lifted == u + t * (q * wrap),
    ;
    lemma_mod_multiples_vanish(-(t * wrap), lifted - val * delta - err, q);
    assert(explains(err, u, val, delta, q, bound));
}

/// Whether the moduli leave room for the product, with the balanced
/// extension, of two ciphertexts with errors within `b0` and `b1` of zero,
/// under a key with coefficients within `kb` of zero: the product of the
/// ciphertext moduli is at most four times that of the moduli of the
/// extension,
/// and has room for the error of the product and of the key switch.
pub open spec fn has_room_balanced(sk: &SecretKey, b0: int, b1: int, kb: int) -> bool {
    let par = sk.par();
    let n = par.spec_degree();
    let t = par.spec_plaintext();
    &&& par.big_q() <= 4 * extension_modulus(par)
    &&& b0 + t <= par.big_q()
    &&& b1 + t <= par.big_q()
    &&& par.big_q() >= n * t * (b0 * b1 + t * (b0 + b1) + t * t) + t * t
    &&& has_room(sk, balanced_bound(par, b0, b1, kb) + switching_bound(par))
}

/// The relinearized product, with the balanced extension, of two
/// ciphertexts that carry values blurred by errors decrypts to the product
/// of the values modulo `x^n + 1` and the plaintext modulus, as long as the
/// moduli leave room for the product.
pub proof fn lemma_balanced_decryption(
    sk: &SecretKey,
    ek: &EvaluationKey,
    ct0: &Ciphertext,
    ct1: &Ciphertext,
    ct: &Ciphertext,
    w0: Seq<Seq<u64>>,
    v0: Seq<u64>,
    e0: Seq<int>,
    b0: int,
    w1: Seq<Seq<u64>>,
    v1: Seq<u64>,
    e1: Seq<int>,
    b1: int,
    key: Seq<int>,
    kb: int,
    seed: Seed,
    error_seed: Seed,
)
    requires
        sk.wf(),
        ek.wf(),
        ct0.wf(),
        ct1.wf(),
        ct.wf(),
        uses_reference_tables(sk.par().ctx()),
        uses_reference_tables(sk.par().mul_2_params().to()),
        ct0.polys().len() == 2,
        ct1.polys().len() == 2,
        carries(sk, ct0, w0),
        carries(sk, ct1, w1),
        holds(
            w0,
            sk.par().spec_moduli(),
            sk.par().spec_degree(),
            sk.par().spec_plaintext() as int,
            scaling(sk),
            v0,
            e0,
            b0,
        ),
        holds(
            w1,
            sk.par().spec_moduli(),
            sk.par().spec_degree(),
            sk.par().spec_plaintext() as int,
            scaling(sk),
            v1,
            e1,
            b1,
        ),
        key_is(sk, key, kb),
        b0 >= 0,
        b1 >= 0,
        kb >= 0,
        ek.made_with(sk, true, squared_rows(sk), seed, error_seed),
        is_product(ct, ct0, ct1, ek, sk.par().mul_2_params()),
        has_room_balanced(sk, b0, b1, kb),
    ensures
        sk.decrypted(ct) == negacyclic_product(v0, v1, sk.par().spec_plaintext()),
{
    let par = sk.par();
    let n = par.spec_degree();
    let m = par.spec_moduli();
    let t = par.spec_plaintext() as nat;
    let p = extension_modulus(par);
    let mp = par.mul_2_params();
    let bound = balanced_bound(par, b0, b1, kb);
    assert(ct0.par() == par && ct1.par() == par);
    let numbers = (
        scaled_numbers(balanced_lifts(ct0, ct1, 0), t, p),
        scaled_numbers(balanced_lifts(ct0, ct1, 1), t, p),
        scaled_numbers(balanced_lifts(ct0, ct1, 2), t, p),
    );
    let vals = negacyclic_product(v0, v1, par.spec_plaintext());
    assert(product_holds(sk, ct0, ct1, mp, numbers)) by {
        lemma_balanced_rows(ct0, ct1, 0, 0);
        lemma_balanced_rows(ct0, ct1, 1, 0);
        lemma_balanced_rows(ct0, ct1, 2, 0);
        assert forall|i: int, j: int| 0 <= i < m.len() && 0 <= j < n implies (
        #[trigger] product_rows(ct0, ct1, mp, 0)[i][j]) as int == numbers.0[j] % (m[i] as int) by {
            lemma_balanced_rows(ct0, ct1, 0, j);
        }
        assert forall|i: int, j: int| 0 <= i < m.len() && 0 <= j < n implies (
        #[trigger] product_rows(ct0, ct1, mp, 1)[i][j]) as int == numbers.1[j] % (m[i] as int) by {
            lemma_balanced_rows(ct0, ct1, 1, j);
        }
        assert forall|i: int, j: int| 0 <= i < m.len() && 0 <= j < n implies (
        #[trigger] product_rows(ct0, ct1, mp, 2)[i][j]) as int == numbers.2[j] % (m[i] as int) by {
            lemma_balanced_rows(ct0, ct1, 2, j);
        }
    }
    crate::ntt::lemma_negacyclic_product_reduced(v0, v1, par.spec_plaintext());
    assert forall|j: int| 0 <= j < n implies #[trigger] is_explained(
        with_key(numbers.0, numbers.1, numbers.2, key),
        vals,
        scaling(sk),
        par.big_q() as int,
        bound,
        j,
    ) by {
        lemma_balanced_number(sk, ct0, ct1, w0, v0, e0, b0, w1, v1, e1, b1, key, kb, j);
    }
    lemma_folded_decryption(
        sk,
        ek,
        ct0,
        ct1,
        ct,
        mp,
        numbers,
        vals,
        bound,
        key,
        kb,
        seed,
        error_seed,
    );
}

/// The relinearized product, with the balanced extension, of two fresh
/// ciphertexts decrypts to the product of the two plaintexts modulo
/// `x^n + 1` and the plaintext modulus.
///
/// This holds for a key drawn from a seed, an evaluation key built from
/// seeds and plaintexts of the same parameters, where the two contexts of
/// the multiplication use the reference tables of the transform and the
/// moduli leave room for the product.
pub proof fn lemma_balanced_round_trip(
    sk: &SecretKey,
    ek: &EvaluationKey,
    pt0: &Plaintext,
    pt1: &Plaintext,
    ct0: &Ciphertext,
    ct1: &Ciphertext,
    ct: &Ciphertext,
    key_seed: Seed,
    seeds: (Seed, Seed, Seed, Seed, Seed, Seed),
)
    requires
        sk.wf(),
        ek.wf(),
        ct.wf(),
        pt0.wf(),
        pt1.wf(),
        pt0.par() == sk.par(),
        pt1.par() == sk.par(),
        sk.s().rows() == small_rows(
            sk.par().ctx(),
            Representation::NttShoup,
            sk.par().spec_variance(),
            key_seed@,
        ),
        uses_reference_tables(sk.par().ctx()),
        uses_reference_tables(sk.par().mul_2_params().to()),
        sk.is_encryption(ct0, pt0, seeds.0, seeds.1),
        sk.is_encryption(ct1, pt1, seeds.2, seeds.3),
        ek.made_with(sk, true, squared_rows(sk), seeds.4, seeds.5),
        is_product(ct, ct0, ct1, ek, sk.par().mul_2_params()),
        has_room_balanced(
            sk,
            2 * sk.par().spec_variance() as int,
            2 * sk.par().spec_variance() as int,
            2 * sk.par().spec_variance() as int,
        ),
    ensures
        sk.decrypted(ct) == negacyclic_product(
            pt0.values(),
            pt1.values(),
            sk.par().spec_plaintext(),
        ),
{
    let n = sk.par().spec_degree();
    let variance = sk.par().spec_variance();
    let b = 2 * variance as int;
    let key = small_coefficients(key_seed@, variance, n);
    assert forall|j: int| 0 <= j < key.len() implies -b <= #[trigger] key[j] <= b by {
        lemma_small_sample(chacha8_words(key_seed@, n)[j], variance);
    }
    lemma_fresh_carries(sk, pt0, ct0, seeds.0, seeds.1);
    lemma_fresh_carries(sk, pt1, ct1, seeds.2, seeds.3);
    lemma_balanced_decryption(
        sk,
        ek,
        ct0,
        ct1,
        ct,
        fresh_rows(sk, pt0, seeds.1),
        pt0.values(),
        small_coefficients(seeds.1@, variance, n),
        b,
        fresh_rows(sk, pt1, seeds.3),
        pt1.values(),
        small_coefficients(seeds.3@, variance, n),
        b,
        key,
        b,
        seeds.4,
        seeds.5,
    );
}

/// The two kinds of multiplication decrypt alike: the products of the same
/// two ciphertexts with the wide and with the balanced extension decrypt
/// to the same values, as long as the moduli leave room for both.
pub proof fn lemma_products_agree(
    sk: &SecretKey,
    ek: &EvaluationKey,
    ct0: &Ciphertext,
    ct1: &Ciphertext,
    wide: &Ciphertext,
    balanced: &Ciphertext,
    w0: Seq<Seq<u64>>,
    v0: Seq<u64>,
    e0: Seq<int>,
    b0: int,
    w1: Seq<Seq<u64>>,
    v1: Seq<u64>,
    e1: Seq<int>,
    b1: int,
    key: Seq<int>,
    kb: int,
    seed: Seed,
    error_seed: Seed,
)
    requires
        sk.wf(),
        ek.wf(),
        ct0.wf(),
        ct1.wf(),
        wide.wf(),
        balanced.wf(),
        uses_reference_tables(sk.par().ctx()),
        uses_reference_tables(sk.par().mul_1_params().to()),
        uses_reference_tables(sk.par().mul_2_params().to()),
        ct0.polys().len() == 2,
        ct1.polys().len() == 2,
        carries(sk, ct0, w0),
        carries(sk, ct1, w1),
        holds(
            w0,
            sk.par().spec_moduli(),
            sk.par().spec_degree(),
            sk.par().spec_plaintext() as int,
            scaling(sk),
            v0,
            e0,
            b0,
        ),
        holds(
            w1,
            sk.par().spec_moduli(),
            sk.par().spec_degree(),
            sk.par().spec_plaintext() as int,
            scaling(sk),
            v1,
            e1,
            b1,
        ),
        key_is(sk, key, kb),
        b0 >= 0,
        b1 >= 0,
        kb >= 0,
        ek.made_with(sk, true, squared_rows(sk), seed, error_seed),
        is_product(wide, ct0, ct1, ek, sk.par().mul_1_params()),
        is_product(balanced, ct0, ct1, ek, sk.par().mul_2_params()),
        has_room_product(sk, b0, b1, kb),
        has_room_balanced(sk, b0, b1, kb),
    ensures
        sk.decrypted(wide) == sk.decrypted(balanced),
{
    lemma_product_decryption(
        sk,
        ek,
        ct0,
        ct1,
        wide,
        w0,
        v0,
        e0,
        b0,
        w1,
        v1,
        e1,
        b1,
        key,
        kb,
        seed,
        error_seed,
    );
    lemma_balanced_decryption(
        sk,
        ek,
        ct0,
        ct1,
        balanced,
        w0,
        v0,
        e0,
        b0,
        w1,
        v1,
        e1,
        b1,
        key,
        kb,
        seed,
        error_seed,
    );
}

} // verus!
