//! Products with plaintexts: the product of polynomials over the integers
//! modulo `x^n + 1`, how it relates to the products of residues, and why a
//! ciphertext multiplied by a plaintext decrypts to the product of the two
//! plaintexts.
use crate::arith::lemma_div_bounds;
use crate::ciphertext::Ciphertext;
use crate::correctness::{
    carries, fresh_rows, has_room, holds, lemma_decryption, lemma_fresh_carries, lemma_scaling_gap,
    scaling, shaped, uses_reference_tables,
};
use crate::encoding::{Encoding, EncodingEnum};
use crate::ntt::{
    lemma_negacyclic_product_reduced, lemma_transform_sizes, negacyclic_product, negacyclic_shift,
    pointwise_product, pointwise_sum,
};
use crate::parameters::BfvParameters;
use crate::plaintext::Plaintext;
use crate::random::Seed;
use crate::rq::{
    as_ints, converted, power_rows, rows_combine, rows_in, rows_product, small_coefficients,
    Context, Operation, Poly, Representation,
};
use crate::secret_key::{key_power, phase, SecretKey};
use crate::zq::reduced;
use vstd::arithmetic::div_mod::*;
use vstd::prelude::*;

verus! {

/// The coefficients of `x * b` modulo `x^n + 1`, over the integers.
pub open spec fn shifted(b: Seq<int>) -> Seq<int> {
    Seq::new(
        b.len(),
        |i: int|
            if i == 0 {
                -b[b.len() - 1]
            } else {
                b[i - 1]
            },
    )
}

/// The coefficients of the product of the polynomials `a` and `b` modulo
/// `x^n + 1`, over the integers, with `n` the length of `b`: by Horner's
/// rule, `a * b = a[0] * b + x * (a[1..] * b)`.
pub open spec fn integer_product(a: Seq<int>, b: Seq<int>) -> Seq<int>
    decreases a.len(),
{
    if a.len() == 0 {
        Seq::new(b.len(), |i: int| 0int)
    } else {
        Seq::new(
            b.len(),
            |i: int| shifted(integer_product(a.drop_first(), b))[i] + a[0] * b[i],
        )
    }
}

/// The product over the integers has as many coefficients as its second
/// factor.
pub proof fn lemma_integer_product_len(a: Seq<int>, b: Seq<int>)
    ensures
        integer_product(a, b).len() == b.len(),
    decreases a.len(),
{
    if a.len() > 0 {
        lemma_integer_product_len(a.drop_first(), b);
    }
}

/// The product of the residues of two polynomials holds the residues of
/// their product over the integers.
pub proof fn lemma_product_residues(a: Seq<int>, b: Seq<int>, ra: Seq<u64>, rb: Seq<u64>, p: u64)
    requires
        p > 0,
        ra.len() == a.len(),
        rb.len() == b.len(),
        forall|k: int| 0 <= k < a.len() ==> (#[trigger] ra[k]) as int == a[k] % (p as int),
        forall|k: int| 0 <= k < b.len() ==> (#[trigger] rb[k]) as int == b[k] % (p as int),
    ensures
        integer_product(a, b).len() == b.len(),
        negacyclic_product(ra, rb, p).len() == b.len(),
        forall|j: int|
            0 <= j < b.len() ==> (#[trigger] negacyclic_product(ra, rb, p)[j]) as int
                == integer_product(a, b)[j] % (p as int),
    decreases a.len(),
{
    let q = p as int;
    let n = b.len() as int;
    let left = negacyclic_product(ra, rb, p);
    let right = integer_product(a, b);
    lemma_integer_product_len(a, b);
    crate::ntt::lemma_negacyclic_product_reduced(ra, rb, p);
    if a.len() == 0 {
        assert forall|j: int| 0 <= j < n implies (#[trigger] left[j]) as int == right[j] % q by {
            lemma_small_mod(0, p as nat);
        }
    } else {
        let rest_left = negacyclic_product(ra.drop_first(), rb, p);
        let rest_right = integer_product(a.drop_first(), b);
        assert forall|k: int| 0 <= k < a.drop_first().len() implies (#[trigger] ra.drop_first()[k])
            as int == a.drop_first()[k] % q by {
            assert(ra.drop_first()[k] == ra[k + 1]);
        }
        lemma_product_residues(a.drop_first(), b, ra.drop_first(), rb, p);
        let d_left = negacyclic_shift(rest_left, p);
        let d_right = shifted(rest_right);
        assert forall|j: int| 0 <= j < n implies (#[trigger] left[j]) as int == right[j] % q by {
            // the shifted rests agree modulo p
            if j == 0 {
                let last = rest_right[n - 1];
                assert(rest_left[n - 1] as int == last % q);
                lemma_mod_bound(-(rest_left[n - 1] as int), q);
                lemma_sub_mod_noop_right(0, last, q);
                assert(d_left[j] as int == d_right[j] % q);
            } else {
                assert(rest_left[j - 1] as int == rest_right[j - 1] % q);
                assert(d_left[j] as int == d_right[j] % q);
            }
            let x = a[0];
            let y = b[j];
            assert(ra[0] as int == x % q);
            assert(rb[j] as int == y % q);
            lemma_mod_bound(d_left[j] + ra[0] * rb[j], q);
            lemma_mul_mod_noop(x, y, q);
            lemma_add_mod_noop(d_right[j], x * y, q);
            lemma_add_mod_noop(d_left[j] as int, ra[0] * rb[j], q);
            lemma_mod_twice(d_right[j], q);
        }
    }
}

/// The product over the integers is linear in its first factor.
pub proof fn lemma_product_is_linear(a1: Seq<int>, a2: Seq<int>, c: int, s: Seq<int>, b: Seq<int>)
    requires
        a2.len() == a1.len(),
        s.len() == a1.len(),
        forall|k: int| 0 <= k < a1.len() ==> #[trigger] s[k] == a1[k] + c * a2[k],
    ensures
        forall|j: int|
            0 <= j < b.len() ==> #[trigger] integer_product(s, b)[j] == integer_product(a1, b)[j]
                + c * integer_product(a2, b)[j],
    decreases a1.len(),
{
    let n = b.len() as int;
    lemma_integer_product_len(s, b);
    lemma_integer_product_len(a1, b);
    lemma_integer_product_len(a2, b);
    if a1.len() == 0 {
        assert forall|j: int| 0 <= j < n implies #[trigger] integer_product(s, b)[j]
            == integer_product(a1, b)[j] + c * integer_product(a2, b)[j] by {
            assert(c * 0 == 0);
        }
    } else {
        let r = integer_product(s.drop_first(), b);
        let r1 = integer_product(a1.drop_first(), b);
        let r2 = integer_product(a2.drop_first(), b);
        assert forall|k: int| 0 <= k < a1.drop_first().len() implies #[trigger] s.drop_first()[k]
            == a1.drop_first()[k] + c * a2.drop_first()[k] by {
            assert(s.drop_first()[k] == s[k + 1]);
        }
        lemma_product_is_linear(a1.drop_first(), a2.drop_first(), c, s.drop_first(), b);
        lemma_integer_product_len(s.drop_first(), b);
        lemma_integer_product_len(a1.drop_first(), b);
        lemma_integer_product_len(a2.drop_first(), b);
        assert forall|j: int| 0 <= j < n implies #[trigger] integer_product(s, b)[j]
            == integer_product(a1, b)[j] + c * integer_product(a2, b)[j] by {
            let d = shifted(r)[j];
            let d1 = shifted(r1)[j];
            let d2 = shifted(r2)[j];
            if j == 0 {
                assert(r[n - 1] == r1[n - 1] + c * r2[n - 1]);
                assert(-(r1[n - 1] + c * r2[n - 1]) == -r1[n - 1] + c * (-r2[n - 1]))
                    by (nonlinear_arith);
            } else {
                assert(r[j - 1] == r1[j - 1] + c * r2[j - 1]);
            }
            assert(d == d1 + c * d2);
            assert(s[0] == a1[0] + c * a2[0]);
            assert(d + s[0] * b[j] == (d1 + a1[0] * b[j]) + c * (d2 + a2[0] * b[j]))
                by (nonlinear_arith)
                requires
                    d == d1 + c * d2,
                    s[0] == a1[0] + c * a2[0],
            ;
        }
    }
}

/// The coefficients of the product over the integers of polynomials with
/// coefficients within `ba` and `bb` of zero are within `a.len() * ba * bb`
/// of zero.
pub proof fn lemma_product_bound(a: Seq<int>, b: Seq<int>, ba: int, bb: int)
    requires
        0 <= ba,
        0 <= bb,
        forall|k: int| 0 <= k < a.len() ==> -ba <= #[trigger] a[k] <= ba,
        forall|k: int| 0 <= k < b.len() ==> -bb <= #[trigger] b[k] <= bb,
    ensures
        forall|j: int|
            0 <= j < b.len() ==> -(a.len() * ba * bb) <= #[trigger] integer_product(a, b)[j]
                <= a.len() * ba * bb,
    decreases a.len(),
{
    let n = b.len() as int;
    let l = a.len() as int;
    lemma_integer_product_len(a, b);
    if a.len() == 0 {
        assert(0 * ba * bb == 0) by (nonlinear_arith);
    } else {
        let r = integer_product(a.drop_first(), b);
        assert forall|k: int| 0 <= k < a.drop_first().len() implies -ba
            <= #[trigger] a.drop_first()[k] <= ba by {
            assert(a.drop_first()[k] == a[k + 1]);
        }
        lemma_product_bound(a.drop_first(), b, ba, bb);
        lemma_integer_product_len(a.drop_first(), b);
        let w = (l - 1) * ba * bb;
        assert(a.drop_first().len() == l - 1);
        assert(l * ba * bb == w + ba * bb) by (nonlinear_arith)
            requires
                w == (l - 1) * ba * bb,
        ;
        assert forall|j: int| 0 <= j < n implies -(l * ba * bb) <= #[trigger] integer_product(
            a,
            b,
        )[j] <= l * ba * bb by {
            let d = shifted(r)[j];
            if j == 0 {
                assert(-w <= r[n - 1] <= w);
            } else {
                assert(-w <= r[j - 1] <= w);
            }
            assert(-w <= d <= w);
            let x = a[0];
            let y = b[j];
            assert(-(ba * bb) <= x * y <= ba * bb) by (nonlinear_arith)
                requires
                    -ba <= x <= ba,
                    -bb <= y <= bb,
            ;
        }
    }
}

/// The sum `c[0] + c[1] * s + ...` of a ciphertext whose polynomials were
/// all multiplied by `r` is `r` times the sum of the ciphertext.
pub proof fn lemma_phase_scales(
    first: Seq<Poly>,
    third: Seq<Poly>,
    r: Seq<Seq<u64>>,
    s: Seq<Seq<u64>>,
    m: Seq<u64>,
    n: nat,
    upto: nat,
)
    requires
        1 <= upto <= first.len(),
        third.len() == first.len(),
        shaped(s, m.len(), n),
        shaped(r, m.len(), n),
        forall|i: int| 0 <= i < m.len() ==> #[trigger] m[i] > 0,
        forall|i: int| 0 <= i < first.len() ==> shaped((#[trigger] first[i]).rows(), m.len(), n),
        forall|i: int|
            0 <= i < first.len() ==> (#[trigger] third[i]).rows() == rows_combine(
                Operation::Mul,
                first[i].rows(),
                r,
                m,
            ),
    ensures
        shaped(phase(first, s, m, upto), m.len(), n),
        shaped(key_power(s, m, upto), m.len(), n),
        phase(third, s, m, upto) == rows_combine(Operation::Mul, phase(first, s, m, upto), r, m),
    decreases upto,
{
    if upto >= 2 {
        let u = (upto - 1) as nat;
        lemma_phase_scales(first, third, r, s, m, n, u);
        let kp = key_power(s, m, u);
        let a1 = phase(first, s, m, u);
        let c = first[u as int].rows();
        assert(shaped(c, m.len(), n));
        let left = phase(third, s, m, upto);
        let right = rows_combine(Operation::Mul, phase(first, s, m, upto), r, m);
        assert(third[u as int].rows() == rows_combine(Operation::Mul, c, r, m));
        assert forall|i: int| 0 <= i < m.len() implies #[trigger] left[i] =~= right[i] by {
            let q = m[i] as int;
            assert(a1[i].len() == n && c[i].len() == n && kp[i].len() == n && r[i].len() == n);
            assert forall|j: int| 0 <= j < n implies left[i][j] == right[i][j] by {
                let x1 = a1[i][j] as int;
                let cv = c[i][j] as int;
                let k = kp[i][j] as int;
                let g = r[i][j] as int;
                lemma_mod_bound(x1 * g, q);
                lemma_mod_bound(cv * g, q);
                lemma_mod_bound(cv * k, q);
                lemma_mod_bound(((cv * g) % q) * k, q);
                lemma_mod_bound(x1 + (cv * k) % q, q);
                lemma_mod_bound((x1 * g) % q + (((cv * g) % q) * k) % q, q);
                lemma_mod_bound(((x1 + (cv * k) % q) % q) * g, q);
                // the left side is x1 * g + cv * g * k modulo q
                lemma_mul_mod_noop_left(cv * g, k, q);
                lemma_add_mod_noop(x1 * g, ((cv * g) % q) * k, q);
                lemma_add_mod_noop(x1 * g, (cv * g) * k, q);
                // and so is the right side
                lemma_add_mod_noop_right(x1, cv * k, q);
                lemma_mul_mod_noop_left(x1 + (cv * k) % q, g, q);
                lemma_mul_mod_noop_left(x1 + cv * k, g, q);
                assert(x1 * g + (cv * g) * k == (x1 + cv * k) * g) by (nonlinear_arith);
            }
        }
        assert(left =~= right);
    }
}

/// In a context that uses the reference tables, the transform of the
/// product of two polynomials modulo `x^n + 1` is the product of their
/// transforms, element by element.
pub proof fn lemma_transform_of_product(ctx: Context, a: Seq<Seq<u64>>, b: Seq<Seq<u64>>)
    requires
        ctx.wf(),
        uses_reference_tables(ctx),
        rows_in(a, ctx.moduli(), ctx.degree()),
        rows_in(b, ctx.moduli(), ctx.degree()),
    ensures
        rows_in(rows_product(a, b, ctx.moduli()), ctx.moduli(), ctx.degree()),
        converted(
            ctx,
            Representation::PowerBasis,
            Representation::Ntt,
            rows_product(a, b, ctx.moduli()),
        ) == rows_combine(
            Operation::Mul,
            converted(ctx, Representation::PowerBasis, Representation::Ntt, a),
            converted(ctx, Representation::PowerBasis, Representation::Ntt, b),
            ctx.moduli(),
        ),
{
    let m = ctx.moduli();
    let n = ctx.degree();
    let c = rows_product(a, b, m);
    let fa = converted(ctx, Representation::PowerBasis, Representation::Ntt, a);
    let fb = converted(ctx, Representation::PowerBasis, Representation::Ntt, b);
    let left = converted(ctx, Representation::PowerBasis, Representation::Ntt, c);
    let right = rows_combine(Operation::Mul, fa, fb, m);
    assert forall|i: int| 0 <= i < m.len() implies #[trigger] left[i] == right[i] && c[i].len()
        == n && reduced(c[i], m[i]) by {
        let o = ctx.ops()[i];
        let p = m[i];
        assert(o.wf() && o.modulus() == p && o.size() == n && !o.accelerated());
        assert(a[i].len() == n && reduced(a[i], p));
        assert(b[i].len() == n && reduced(b[i], p));
        assert(2 <= p);
        lemma_negacyclic_product_reduced(a[i], b[i], p);
        lemma_transform_sizes(o, a[i]);
        lemma_transform_sizes(o, b[i]);
        o.lemma_forward_of_product(a[i], b[i]);
        assert(right[i] =~= pointwise_product(o.forward_spec(a[i]), o.forward_spec(b[i]), p));
    }
    assert(left =~= right);
    assert(rows_in(c, m, n)) by {
        assert forall|i: int| 0 <= i < c.len() implies (#[trigger] c[i]).len() == n && reduced(
            c[i],
            m[i],
        ) by {
            let row = left[i];
        }
    }
}

/// The errors of a product with a plaintext: the product of the errors and
/// the plaintext, with the gap of the scaling constant as often as the
/// product of the values wraps around the plaintext modulus.
pub open spec fn product_errors(v1: Seq<u64>, e1: Seq<int>, v2: Seq<u64>, t: int, gap: int) -> Seq<
    int,
> {
    Seq::new(
        v2.len(),
        |j: int|
            integer_product(e1, as_ints(v2))[j] + (integer_product(as_ints(v1), as_ints(v2))[j]
                / t) * gap,
    )
}

/// Whether the polynomials of `ct3` are those of `ct1` multiplied by the
/// polynomial of the plaintext.
pub open spec fn multiplies(ct1: &Ciphertext, pt: &Plaintext, ct3: &Ciphertext) -> bool {
    &&& ct3.par() == ct1.par()
    &&& !ct3.minimized()
    &&& ct3.polys().len() == ct1.polys().len()
    &&& forall|i: int|
        0 <= i < ct1.polys().len() ==> (#[trigger] ct3.polys()[i]).rows() == rows_combine(
            Operation::Mul,
            ct1.polys()[i].rows(),
            pt.poly().rows(),
            ct1.par().spec_moduli(),
        )
}

/// The product of a ciphertext that carries values and a plaintext carries
/// the product modulo `x^n + 1` and the plaintext modulus `t` of the values
/// and the plaintext, with errors that grow by the factor `n * t` and by
/// `n * t * t`.
pub proof fn lemma_plaintext_product_carries(
    sk: &SecretKey,
    ct1: &Ciphertext,
    pt: &Plaintext,
    ct3: &Ciphertext,
    w1: Seq<Seq<u64>>,
    v1: Seq<u64>,
    e1: Seq<int>,
    b1: int,
)
    requires
        sk.wf(),
        ct1.wf(),
        pt.wf(),
        ct3.wf(),
        pt.par() == sk.par(),
        uses_reference_tables(sk.par().ctx()),
        carries(sk, ct1, w1),
        holds(
            w1,
            sk.par().spec_moduli(),
            sk.par().spec_degree(),
            sk.par().spec_plaintext() as int,
            scaling(sk),
            v1,
            e1,
            b1,
        ),
        b1 >= 0,
        multiplies(ct1, pt, ct3),
    ensures
        carries(
            sk,
            ct3,
            rows_product(
                w1,
                power_rows(as_ints(pt.values()), sk.par().spec_moduli(), sk.par().spec_degree()),
                sk.par().spec_moduli(),
            ),
        ),
        holds(
            rows_product(
                w1,
                power_rows(as_ints(pt.values()), sk.par().spec_moduli(), sk.par().spec_degree()),
                sk.par().spec_moduli(),
            ),
            sk.par().spec_moduli(),
            sk.par().spec_degree(),
            sk.par().spec_plaintext() as int,
            scaling(sk),
            negacyclic_product(v1, pt.values(), sk.par().spec_plaintext()),
            product_errors(
                v1,
                e1,
                pt.values(),
                sk.par().spec_plaintext() as int,
                sk.par().spec_plaintext() * scaling(sk) - sk.par().big_q(),
            ),
            sk.par().spec_degree() * sk.par().spec_plaintext() * (b1 + sk.par().spec_plaintext()),
        ),
{
    let par = sk.par();
    let ctx = par.ctx();
    let m = par.spec_moduli();
    let n = par.spec_degree();
    let tt = par.spec_plaintext();
    let t = tt as int;
    let big = par.big_q() as int;
    let delta = scaling(sk);
    let gap = t * delta - big;
    let s = sk.s().rows();
    let len = ct1.polys().len();
    let v2 = pt.values();
    let pm = power_rows(as_ints(v2), m, n);
    let r = pt.poly().rows();
    assert(ctx.moduli() == m && ctx.degree() == n);
    assert(2 <= t);
    assert forall|i: int| 0 <= i < m.len() implies #[trigger] m[i] > 0 by {
        assert(2 <= m[i]);
    }
    assert(shaped(s, m.len(), n));
    assert(shaped(r, m.len(), n));
    assert forall|i: int| 0 <= i < len implies shaped((#[trigger] ct1.polys()[i]).rows(), m.len(), n) by {
        assert(ct1.polys()[i].wf());
        assert(ct1.ctx() == ctx);
    }
    // the rows of the plaintext are reduced
    assert(rows_in(pm, m, n)) by {
        assert forall|i: int| 0 <= i < pm.len() implies (#[trigger] pm[i]).len() == n && reduced(
            pm[i],
            m[i],
        ) by {
            assert forall|j: int| 0 <= j < n implies #[trigger] pm[i][j] < m[i] by {
                lemma_mod_bound(v2[j] as int, m[i] as int);
            }
        }
    }
    lemma_phase_scales(ct1.polys(), ct3.polys(), r, s, m, n, len);
    lemma_transform_of_product(ctx, w1, pm);
    let w3 = rows_product(w1, pm, m);
    let v3 = negacyclic_product(v1, v2, tt);
    let e3 = product_errors(v1, e1, v2, t, gap);
    let b3 = n * t * (b1 + t);
    // the numbers that the rows hold, over the integers
    let x = Seq::new(n, |j: int| e1[j] + v1[j] * delta);
    let y = as_ints(v2);
    let z = as_ints(v1);
    let xy = integer_product(x, y);
    let ey = integer_product(e1, y);
    let zy = integer_product(z, y);
    lemma_integer_product_len(x, y);
    lemma_integer_product_len(e1, y);
    lemma_integer_product_len(z, y);
    assert forall|k: int| 0 <= k < n implies #[trigger] x[k] == e1[k] + delta * z[k] by {
        assert(v1[k] * delta == delta * z[k]) by (nonlinear_arith)
            requires
                z[k] == v1[k] as int,
        ;
    }
    lemma_product_is_linear(e1, z, delta, x, y);
    // the values of the product
    assert forall|k: int| 0 <= k < n implies (#[trigger] v1[k]) as int == z[k] % t by {
        lemma_small_mod(v1[k] as nat, t as nat);
    }
    assert forall|k: int| 0 <= k < n implies (#[trigger] v2[k]) as int == y[k] % t by {
        lemma_small_mod(v2[k] as nat, t as nat);
    }
    lemma_product_residues(z, y, v1, v2, tt);
    lemma_negacyclic_product_reduced(v1, v2, tt);
    // the bounds of the two products
    assert forall|k: int| 0 <= k < y.len() implies -t <= #[trigger] y[k] <= t by {
        assert(v2[k] < t);
    }
    assert forall|k: int| 0 <= k < z.len() implies -t <= #[trigger] z[k] <= t by {
        assert(v1[k] < t);
    }
    lemma_product_bound(e1, y, b1, t);
    lemma_product_bound(z, y, t, t);
    lemma_scaling_gap(par.big_q(), t as nat);
    let nt = n * t;
    assert(nt >= 0) by (nonlinear_arith)
        requires
            nt == n * t,
            t >= 2,
    ;
    assert(n * b1 * t == nt * b1 && n * t * t == nt * t && b3 == nt * b1 + nt * t)
        by (nonlinear_arith)
        requires
            nt == n * t,
            b3 == n * t * (b1 + t),
    ;
    assert forall|j: int| 0 <= j < n implies -b3 <= #[trigger] e3[j] <= b3 by {
        let total = zy[j];
        let c = total / t;
        lemma_div_bounds(total, t);
        assert(-(nt * t) <= total <= nt * t);
        assert(-nt <= c <= nt) by (nonlinear_arith)
            requires
                c * t <= total < c * t + t,
                -(nt * t) <= total <= nt * t,
                t >= 2,
        ;
        assert(-(nt * t) <= c * gap <= nt * t) by (nonlinear_arith)
            requires
                -nt <= c <= nt,
                -t < gap <= t,
                nt >= 0,
        ;
        assert(-(nt * b1) <= ey[j] <= nt * b1);
    }
    assert forall|j: int| 0 <= j < n implies (#[trigger] v3[j]) < t by {}
    assert forall|i: int, j: int| 0 <= i < m.len() && 0 <= j < n implies (#[trigger] w3[i][j])
        as int == (e3[j] + v3[j] * delta) % (m[i] as int) by {
        let q = m[i] as int;
        assert(w1[i].len() == n && pm[i].len() == n);
        assert forall|k: int| 0 <= k < n implies (#[trigger] w1[i][k]) as int == x[k] % q by {}
        assert forall|k: int| 0 <= k < n implies (#[trigger] pm[i][k]) as int == y[k] % q by {}
        lemma_product_residues(x, y, w1[i], pm[i], m[i]);
        assert(w3[i][j] as int == xy[j] % q);
        assert(xy[j] == ey[j] + delta * zy[j]);
        let total = zy[j];
        let c = total / t;
        lemma_fundamental_div_mod(total, t);
        assert(v3[j] as int == total % t);
        assert(xy[j] == e3[j] + v3[j] * delta + c * big) by (nonlinear_arith)
            requires
                xy[j] == ey[j] + delta * total,
                e3[j] == ey[j] + c * gap,
                gap == t * delta - big,
                total == t * c + v3[j],
        ;
        assert forall|l: int| 0 <= l < m.len() implies #[trigger] m[l] >= 1 by {}
        crate::rns::lemma_factor_divides(m, i);
        lemma_fundamental_div_mod(big, q);
        assert(c * big == q * (c * (big / q))) by (nonlinear_arith)
            requires
                big == q * (big / q),
        ;
        lemma_mod_multiples_vanish(c * (big / q), e3[j] + v3[j] * delta, q);
    }
}

/// The product of a fresh ciphertext and a plaintext decrypts to the
/// product of the two plaintexts modulo `x^n + 1` and the plaintext
/// modulus.
///
/// This holds for a key and plaintexts of the same parameters, in a context
/// that uses the reference tables of the transform, where the ciphertext
/// modulus leaves room for the error after the product: with the degree
/// `n` and the plaintext modulus `t`, for errors within
/// `n * t * (2 * variance + t)` of zero.
pub proof fn lemma_plaintext_product_round_trip(
    sk: &SecretKey,
    pt1: &Plaintext,
    pt2: &Plaintext,
    ct1: &Ciphertext,
    ct3: &Ciphertext,
    seed: Seed,
    error_seed: Seed,
)
    requires
        sk.wf(),
        pt1.wf(),
        pt2.wf(),
        pt1.par() == sk.par(),
        pt2.par() == sk.par(),
        uses_reference_tables(sk.par().ctx()),
        has_room(
            sk,
            sk.par().spec_degree() * sk.par().spec_plaintext() * (2 * sk.par().spec_variance()
                + sk.par().spec_plaintext()),
        ),
        sk.is_encryption(ct1, pt1, seed, error_seed),
        ct3.wf(),
        multiplies(ct1, pt2, ct3),
    ensures
        sk.decrypted(ct3) == negacyclic_product(
            pt1.values(),
            pt2.values(),
            sk.par().spec_plaintext(),
        ),
{
    let n = sk.par().spec_degree();
    let m = sk.par().spec_moduli();
    let variance = sk.par().spec_variance();
    let t = sk.par().spec_plaintext() as int;
    let b = 2 * variance as int;
    let w1 = fresh_rows(sk, pt1, error_seed);
    let e1 = small_coefficients(error_seed@, variance, n);
    let b3 = n * t * (b + t);
    lemma_fresh_carries(sk, pt1, ct1, seed, error_seed);
    lemma_plaintext_product_carries(sk, ct1, pt2, ct3, w1, pt1.values(), e1, b);
    assert(b3 >= 0) by (nonlinear_arith)
        requires
            b3 == n * t * (b + t),
            t >= 0,
            b >= 0,
    ;
    lemma_decryption(
        sk,
        ct3,
        rows_product(w1, power_rows(as_ints(pt2.values()), m, n), m),
        negacyclic_product(pt1.values(), pt2.values(), sk.par().spec_plaintext()),
        product_errors(pt1.values(), e1, pt2.values(), t, t * scaling(sk) - sk.par().big_q()),
        b3,
    );
}

/// Decoded as a batch, the product of two plaintexts modulo `x^n + 1`
/// holds the products of their slots, where the transform modulo the
/// plaintext modulus uses the reference tables.
pub proof fn lemma_slots_multiply(par: BfvParameters, encoding: Encoding, v1: Seq<u64>, v2: Seq<u64>)
    requires
        par.wf(),
        encoding.encoding == EncodingEnum::Simd,
        par.op() matches Some(o) && !o.accelerated(),
        v1.len() == par.spec_degree(),
        v2.len() == par.spec_degree(),
        reduced(v1, par.spec_plaintext()),
        reduced(v2, par.spec_plaintext()),
    ensures
        crate::plaintext::decoded(
            negacyclic_product(v1, v2, par.spec_plaintext()),
            encoding,
            par,
        ) == pointwise_product(
            crate::plaintext::decoded(v1, encoding, par),
            crate::plaintext::decoded(v2, encoding, par),
            par.spec_plaintext(),
        ),
{
    let o = par.op()->Some_0;
    let t = par.spec_plaintext();
    let map = par.index_map();
    o.lemma_forward_of_product(v1, v2);
    lemma_transform_sizes(o, v1);
    lemma_transform_sizes(o, v2);
    let f1 = o.forward_spec(v1);
    let f2 = o.forward_spec(v2);
    let left = crate::plaintext::decoded(negacyclic_product(v1, v2, t), encoding, par);
    let right = pointwise_product(
        crate::plaintext::decoded(v1, encoding, par),
        crate::plaintext::decoded(v2, encoding, par),
        t,
    );
    assert(left.len() == right.len());
    assert forall|i: int| 0 <= i < left.len() implies left[i] == right[i] by {
        assert(map[i] < par.spec_degree());
        assert(left[i] == pointwise_product(f1, f2, t)[map[i] as int]);
    }
    assert(left =~= right);
}

/// Decoded as a batch, the sum of two plaintexts holds the sums of their
/// slots, where the transform modulo the plaintext modulus uses the
/// reference tables.
pub proof fn lemma_slots_add(par: BfvParameters, encoding: Encoding, v1: Seq<u64>, v2: Seq<u64>)
    requires
        par.wf(),
        encoding.encoding == EncodingEnum::Simd,
        par.op() matches Some(o) && !o.accelerated(),
        v1.len() == par.spec_degree(),
        v2.len() == par.spec_degree(),
        reduced(v1, par.spec_plaintext()),
        reduced(v2, par.spec_plaintext()),
    ensures
        crate::plaintext::decoded(pointwise_sum(v1, v2, par.spec_plaintext()), encoding, par)
            == pointwise_sum(
            crate::plaintext::decoded(v1, encoding, par),
            crate::plaintext::decoded(v2, encoding, par),
            par.spec_plaintext(),
        ),
{
    let o = par.op()->Some_0;
    let t = par.spec_plaintext();
    let map = par.index_map();
    o.lemma_forward_of_sum(v1, v2);
    lemma_transform_sizes(o, v1);
    lemma_transform_sizes(o, v2);
    let f1 = o.forward_spec(v1);
    let f2 = o.forward_spec(v2);
    let left = crate::plaintext::decoded(pointwise_sum(v1, v2, t), encoding, par);
    let right = pointwise_sum(
        crate::plaintext::decoded(v1, encoding, par),
        crate::plaintext::decoded(v2, encoding, par),
        t,
    );
    assert(left.len() == right.len());
    assert forall|i: int| 0 <= i < left.len() implies left[i] == right[i] by {
        assert(map[i] < par.spec_degree());
        assert(left[i] == pointwise_sum(f1, f2, t)[map[i] as int]);
    }
    assert(left =~= right);
}

/// The product of a fresh ciphertext and a plaintext decrypts to a
/// plaintext whose slots, decoded as a batch, are the products of the slots
/// of the two plaintexts.
///
/// This holds under the conditions of the product of plaintexts, where the
/// transform modulo the plaintext modulus uses the reference tables too.
pub proof fn lemma_batched_product_round_trip(
    sk: &SecretKey,
    encoding: Encoding,
    pt1: &Plaintext,
    pt2: &Plaintext,
    ct1: &Ciphertext,
    ct3: &Ciphertext,
    seed: Seed,
    error_seed: Seed,
)
    requires
        sk.wf(),
        pt1.wf(),
        pt2.wf(),
        pt1.par() == sk.par(),
        pt2.par() == sk.par(),
        encoding.encoding == EncodingEnum::Simd,
        sk.par().op() matches Some(o) && !o.accelerated(),
        uses_reference_tables(sk.par().ctx()),
        has_room(
            sk,
            sk.par().spec_degree() * sk.par().spec_plaintext() * (2 * sk.par().spec_variance()
                + sk.par().spec_plaintext()),
        ),
        sk.is_encryption(ct1, pt1, seed, error_seed),
        ct3.wf(),
        multiplies(ct1, pt2, ct3),
    ensures
        crate::plaintext::decoded(sk.decrypted(ct3), encoding, sk.par()) == pointwise_product(
            crate::plaintext::decoded(pt1.values(), encoding, sk.par()),
            crate::plaintext::decoded(pt2.values(), encoding, sk.par()),
            sk.par().spec_plaintext(),
        ),
{
    lemma_plaintext_product_round_trip(sk, pt1, pt2, ct1, ct3, seed, error_seed);
    lemma_slots_multiply(sk.par(), encoding, pt1.values(), pt2.values());
}

} // verus!
