//! Why decryption gives back what was encrypted.
//!
//! The statements here are about contexts that use the reference tables of
//! the transform for every modulus, and about parameters whose ciphertext
//! modulus is large enough for the plaintext modulus and the error.
use crate::arith::{lemma_div_bounds, lemma_div_unique};
use crate::ciphertext::Ciphertext;
use crate::ntt::{
    constant, lemma_negacyclic_product_reduced, lemma_product_with_constant, lemma_transform_sizes,
    negacyclic_product, pointwise_difference, pointwise_negation, pointwise_product, pointwise_sum,
};
use crate::parameters::round_div;
use crate::plaintext::Plaintext;
use crate::random::Seed;
use crate::rq::{
    as_ints, bit_count, centered_binomial, column, converted, op_value, power_rows, rows_combine,
    rows_in, rows_neg, small_coefficients, Context, Operation, Poly, Representation,
};
use crate::scaler::{centered_lift, scale_value, scaled_rows};
use crate::secret_key::{key_power, phase, recentered, SecretKey};
use crate::zq::reduced;
use vstd::arithmetic::div_mod::*;
use vstd::arithmetic::power2::pow2;
use vstd::prelude::*;

verus! {

/// The coefficient that a decryption finds behind the integer `x`, which
/// stands for a coefficient of `c[0] + c[1] * s`: `x` is taken modulo `q`
/// into the centered range, scaled by `t / q` and rounded, reduced modulo
/// `q0`, and brought back into `[0, t)`.
pub open spec fn decoded(x: int, t: int, q: int, q0: int) -> int {
    let y = centered_lift((x % q) as nat, q as nat);
    let w = scale_value(y, t as nat, q as nat, false);
    (((w % q0) + t) % q0) % t
}

/// A number that is a multiple of `q` plus a rest below the half of `q` is
/// rounded to that multiple when it is divided by `q`.
pub proof fn lemma_round_to_multiple(c: int, rest: int, q: int)
    requires
        q >= 2,
        -(q / 2) <= rest,
        rest < q - q / 2,
    ensures
        (c * q + rest + q / 2) / q == c,
{
    assert(c * q <= c * q + rest + q / 2 < c * q + q);
    lemma_div_unique(c * q + rest + q / 2, q, c);
}

/// A coefficient `v` of a plaintext that was scaled by `delta = round(q / t)`
/// and blurred by an error `e` is found again, as long as the ciphertext
/// modulus `q` is at least `4 * t * (t + b)` for the bound `b` of the error,
/// and the first modulus `q0` is at least `2 * t`.
pub proof fn lemma_decoded(v: int, e: int, b: int, t: int, q: int, q0: int)
    requires
        t >= 2,
        0 <= v < t,
        b >= 0,
        -b <= e <= b,
        q >= 4 * t * (t + b),
        q0 >= 2 * t,
    ensures
        decoded(e + v * (round_div(q as nat, t as nat) as int), t, q, q0) == v,
{
    let delta = round_div(q as nat, t as nat) as int;
    assert(4 * t * (t + b) >= 4 * t * t) by (nonlinear_arith)
        requires
            t >= 2,
            b >= 0,
    ;
    assert(4 * t * t >= 16) by (nonlinear_arith)
        requires
            t >= 2,
    ;
    assert(4 * t * (t + b) >= 8 * b) by (nonlinear_arith)
        requires
            t >= 2,
            b >= 0,
    ;
    // delta * t is about q
    lemma_div_bounds(q + t / 2, t);
    let g = t * delta - q;
    assert(delta * t == t * delta) by (nonlinear_arith);
    assert(-t < g <= t);
    // delta is larger than t + b
    assert(delta > t + b) by (nonlinear_arith)
        requires
            t * delta > q - t,
            q >= 4 * t * (t + b),
            t >= 2,
            b >= 0,
    {
        assert(t * delta > t * (4 * (t + b) - 1));
        assert(4 * (t + b) - 1 >= t + b + 1);
    }
    let x = e + v * delta;
    // t * x == v * q + rest, with a small rest
    let rest = v * g + t * e;
    assert(t * x == v * q + rest) by (nonlinear_arith)
        requires
            x == e + v * delta,
            g == t * delta - q,
            rest == v * g + t * e,
    ;
    assert(-(t * t) < v * g < t * t) by (nonlinear_arith)
        requires
            0 <= v < t,
            -t < g <= t,
    {
        assert(v * g <= v * t);
        assert(v * g >= -(v * t));
        assert(v * t < t * t);
    }
    assert(-(t * b) <= t * e <= t * b) by (nonlinear_arith)
        requires
            t >= 2,
            -b <= e <= b,
    ;
    assert(t * (t + b) == t * t + t * b) by (nonlinear_arith);
    assert(4 * (t * (t + b)) == 4 * t * (t + b)) by (nonlinear_arith);
    assert(-(q / 4) <= rest <= q / 4);
    // x lies between -b and q - 1
    assert(x >= -b) by (nonlinear_arith)
        requires
            x == e + v * delta,
            e >= -b,
            v >= 0,
            delta >= 0,
    ;
    assert(x < q) by (nonlinear_arith)
        requires
            t * x == v * q + rest,
            rest <= q / 4,
            0 <= v < t,
            t >= 2,
            q >= 16,
    {
        assert(v * q <= (t - 1) * q);
        assert(t * x <= (t - 1) * q + q / 4);
        assert(t * x < t * q);
    }
    let r = x % q;
    let k: int = if x < 0 {
        lemma_mod_add_multiples_vanish(x, q);
        lemma_small_mod((x + q) as nat, q as nat);
        assert(r == x + q);
        0
    } else {
        lemma_small_mod(x as nat, q as nat);
        assert(r == x);
        if x >= q / 2 {
            1
        } else {
            0
        }
    };
    let y = centered_lift(r as nat, q as nat);
    assert(y == x - k * q) by {
        if x < 0 {
            assert(r >= q / 2);
        }
    }
    // a negative x means v == 0
    if x < 0 {
        assert(v == 0) by (nonlinear_arith)
            requires
                x == e + v * delta,
                x < 0,
                e >= -b,
                delta > t + b,
                v >= 0,
                t >= 2,
                b >= 0,
        {
            if v >= 1 {
                assert(v * delta >= delta);
            }
        }
    }
    let c = v - k * t;
    assert(t * y == c * q + rest) by (nonlinear_arith)
        requires
            t * x == v * q + rest,
            y == x - k * q,
            c == v - k * t,
    ;
    let w = scale_value(y, t as nat, q as nat, false);
    assert(w == c) by {
        if y >= 0 {
            assert(y * t == t * y) by (nonlinear_arith);
            lemma_round_to_multiple(c, rest, q);
        } else {
            assert(-y * t == (-c) * q + (-rest)) by (nonlinear_arith)
                requires
                    t * y == c * q + rest,
            ;
            lemma_round_to_multiple(-c, -rest, q);
        }
    }
    // back into [0, t)
    assert(-t <= c < t);
    let d = c % q0;
    if c >= 0 {
        lemma_small_mod(c as nat, q0 as nat);
        lemma_small_mod((c + t) as nat, q0 as nat);
    } else {
        lemma_mod_add_multiples_vanish(c, q0);
        lemma_small_mod((c + q0) as nat, q0 as nat);
        assert(d == c + q0);
        lemma_mod_add_multiples_vanish(c + t, q0);
        lemma_small_mod((c + t) as nat, q0 as nat);
    }
    assert((d + t) % q0 == c + t);
    if k == 0 {
        lemma_mod_add_multiples_vanish(v, t);
        lemma_small_mod(v as nat, t as nat);
    } else {
        lemma_small_mod(v as nat, t as nat);
    }
}

/// Whether the context uses the reference tables of the transform for
/// every modulus.
pub open spec fn uses_reference_tables(ctx: Context) -> bool {
    forall|i: int| 0 <= i < ctx.ops().len() ==> !(#[trigger] ctx.ops()[i]).accelerated()
}

/// Whether there are `k` rows of `n` elements each.
pub open spec fn shaped(x: Seq<Seq<u64>>, k: nat, n: nat) -> bool {
    &&& x.len() == k
    &&& forall|i: int| 0 <= i < k ==> (#[trigger] x[i]).len() == n
}

/// Adding a mask after subtracting it leaves the rest: `x - y + z + y` is
/// `x + z`, row by row and modulo the modulus of each row.
pub proof fn lemma_mask_cancels(
    x: Seq<Seq<u64>>,
    y: Seq<Seq<u64>>,
    z: Seq<Seq<u64>>,
    moduli: Seq<u64>,
    n: nat,
)
    requires
        shaped(x, moduli.len(), n),
        shaped(y, moduli.len(), n),
        shaped(z, moduli.len(), n),
        forall|i: int| 0 <= i < moduli.len() ==> #[trigger] moduli[i] > 0,
    ensures
        rows_combine(
            Operation::Add,
            rows_combine(Operation::Add, rows_combine(Operation::Sub, x, y, moduli), z, moduli),
            y,
            moduli,
        ) == rows_combine(Operation::Add, x, z, moduli),
{
    let a = rows_combine(Operation::Sub, x, y, moduli);
    let b = rows_combine(Operation::Add, a, z, moduli);
    let c = rows_combine(Operation::Add, b, y, moduli);
    let d = rows_combine(Operation::Add, x, z, moduli);
    assert forall|i: int| 0 <= i < moduli.len() implies #[trigger] c[i] =~= d[i] by {
        let q = moduli[i] as int;
        assert(x[i].len() == n && y[i].len() == n && z[i].len() == n);
        assert forall|j: int| 0 <= j < n implies c[i][j] == d[i][j] by {
            let xv = x[i][j] as int;
            let yv = y[i][j] as int;
            let zv = z[i][j] as int;
            lemma_mod_bound(xv - yv, q);
            lemma_mod_bound((xv - yv) % q + zv, q);
            lemma_mod_bound(((xv - yv) % q + zv) % q + yv, q);
            lemma_mod_bound(xv + zv, q);
            assert(a[i][j] as int == (xv - yv) % q);
            assert(b[i][j] as int == ((xv - yv) % q + zv) % q);
            lemma_add_mod_noop_right(yv, (xv - yv) % q + zv, q);
            lemma_add_mod_noop_right(yv + zv, xv - yv, q);
            assert(yv + ((xv - yv) % q + zv) == (yv + zv) + (xv - yv) % q);
            assert((yv + zv) + (xv - yv) == xv + zv);
        }
    }
    assert(c =~= d);
}

/// Among the lowest `bits` bits of a number, at most `bits` are set.
pub proof fn lemma_bit_count_bound(x: nat, bits: nat)
    ensures
        bit_count(x, bits) <= bits,
    decreases bits,
{
    if bits > 0 {
        lemma_bit_count_bound(x / 2, (bits - 1) as nat);
    }
}

/// A sample of the centered binomial distribution lies within twice the
/// variance of zero.
pub proof fn lemma_small_sample(word: u64, variance: nat)
    ensures
        -(2 * variance as int) <= centered_binomial(word, variance) <= 2 * variance as int,
{
    let bits = 2 * variance;
    vstd::arithmetic::power2::lemma_pow2_pos(bits);
    let high = word as nat / pow2(bits);
    lemma_bit_count_bound(word as nat, bits);
    lemma_bit_count_bound(high, bits);
    vstd::arithmetic::power2::lemma_pow2_pos(bits);
    let a = bit_count(word as nat, bits) as int;
    let b = bit_count(high, bits) as int;
    assert(0 <= a <= bits);
    assert(0 <= b <= bits);
    assert(centered_binomial(word, variance) == a - b);
}

/// The residues of `e + v * d` are those of the residues of `e`, `v` and
/// `d`, combined and reduced.
pub proof fn lemma_residue_of_scaled_sum(e: int, v: int, d: int, q: int)
    requires
        q > 0,
    ensures
        ((e % q) + (v % q) * (d % q)) % q == (e + v * d) % q,
{
    lemma_mul_mod_noop(v, d, q);
    lemma_add_mod_noop(e, v * d, q);
    lemma_add_mod_noop_right(e % q, (v % q) * (d % q), q);
}

/// Whether the rows `w`, in the power basis, hold the numbers
/// `errs[j] + vals[j] * delta` coefficient by coefficient, with the values
/// below `t` and the errors within `b` of zero.
pub open spec fn holds(
    w: Seq<Seq<u64>>,
    moduli: Seq<u64>,
    n: nat,
    t: int,
    delta: int,
    vals: Seq<u64>,
    errs: Seq<int>,
    b: int,
) -> bool {
    &&& rows_in(w, moduli, n)
    &&& vals.len() == n
    &&& errs.len() == n
    &&& forall|j: int| 0 <= j < n ==> (#[trigger] vals[j]) < t
    &&& forall|j: int| 0 <= j < n ==> -b <= #[trigger] errs[j] <= b
    &&& forall|i: int, j: int|
        0 <= i < moduli.len() && 0 <= j < n ==> (#[trigger] w[i][j]) as int == (errs[j] + vals[j]
            * delta) % (moduli[i] as int)
}

/// Whether the ciphertext, which is not minimized, carries the polynomial
/// with the rows `w` under the key: whether `c[0] + c[1] * s + ...` is the
/// transform of `w`.
pub open spec fn carries(sk: &SecretKey, ct: &Ciphertext, w: Seq<Seq<u64>>) -> bool {
    &&& ct.par() == sk.par()
    &&& !ct.minimized()
    &&& ct.polys().len() >= 1
    &&& phase(ct.polys(), sk.s().rows(), sk.par().spec_moduli(), ct.polys().len()) == converted(
        sk.par().ctx(),
        Representation::PowerBasis,
        Representation::Ntt,
        w,
    )
}

/// The scaling constant of the parameters: the product of the ciphertext
/// moduli divided by the plaintext modulus, rounded.
pub open spec fn scaling(sk: &SecretKey) -> int {
    round_div(sk.par().big_q(), sk.par().spec_plaintext() as nat) as int
}

/// Whether the ciphertext modulus leaves room for errors within `b` of
/// zero: the product of the ciphertext moduli is at least `4 * t * (t + b)`
/// and the first of them at least `2 * t`, for the plaintext modulus `t`.
pub open spec fn has_room(sk: &SecretKey, b: int) -> bool {
    &&& sk.par().big_q() >= 4 * sk.par().spec_plaintext() * (sk.par().spec_plaintext() + b)
    &&& sk.par().spec_moduli()[0] >= 2 * sk.par().spec_plaintext()
}

/// A ciphertext that carries values blurred by errors decrypts to the
/// values, as long as the ciphertext modulus leaves room for the errors.
pub proof fn lemma_decryption(
    sk: &SecretKey,
    ct: &Ciphertext,
    w: Seq<Seq<u64>>,
    vals: Seq<u64>,
    errs: Seq<int>,
    b: int,
)
    requires
        sk.wf(),
        ct.wf(),
        carries(sk, ct, w),
        holds(
            w,
            sk.par().spec_moduli(),
            sk.par().spec_degree(),
            sk.par().spec_plaintext() as int,
            scaling(sk),
            vals,
            errs,
            b,
        ),
        b >= 0,
        has_room(sk, b),
    ensures
        sk.decrypted(ct) == vals,
{
    let par = sk.par();
    let ctx = par.ctx();
    let m = par.spec_moduli();
    let n = par.spec_degree();
    let t = par.spec_plaintext();
    let big = par.big_q();
    let q0 = m[0];
    let delta = scaling(sk);
    assert(ctx.moduli() == m && ctx.degree() == n);
    assert(ctx.rns().modulus_value() == big);
    assert(ct.ctx() == ctx);
    assert(sk.key_rows(false) == sk.s().rows());
    let ph = phase(ct.polys(), sk.s().rows(), m, ct.polys().len());
    // back in the power basis, the sum is w
    let back = converted(ctx, Representation::Ntt, Representation::PowerBasis, ph);
    crate::rq::lemma_there_and_back(ctx, w);
    assert(back == w);
    let sc = par.scaler();
    assert(sc.from() == ctx && sc.to() == par.plaintext_ctx() && sc.num() == t && sc.den() == big);
    assert(par.plaintext_ctx().moduli() =~= seq![q0]);
    let row = scaled_rows(w, sc.from(), sc.to(), sc.num(), sc.den(), false)[0];
    let found = recentered(row, t, q0);
    assert(row.len() == n);
    assert forall|j: int| 0 <= j < n implies found[j] == vals[j] by {
        let ej = errs[j];
        let vj = vals[j] as int;
        let x = ej + vj * delta;
        let col = column(w, j);
        assert forall|i: int| 0 <= i < col.len() implies (#[trigger] col[i]) as int == x % (
        ctx.rns().moduli()[i] as int) by {
            assert(col[i] == w[i][j]);
        }
        ctx.rns().lemma_lift_of_residues(x, col);
        assert(2 <= t);
        lemma_decoded(vj, ej, b, t as int, big as int, q0 as int);
        let y = centered_lift(ctx.rns().lift_spec(col), big);
        let scaled = scale_value(y, t as nat, big, false);
        lemma_mod_bound(scaled, q0 as int);
        assert(row[j] as int == scaled % (q0 as int));
        lemma_mod_bound(((row[j] + t) % (q0 as int)) as int, t as int);
    }
    assert(found =~= vals);
}

/// The rows, in the power basis, that a fresh ciphertext of the plaintext
/// carries: the error plus the plaintext times the scaling constant.
pub open spec fn fresh_rows(sk: &SecretKey, pt: &Plaintext, error_seed: Seed) -> Seq<Seq<u64>> {
    let m = sk.par().spec_moduli();
    let n = sk.par().spec_degree();
    let e = power_rows(small_coefficients(error_seed@, sk.par().spec_variance(), n), m, n);
    let v = power_rows(as_ints(pt.values()), m, n);
    let d = power_rows(seq![scaling(sk)], m, n);
    Seq::new(
        m.len(),
        |i: int| pointwise_sum(e[i], negacyclic_product(v[i], d[i], m[i]), m[i]),
    )
}

/// A fresh ciphertext carries the plaintext times the scaling constant,
/// blurred by an error within twice the variance of zero.
pub proof fn lemma_fresh_carries(
    sk: &SecretKey,
    pt: &Plaintext,
    ct: &Ciphertext,
    seed: Seed,
    error_seed: Seed,
)
    requires
        sk.wf(),
        pt.wf(),
        pt.par() == sk.par(),
        uses_reference_tables(sk.par().ctx()),
        sk.is_encryption(ct, pt, seed, error_seed),
    ensures
        carries(sk, ct, fresh_rows(sk, pt, error_seed)),
        holds(
            fresh_rows(sk, pt, error_seed),
            sk.par().spec_moduli(),
            sk.par().spec_degree(),
            sk.par().spec_plaintext() as int,
            scaling(sk),
            pt.values(),
            small_coefficients(error_seed@, sk.par().spec_variance(), sk.par().spec_degree()),
            2 * sk.par().spec_variance() as int,
        ),
{
    let par = sk.par();
    let ctx = par.ctx();
    let m = par.spec_moduli();
    let n = par.spec_degree();
    let t = par.spec_plaintext();
    let variance = par.spec_variance();
    let delta = scaling(sk);
    let values = pt.values();
    let errors = small_coefficients(error_seed@, variance, n);
    let e = power_rows(errors, m, n);
    let v = power_rows(as_ints(values), m, n);
    let d = power_rows(seq![delta], m, n);
    let w = fresh_rows(sk, pt, error_seed);
    assert(ctx.moduli() == m && ctx.degree() == n);
    lemma_round_div_nonnegative(par.big_q(), t as nat);
    // the three polynomials have reduced rows
    assert forall|i: int| 0 <= i < m.len() implies 2 <= #[trigger] m[i] by {}
    assert(rows_in(e, m, n)) by {
        assert forall|i: int| 0 <= i < e.len() implies (#[trigger] e[i]).len() == n && reduced(
            e[i],
            m[i],
        ) by {
            assert(2 <= m[i]);
            assert forall|j: int| 0 <= j < n implies #[trigger] e[i][j] < m[i] by {
                lemma_mod_bound(errors[j], m[i] as int);
            }
        }
    }
    assert(rows_in(v, m, n)) by {
        assert forall|i: int| 0 <= i < v.len() implies (#[trigger] v[i]).len() == n && reduced(
            v[i],
            m[i],
        ) by {
            assert(2 <= m[i]);
            assert forall|j: int| 0 <= j < n implies #[trigger] v[i][j] < m[i] by {
                lemma_mod_bound(as_ints(values)[j], m[i] as int);
            }
        }
    }
    assert(rows_in(d, m, n)) by {
        assert forall|i: int| 0 <= i < d.len() implies (#[trigger] d[i]).len() == n && reduced(
            d[i],
            m[i],
        ) by {
            assert(2 <= m[i]);
            assert forall|j: int| 0 <= j < n implies #[trigger] d[i][j] < m[i] by {
                lemma_mod_bound(delta, m[i] as int);
            }
        }
    }
    // the parts of the ciphertext
    let e_ntt = converted(ctx, Representation::PowerBasis, Representation::Ntt, e);
    let v_ntt = converted(ctx, Representation::PowerBasis, Representation::Ntt, v);
    let d_ntt = converted(ctx, Representation::PowerBasis, Representation::NttShoup, d);
    let a = ct.polys()[1].rows();
    let s = sk.s().rows();
    let mask = rows_combine(Operation::Mul, a, s, m);
    let message = rows_combine(Operation::Mul, v_ntt, d_ntt, m);
    assert(pt.poly().rows() == v_ntt);
    assert(par.delta().rows() == d_ntt);
    // the sum c[0] + c[1] * s loses the mask
    let ph = phase(ct.polys(), s, m, 2);
    assert(key_power(s, m, 1) == s);
    assert(phase(ct.polys(), s, m, 1) == ct.polys()[0].rows());
    assert(ph == rows_combine(Operation::Add, ct.polys()[0].rows(), mask, m));
    assert(shaped(e_ntt, m.len(), n)) by {
        assert forall|i: int| 0 <= i < m.len() implies (#[trigger] e_ntt[i]).len() == n by {
            assert(ctx.ops()[i].wf());
            lemma_transform_sizes(ctx.ops()[i], e[i]);
        }
    }
    assert(shaped(mask, m.len(), n)) by {
        assert(ct.polys()[1].wf());
        assert forall|i: int| 0 <= i < m.len() implies (#[trigger] mask[i]).len() == n by {
            assert(a[i].len() == n);
        }
    }
    assert(shaped(message, m.len(), n)) by {
        assert(pt.poly().wf());
        assert forall|i: int| 0 <= i < m.len() implies (#[trigger] message[i]).len() == n by {
            assert(v_ntt[i].len() == n);
        }
    }
    lemma_mask_cancels(e_ntt, mask, message, m, n);
    assert(ph == rows_combine(Operation::Add, e_ntt, message, m));
    // the sum is the transform of w
    let total = rows_combine(Operation::Add, e_ntt, message, m);
    let forward = converted(ctx, Representation::PowerBasis, Representation::Ntt, w);
    assert forall|i: int| 0 <= i < m.len() implies #[trigger] total[i] == forward[i] && w[i].len()
        == n && reduced(w[i], m[i]) && forall|j: int|
        0 <= j < n ==> (#[trigger] w[i][j]) as int == (errors[j] + values[j] * delta) % (
        m[i] as int) by {
        let op = ctx.ops()[i];
        let p = m[i];
        let q = p as int;
        assert(op.wf() && op.modulus() == p && op.size() == n && !op.accelerated());
        assert(e[i].len() == n && reduced(e[i], p));
        assert(v[i].len() == n && reduced(v[i], p));
        assert(d[i].len() == n && reduced(d[i], p));
        assert(d[i] =~= constant(d[i][0], n));
        let pr = negacyclic_product(v[i], d[i], p);
        lemma_negacyclic_product_reduced(v[i], d[i], p);
        lemma_product_with_constant(v[i], d[i][0], n, p);
        op.lemma_forward_of_product(v[i], d[i]);
        lemma_transform_sizes(op, e[i]);
        lemma_transform_sizes(op, v[i]);
        lemma_transform_sizes(op, d[i]);
        lemma_transform_sizes(op, pr);
        assert(message[i] =~= pointwise_product(op.forward_spec(v[i]), op.forward_spec(d[i]), p));
        assert(reduced(w[i], p)) by {
            assert forall|j: int| 0 <= j < w[i].len() implies #[trigger] w[i][j] < p by {
                lemma_mod_bound(e[i][j] + pr[j], q);
            }
        }
        op.lemma_forward_of_sum(e[i], pr);
        assert(total[i] =~= pointwise_sum(op.forward_spec(e[i]), op.forward_spec(pr), p));
        assert forall|j: int| 0 <= j < n implies (#[trigger] w[i][j]) as int == (errors[j]
            + values[j] * delta) % q by {
            lemma_mod_bound(e[i][j] + pr[j], q);
            lemma_add_mod_noop_right(e[i][j] as int, v[i][j] * d[i][0], q);
            lemma_mod_bound(errors[j], q);
            lemma_mod_bound(values[j] as int, q);
            lemma_mod_bound(delta, q);
            lemma_residue_of_scaled_sum(errors[j], values[j] as int, delta, q);
        }
    }
    assert(total =~= forward);
    assert(rows_in(w, m, n)) by {
        assert forall|i: int| 0 <= i < w.len() implies (#[trigger] w[i]).len() == n && reduced(
            w[i],
            m[i],
        ) by {
            let row = total[i];
        }
    }
    assert forall|i: int, j: int| 0 <= i < m.len() && 0 <= j < n implies (#[trigger] w[i][j])
        as int == (errors[j] + values[j] * delta) % (m[i] as int) by {
        let row = total[i];
    }
    assert forall|j: int| 0 <= j < n implies -(2 * variance as int) <= #[trigger] errors[j] <= 2
        * variance as int by {
        lemma_small_sample(crate::random::chacha8_words(error_seed@, n)[j], variance);
    }
}

/// The rounded quotient of natural numbers is not negative.
pub proof fn lemma_round_div_nonnegative(a: nat, b: nat)
    requires
        b > 0,
    ensures
        round_div(a, b) >= 0,
{
}

/// The decryption of a fresh ciphertext gives the plaintext back.
///
/// This holds for a key and a plaintext of the same parameters, in a
/// context that uses the reference tables of the transform, where the
/// ciphertext modulus leaves room for an error within twice the variance
/// of zero.
pub proof fn lemma_fresh_round_trip(
    sk: &SecretKey,
    pt: &Plaintext,
    ct: &Ciphertext,
    seed: Seed,
    error_seed: Seed,
)
    requires
        sk.wf(),
        pt.wf(),
        pt.par() == sk.par(),
        uses_reference_tables(sk.par().ctx()),
        has_room(sk, 2 * sk.par().spec_variance() as int),
        sk.is_encryption(ct, pt, seed, error_seed),
    ensures
        sk.decrypted(ct) == pt.values(),
{
    lemma_fresh_carries(sk, pt, ct, seed, error_seed);
    lemma_decryption(
        sk,
        ct,
        fresh_rows(sk, pt, error_seed),
        pt.values(),
        small_coefficients(error_seed@, sk.par().spec_variance(), sk.par().spec_degree()),
        2 * sk.par().spec_variance() as int,
    );
}

/// Whatever mask and error were drawn, the decryption of a ciphertext that
/// was made of a plaintext gives the plaintext back, under the conditions
/// of the decryption of a fresh ciphertext.
pub proof fn lemma_round_trip(sk: &SecretKey, pt: &Plaintext, ct: &Ciphertext)
    requires
        sk.wf(),
        pt.wf(),
        pt.par() == sk.par(),
        uses_reference_tables(sk.par().ctx()),
        has_room(sk, 2 * sk.par().spec_variance() as int),
        exists|seed: Seed, error_seed: Seed| sk.is_encryption(ct, pt, seed, error_seed),
    ensures
        sk.decrypted(ct) == pt.values(),
{
    let (seed, error_seed) = choose|seed: Seed, error_seed: Seed|
        sk.is_encryption(ct, pt, seed, error_seed);
    lemma_fresh_round_trip(sk, pt, ct, seed, error_seed);
}

/// The gap between the plaintext modulus times the scaling constant and the
/// ciphertext modulus is within the plaintext modulus of zero.
pub proof fn lemma_scaling_gap(q: nat, t: nat)
    requires
        t >= 1,
    ensures
        -(t as int) < t * round_div(q, t) - q <= t,
{
    lemma_div_bounds((q + t / 2) as int, t as int);
    assert(round_div(q, t) * t == t * round_div(q, t)) by (nonlinear_arith);
}

/// The residue of a sum or a difference is that of the residues of its
/// terms, combined and reduced.
pub proof fn lemma_residue_of_combination(op: Operation, x: int, y: int, q: int)
    requires
        q > 0,
        op != Operation::Mul,
    ensures
        op_value(op, x % q, y % q) % q == op_value(op, x, y) % q,
{
    lemma_add_mod_noop(x, y, q);
    lemma_sub_mod_noop(x, y, q);
}

/// The sum `c[0] + c[1] * s + ...` of a sum, or of a difference, of
/// ciphertexts is the sum, or the difference, of the sums of the two.
pub proof fn lemma_phase_combines(
    op: Operation,
    first: Seq<Poly>,
    second: Seq<Poly>,
    third: Seq<Poly>,
    s: Seq<Seq<u64>>,
    m: Seq<u64>,
    n: nat,
    upto: nat,
)
    requires
        op != Operation::Mul,
        1 <= upto <= first.len(),
        second.len() == first.len(),
        third.len() == first.len(),
        shaped(s, m.len(), n),
        forall|i: int| 0 <= i < m.len() ==> #[trigger] m[i] > 0,
        forall|i: int| 0 <= i < first.len() ==> shaped((#[trigger] first[i]).rows(), m.len(), n),
        forall|i: int| 0 <= i < first.len() ==> shaped((#[trigger] second[i]).rows(), m.len(), n),
        forall|i: int|
            0 <= i < first.len() ==> (#[trigger] third[i]).rows() == rows_combine(
                op,
                first[i].rows(),
                second[i].rows(),
                m,
            ),
    ensures
        shaped(phase(first, s, m, upto), m.len(), n),
        shaped(phase(second, s, m, upto), m.len(), n),
        shaped(key_power(s, m, upto), m.len(), n),
        phase(third, s, m, upto) == rows_combine(
            op,
            phase(first, s, m, upto),
            phase(second, s, m, upto),
            m,
        ),
    decreases upto,
{
    if upto >= 2 {
        let u = (upto - 1) as nat;
        lemma_phase_combines(op, first, second, third, s, m, n, u);
        let kp = key_power(s, m, u);
        let a1 = phase(first, s, m, u);
        let a2 = phase(second, s, m, u);
        let c = first[u as int].rows();
        let d = second[u as int].rows();
        assert(shaped(c, m.len(), n) && shaped(d, m.len(), n));
        let left = phase(third, s, m, upto);
        let right = rows_combine(op, phase(first, s, m, upto), phase(second, s, m, upto), m);
        assert(third[u as int].rows() == rows_combine(op, c, d, m));
        assert forall|i: int| 0 <= i < m.len() implies #[trigger] left[i] =~= right[i] by {
            let q = m[i] as int;
            assert(a1[i].len() == n && a2[i].len() == n && c[i].len() == n && d[i].len() == n
                && kp[i].len() == n);
            assert forall|j: int| 0 <= j < n implies left[i][j] == right[i][j] by {
                let x1 = a1[i][j] as int;
                let x2 = a2[i][j] as int;
                let cv = c[i][j] as int;
                let dv = d[i][j] as int;
                let k = kp[i][j] as int;
                let xs = op_value(op, x1, x2);
                let cs = op_value(op, cv, dv);
                let y1 = x1 + (cv * k) % q;
                let y2 = x2 + (dv * k) % q;
                lemma_mod_bound(xs, q);
                lemma_mod_bound(cs, q);
                lemma_mod_bound((cs % q) * k, q);
                lemma_mod_bound(cv * k, q);
                lemma_mod_bound(dv * k, q);
                lemma_mod_bound(y1, q);
                lemma_mod_bound(y2, q);
                lemma_mod_bound(xs % q + ((cs % q) * k) % q, q);
                lemma_mod_bound(op_value(op, y1 % q, y2 % q), q);
                // the left side is xs + cs * k modulo q
                lemma_mul_mod_noop_left(cs, k, q);
                lemma_add_mod_noop(xs, (cs % q) * k, q);
                lemma_add_mod_noop(xs, cs * k, q);
                // and so is the right side
                lemma_add_mod_noop_right(x1, cv * k, q);
                lemma_add_mod_noop_right(x2, dv * k, q);
                lemma_residue_of_combination(op, y1, y2, q);
                lemma_residue_of_combination(op, x1 + cv * k, x2 + dv * k, q);
                lemma_residue_of_combination(op, (x1 + cv * k) % q, (x2 + dv * k) % q, q);
                lemma_mod_twice(x1 + cv * k, q);
                lemma_mod_twice(x2 + dv * k, q);
                assert(op_value(op, x1 + cv * k, x2 + dv * k) == xs + cs * k) by (nonlinear_arith)
                    requires
                        xs == op_value(op, x1, x2),
                        cs == op_value(op, cv, dv),
                        op != Operation::Mul,
                ;
            }
        }
        assert(left =~= right);
    }
}

/// In a context that uses the reference tables, the transform of a sum, or
/// of a difference, of polynomials is the sum, or the difference, of their
/// transforms.
pub proof fn lemma_transform_combines(
    op: Operation,
    ctx: Context,
    w1: Seq<Seq<u64>>,
    w2: Seq<Seq<u64>>,
)
    requires
        op != Operation::Mul,
        ctx.wf(),
        uses_reference_tables(ctx),
        rows_in(w1, ctx.moduli(), ctx.degree()),
        rows_in(w2, ctx.moduli(), ctx.degree()),
    ensures
        rows_in(rows_combine(op, w1, w2, ctx.moduli()), ctx.moduli(), ctx.degree()),
        converted(
            ctx,
            Representation::PowerBasis,
            Representation::Ntt,
            rows_combine(op, w1, w2, ctx.moduli()),
        ) == rows_combine(
            op,
            converted(ctx, Representation::PowerBasis, Representation::Ntt, w1),
            converted(ctx, Representation::PowerBasis, Representation::Ntt, w2),
            ctx.moduli(),
        ),
{
    let m = ctx.moduli();
    let n = ctx.degree();
    let sum = rows_combine(op, w1, w2, m);
    let f1 = converted(ctx, Representation::PowerBasis, Representation::Ntt, w1);
    let f2 = converted(ctx, Representation::PowerBasis, Representation::Ntt, w2);
    let left = converted(ctx, Representation::PowerBasis, Representation::Ntt, sum);
    let right = rows_combine(op, f1, f2, m);
    assert forall|i: int| 0 <= i < m.len() implies #[trigger] left[i] == right[i] && sum[i].len()
        == n && reduced(sum[i], m[i]) by {
        let o = ctx.ops()[i];
        let p = m[i];
        assert(o.wf() && o.modulus() == p && o.size() == n && !o.accelerated());
        assert(w1[i].len() == n && reduced(w1[i], p));
        assert(w2[i].len() == n && reduced(w2[i], p));
        assert(2 <= p);
        assert forall|j: int| 0 <= j < n implies #[trigger] sum[i][j] < p by {
            lemma_mod_bound(op_value(op, w1[i][j] as int, w2[i][j] as int), p as int);
        }
        lemma_transform_sizes(o, w1[i]);
        lemma_transform_sizes(o, w2[i]);
        if op == Operation::Add {
            assert(sum[i] =~= pointwise_sum(w1[i], w2[i], p));
            o.lemma_forward_of_sum(w1[i], w2[i]);
            assert(right[i] =~= pointwise_sum(o.forward_spec(w1[i]), o.forward_spec(w2[i]), p));
        } else {
            assert(sum[i] =~= pointwise_difference(w1[i], w2[i], p));
            o.lemma_forward_of_difference(w1[i], w2[i]);
            assert(right[i] =~= pointwise_difference(
                o.forward_spec(w1[i]),
                o.forward_spec(w2[i]),
                p,
            ));
        }
    }
    assert(left =~= right);
    assert(rows_in(sum, m, n)) by {
        assert forall|i: int| 0 <= i < sum.len() implies (#[trigger] sum[i]).len() == n && reduced(
            sum[i],
            m[i],
        ) by {
            let row = left[i];
        }
    }
}

/// The sums, or the differences, of the values modulo `t`, value by value.
pub open spec fn combined_values(op: Operation, v1: Seq<u64>, v2: Seq<u64>, t: int) -> Seq<u64> {
    Seq::new(v1.len(), |j: int| (op_value(op, v1[j] as int, v2[j] as int) % t) as u64)
}

/// The errors of a sum, or of a difference: the sums, or the differences,
/// of the errors, with the gap of the scaling constant where the sum, or
/// the difference, of the values wraps around.
pub open spec fn combined_errors(
    op: Operation,
    v1: Seq<u64>,
    e1: Seq<int>,
    v2: Seq<u64>,
    e2: Seq<int>,
    t: int,
    gap: int,
) -> Seq<int> {
    Seq::new(
        e1.len(),
        |j: int| op_value(op, e1[j], e2[j]) + (op_value(op, v1[j] as int, v2[j] as int) / t) * gap,
    )
}

/// Whether the polynomials of `ct3` are the sums, or the differences, of
/// those of `ct1` and `ct2`, which hold as many.
pub open spec fn combines(op: Operation, ct1: &Ciphertext, ct2: &Ciphertext, ct3: &Ciphertext) -> bool {
    &&& ct3.par() == ct1.par()
    &&& !ct3.minimized()
    &&& ct3.polys().len() == ct1.polys().len()
    &&& ct2.polys().len() == ct1.polys().len()
    &&& forall|i: int|
        0 <= i < ct1.polys().len() ==> (#[trigger] ct3.polys()[i]).rows() == rows_combine(
            op,
            ct1.polys()[i].rows(),
            ct2.polys()[i].rows(),
            ct1.par().spec_moduli(),
        )
}

/// The sum, or the difference, of two ciphertexts that carry values carries
/// the sums, or the differences, of the values modulo the plaintext
/// modulus, with errors that add up and may grow by the plaintext modulus.
pub proof fn lemma_combination_carries(
    op: Operation,
    sk: &SecretKey,
    ct1: &Ciphertext,
    ct2: &Ciphertext,
    ct3: &Ciphertext,
    w1: Seq<Seq<u64>>,
    v1: Seq<u64>,
    e1: Seq<int>,
    b1: int,
    w2: Seq<Seq<u64>>,
    v2: Seq<u64>,
    e2: Seq<int>,
    b2: int,
)
    requires
        op != Operation::Mul,
        sk.wf(),
        ct1.wf(),
        ct2.wf(),
        ct3.wf(),
        uses_reference_tables(sk.par().ctx()),
        carries(sk, ct1, w1),
        carries(sk, ct2, w2),
        holds(
            w1,
            sk.par().spec_moduli(),
            sk.par().spec_degree(),
            sk.par().spec_plaintext() as int,
            scaling(sk),
            v1,
            e1,
            b1,
        ),
        holds(
            w2,
            sk.par().spec_moduli(),
            sk.par().spec_degree(),
            sk.par().spec_plaintext() as int,
            scaling(sk),
            v2,
            e2,
            b2,
        ),
        combines(op, ct1, ct2, ct3),
    ensures
        carries(sk, ct3, rows_combine(op, w1, w2, sk.par().spec_moduli())),
        holds(
            rows_combine(op, w1, w2, sk.par().spec_moduli()),
            sk.par().spec_moduli(),
            sk.par().spec_degree(),
            sk.par().spec_plaintext() as int,
            scaling(sk),
            combined_values(op, v1, v2, sk.par().spec_plaintext() as int),
            combined_errors(
                op,
                v1,
                e1,
                v2,
                e2,
                sk.par().spec_plaintext() as int,
                sk.par().spec_plaintext() * scaling(sk) - sk.par().big_q(),
            ),
            b1 + b2 + sk.par().spec_plaintext(),
        ),
{
    let par = sk.par();
    let ctx = par.ctx();
    let m = par.spec_moduli();
    let n = par.spec_degree();
    let t = par.spec_plaintext() as int;
    let big = par.big_q() as int;
    let delta = scaling(sk);
    let gap = t * delta - big;
    let s = sk.s().rows();
    let len = ct1.polys().len();
    assert(ctx.moduli() == m && ctx.degree() == n);
    assert forall|i: int| 0 <= i < m.len() implies #[trigger] m[i] > 0 by {
        assert(2 <= m[i]);
    }
    assert(shaped(s, m.len(), n));
    assert forall|i: int| 0 <= i < len implies shaped((#[trigger] ct1.polys()[i]).rows(), m.len(), n) by {
        assert(ct1.polys()[i].wf());
        assert(ct1.ctx() == ctx);
    }
    assert forall|i: int| 0 <= i < len implies shaped((#[trigger] ct2.polys()[i]).rows(), m.len(), n) by {
        assert(ct2.polys()[i].wf());
        assert(ct2.ctx() == ctx);
    }
    lemma_phase_combines(op, ct1.polys(), ct2.polys(), ct3.polys(), s, m, n, len);
    lemma_transform_combines(op, ctx, w1, w2);
    let w3 = rows_combine(op, w1, w2, m);
    let v3 = combined_values(op, v1, v2, t);
    let e3 = combined_errors(op, v1, e1, v2, e2, t, gap);
    lemma_scaling_gap(par.big_q(), t as nat);
    assert(2 <= t);
    assert forall|j: int| 0 <= j < n implies (#[trigger] v3[j]) < t by {
        lemma_mod_bound(op_value(op, v1[j] as int, v2[j] as int), t);
    }
    assert forall|j: int| 0 <= j < n implies -(b1 + b2 + t) <= #[trigger] e3[j] <= b1 + b2 + t by {
        let total = op_value(op, v1[j] as int, v2[j] as int);
        let c = total / t;
        lemma_div_bounds(total, t);
        assert(-1 <= c <= 1) by (nonlinear_arith)
            requires
                c * t <= total < c * t + t,
                -t < total < 2 * t,
                t >= 2,
        ;
        assert(-t <= c * gap <= t) by (nonlinear_arith)
            requires
                -1 <= c <= 1,
                -t < gap <= t,
        ;
    }
    assert forall|i: int, j: int| 0 <= i < m.len() && 0 <= j < n implies (#[trigger] w3[i][j])
        as int == (e3[j] + v3[j] * delta) % (m[i] as int) by {
        let q = m[i] as int;
        let x1 = e1[j] + v1[j] * delta;
        let x2 = e2[j] + v2[j] * delta;
        let total = op_value(op, v1[j] as int, v2[j] as int);
        let c = total / t;
        assert(w1[i].len() == n && w2[i].len() == n);
        assert(w1[i][j] as int == x1 % q);
        assert(w2[i][j] as int == x2 % q);
        lemma_mod_bound(op_value(op, w1[i][j] as int, w2[i][j] as int), q);
        lemma_residue_of_combination(op, x1, x2, q);
        // x1 op x2 == e3 + v3 * delta + c * big, and big is a multiple of q
        lemma_fundamental_div_mod(total, t);
        lemma_mod_bound(total, t);
        assert(op_value(op, x1, x2) == e3[j] + v3[j] * delta + c * big) by (nonlinear_arith)
            requires
                x1 == e1[j] + v1[j] * delta,
                x2 == e2[j] + v2[j] * delta,
                e3[j] == op_value(op, e1[j], e2[j]) + c * gap,
                gap == t * delta - big,
                total == op_value(op, v1[j] as int, v2[j] as int),
                total == t * c + v3[j],
                op != Operation::Mul,
        ;
        assert forall|l: int| 0 <= l < m.len() implies #[trigger] m[l] >= 1 by {}
        crate::rns::lemma_factor_divides(m, i);
        lemma_fundamental_div_mod(big, q);
        assert(c * big == q * (c * (big / q))) by (nonlinear_arith)
            requires
                big == q * (big / q),
        ;
        lemma_mod_multiples_vanish(c * (big / q), e3[j] + v3[j] * delta, q);
    }
}

/// The sum, or the difference, of two fresh ciphertexts decrypts to the
/// sums, or the differences, of the values of the two plaintexts modulo the
/// plaintext modulus.
///
/// This holds for a key and plaintexts of the same parameters, in a context
/// that uses the reference tables of the transform, where the ciphertext
/// modulus leaves room for the two errors and the plaintext modulus.
pub proof fn lemma_combination_round_trip(
    op: Operation,
    sk: &SecretKey,
    pt1: &Plaintext,
    pt2: &Plaintext,
    ct1: &Ciphertext,
    ct2: &Ciphertext,
    ct3: &Ciphertext,
    seed1: Seed,
    error_seed1: Seed,
    seed2: Seed,
    error_seed2: Seed,
)
    requires
        op != Operation::Mul,
        sk.wf(),
        pt1.wf(),
        pt2.wf(),
        pt1.par() == sk.par(),
        pt2.par() == sk.par(),
        uses_reference_tables(sk.par().ctx()),
        has_room(sk, 4 * sk.par().spec_variance() + sk.par().spec_plaintext()),
        sk.is_encryption(ct1, pt1, seed1, error_seed1),
        sk.is_encryption(ct2, pt2, seed2, error_seed2),
        ct3.wf(),
        combines(op, ct1, ct2, ct3),
    ensures
        sk.decrypted(ct3) == combined_values(
            op,
            pt1.values(),
            pt2.values(),
            sk.par().spec_plaintext() as int,
        ),
{
    let n = sk.par().spec_degree();
    let variance = sk.par().spec_variance();
    let t = sk.par().spec_plaintext() as int;
    let b = 2 * variance as int;
    let w1 = fresh_rows(sk, pt1, error_seed1);
    let w2 = fresh_rows(sk, pt2, error_seed2);
    let e1 = small_coefficients(error_seed1@, variance, n);
    let e2 = small_coefficients(error_seed2@, variance, n);
    lemma_fresh_carries(sk, pt1, ct1, seed1, error_seed1);
    lemma_fresh_carries(sk, pt2, ct2, seed2, error_seed2);
    lemma_combination_carries(op, sk, ct1, ct2, ct3, w1, pt1.values(), e1, b, w2, pt2.values(), e2, b);
    lemma_decryption(
        sk,
        ct3,
        rows_combine(op, w1, w2, sk.par().spec_moduli()),
        combined_values(op, pt1.values(), pt2.values(), t),
        combined_errors(
            op,
            pt1.values(),
            e1,
            pt2.values(),
            e2,
            t,
            t * scaling(sk) - sk.par().big_q(),
        ),
        b + b + t,
    );
}

/// The sum `c[0] + c[1] * s + ...` of the opposite of a ciphertext is the
/// opposite of the sum of the ciphertext.
pub proof fn lemma_phase_negates(
    first: Seq<Poly>,
    third: Seq<Poly>,
    s: Seq<Seq<u64>>,
    m: Seq<u64>,
    n: nat,
    upto: nat,
)
    requires
        1 <= upto <= first.len(),
        third.len() == first.len(),
        shaped(s, m.len(), n),
        forall|i: int| 0 <= i < m.len() ==> #[trigger] m[i] > 0,
        forall|i: int| 0 <= i < first.len() ==> shaped((#[trigger] first[i]).rows(), m.len(), n),
        forall|i: int| 0 <= i < first.len() ==> (#[trigger] third[i]).rows() == rows_neg(first[i].rows(), m),
    ensures
        shaped(phase(first, s, m, upto), m.len(), n),
        shaped(key_power(s, m, upto), m.len(), n),
        phase(third, s, m, upto) == rows_neg(phase(first, s, m, upto), m),
    decreases upto,
{
    if upto >= 2 {
        let u = (upto - 1) as nat;
        lemma_phase_negates(first, third, s, m, n, u);
        let kp = key_power(s, m, u);
        let a1 = phase(first, s, m, u);
        let c = first[u as int].rows();
        assert(shaped(c, m.len(), n));
        let left = phase(third, s, m, upto);
        let right = rows_neg(phase(first, s, m, upto), m);
        assert(third[u as int].rows() == rows_neg(c, m));
        assert forall|i: int| 0 <= i < m.len() implies #[trigger] left[i] =~= right[i] by {
            let q = m[i] as int;
            assert(a1[i].len() == n && c[i].len() == n && kp[i].len() == n);
            assert forall|j: int| 0 <= j < n implies left[i][j] == right[i][j] by {
                let x1 = a1[i][j] as int;
                let cv = c[i][j] as int;
                let k = kp[i][j] as int;
                lemma_mod_bound(-x1, q);
                lemma_mod_bound(-cv, q);
                lemma_mod_bound(((-cv) % q) * k, q);
                lemma_mod_bound(cv * k, q);
                lemma_mod_bound(x1 + (cv * k) % q, q);
                lemma_mod_bound((-x1) % q + (((-cv) % q) * k) % q, q);
                lemma_mod_bound(-((x1 + (cv * k) % q) % q), q);
                // the left side is -x1 - cv * k modulo q
                lemma_mul_mod_noop_left(-cv, k, q);
                lemma_add_mod_noop(-x1, ((-cv) % q) * k, q);
                lemma_add_mod_noop(-x1, (-cv) * k, q);
                // and so is the right side
                lemma_add_mod_noop_right(x1, cv * k, q);
                lemma_sub_mod_noop_right(0, x1 + (cv * k) % q, q);
                lemma_sub_mod_noop_right(0, x1 + cv * k, q);
                assert(-x1 + (-cv) * k == 0 - (x1 + cv * k)) by (nonlinear_arith);
            }
        }
        assert(left =~= right);
    }
}

/// In a context that uses the reference tables, the transform of the
/// opposite of a polynomial is the opposite of its transform.
pub proof fn lemma_transform_negates(ctx: Context, w1: Seq<Seq<u64>>)
    requires
        ctx.wf(),
        uses_reference_tables(ctx),
        rows_in(w1, ctx.moduli(), ctx.degree()),
    ensures
        rows_in(rows_neg(w1, ctx.moduli()), ctx.moduli(), ctx.degree()),
        converted(
            ctx,
            Representation::PowerBasis,
            Representation::Ntt,
            rows_neg(w1, ctx.moduli()),
        ) == rows_neg(
            converted(ctx, Representation::PowerBasis, Representation::Ntt, w1),
            ctx.moduli(),
        ),
{
    let m = ctx.moduli();
    let n = ctx.degree();
    let neg = rows_neg(w1, m);
    let f1 = converted(ctx, Representation::PowerBasis, Representation::Ntt, w1);
    let left = converted(ctx, Representation::PowerBasis, Representation::Ntt, neg);
    let right = rows_neg(f1, m);
    assert forall|i: int| 0 <= i < m.len() implies #[trigger] left[i] == right[i] && neg[i].len()
        == n && reduced(neg[i], m[i]) by {
        let o = ctx.ops()[i];
        let p = m[i];
        assert(o.wf() && o.modulus() == p && o.size() == n && !o.accelerated());
        assert(w1[i].len() == n && reduced(w1[i], p));
        assert(2 <= p);
        assert forall|j: int| 0 <= j < n implies #[trigger] neg[i][j] < p by {
            lemma_mod_bound(-(w1[i][j] as int), p as int);
        }
        lemma_transform_sizes(o, w1[i]);
        assert(neg[i] =~= pointwise_negation(w1[i], p));
        o.lemma_forward_of_negation(w1[i]);
        assert(right[i] =~= pointwise_negation(o.forward_spec(w1[i]), p));
    }
    assert(left =~= right);
    assert(rows_in(neg, m, n)) by {
        assert forall|i: int| 0 <= i < neg.len() implies (#[trigger] neg[i]).len() == n && reduced(
            neg[i],
            m[i],
        ) by {
            let row = left[i];
        }
    }
}

/// The opposites of the values modulo `t`, value by value.
pub open spec fn negated_values(v1: Seq<u64>, t: int) -> Seq<u64> {
    Seq::new(v1.len(), |j: int| ((-(v1[j] as int)) % t) as u64)
}

/// The errors of an opposite: the opposites of the errors, with the gap of
/// the scaling constant where the opposite of the value wraps around.
pub open spec fn negated_errors(v1: Seq<u64>, e1: Seq<int>, t: int, gap: int) -> Seq<int> {
    Seq::new(e1.len(), |j: int| -e1[j] + ((-(v1[j] as int)) / t) * gap)
}

/// Whether the polynomials of `ct3` are the opposites of those of `ct1`.
pub open spec fn negates(ct1: &Ciphertext, ct3: &Ciphertext) -> bool {
    &&& ct3.par() == ct1.par()
    &&& !ct3.minimized()
    &&& ct3.polys().len() == ct1.polys().len()
    &&& forall|i: int|
        0 <= i < ct1.polys().len() ==> (#[trigger] ct3.polys()[i]).rows() == rows_neg(
            ct1.polys()[i].rows(),
            ct1.par().spec_moduli(),
        )
}

/// The opposite of a ciphertext that carries values carries the opposites
/// of the values modulo the plaintext modulus, with errors that may grow by
/// the plaintext modulus.
pub proof fn lemma_negation_carries(
    sk: &SecretKey,
    ct1: &Ciphertext,
    ct3: &Ciphertext,
    w1: Seq<Seq<u64>>,
    v1: Seq<u64>,
    e1: Seq<int>,
    b1: int,
)
    requires
        sk.wf(),
        ct1.wf(),
        ct3.wf(),
        uses_reference_tables(sk.par().ctx()),
        carries(sk, ct1, w1),
        holds(
            w1,
            sk.par().spec_moduli(),
            sk.par().spec_degree(),
            sk.par().spec_plaintext() as int,
            scaling(sk),
            v1,
            e1,
            b1,
        ),
        negates(ct1, ct3),
    ensures
        carries(sk, ct3, rows_neg(w1, sk.par().spec_moduli())),
        holds(
            rows_neg(w1, sk.par().spec_moduli()),
            sk.par().spec_moduli(),
            sk.par().spec_degree(),
            sk.par().spec_plaintext() as int,
            scaling(sk),
            negated_values(v1, sk.par().spec_plaintext() as int),
            negated_errors(
                v1,
                e1,
                sk.par().spec_plaintext() as int,
                sk.par().spec_plaintext() * scaling(sk) - sk.par().big_q(),
            ),
            b1 + sk.par().spec_plaintext(),
        ),
{
    let par = sk.par();
    let ctx = par.ctx();
    let m = par.spec_moduli();
    let n = par.spec_degree();
    let t = par.spec_plaintext() as int;
    let big = par.big_q() as int;
    let delta = scaling(sk);
    let gap = t * delta - big;
    let s = sk.s().rows();
    let len = ct1.polys().len();
    assert(ctx.moduli() == m && ctx.degree() == n);
    assert forall|i: int| 0 <= i < m.len() implies #[trigger] m[i] > 0 by {
        assert(2 <= m[i]);
    }
    assert(shaped(s, m.len(), n));
    assert forall|i: int| 0 <= i < len implies shaped((#[trigger] ct1.polys()[i]).rows(), m.len(), n) by {
        assert(ct1.polys()[i].wf());
        assert(ct1.ctx() == ctx);
    }
    lemma_phase_negates(ct1.polys(), ct3.polys(), s, m, n, len);
    lemma_transform_negates(ctx, w1);
    let w3 = rows_neg(w1, m);
    let v3 = negated_values(v1, t);
    let e3 = negated_errors(v1, e1, t, gap);
    lemma_scaling_gap(par.big_q(), t as nat);
    assert(2 <= t);
    assert forall|j: int| 0 <= j < n implies (#[trigger] v3[j]) < t by {
        lemma_mod_bound(-(v1[j] as int), t);
    }
    assert forall|j: int| 0 <= j < n implies -(b1 + t) <= #[trigger] e3[j] <= b1 + t by {
        let total = -(v1[j] as int);
        let c = total / t;
        lemma_div_bounds(total, t);
        assert(-1 <= c <= 0) by (nonlinear_arith)
            requires
                c * t <= total < c * t + t,
                -t < total <= 0,
                t >= 2,
        ;
        assert(-t <= c * gap <= t) by (nonlinear_arith)
            requires
                -1 <= c <= 0,
                -t < gap <= t,
        ;
    }
    assert forall|i: int, j: int| 0 <= i < m.len() && 0 <= j < n implies (#[trigger] w3[i][j])
        as int == (e3[j] + v3[j] * delta) % (m[i] as int) by {
        let q = m[i] as int;
        let x1 = e1[j] + v1[j] * delta;
        let total = -(v1[j] as int);
        let c = total / t;
        assert(w1[i].len() == n);
        assert(w1[i][j] as int == x1 % q);
        lemma_mod_bound(-(w1[i][j] as int), q);
        lemma_sub_mod_noop_right(0, x1, q);
        // -x1 == e3 + v3 * delta + c * big, and big is a multiple of q
        lemma_fundamental_div_mod(total, t);
        lemma_mod_bound(total, t);
        assert(0 - x1 == e3[j] + v3[j] * delta + c * big) by (nonlinear_arith)
            requires
                x1 == e1[j] + v1[j] * delta,
                e3[j] == -e1[j] + c * gap,
                gap == t * delta - big,
                total == -(v1[j] as int),
                total == t * c + v3[j],
        ;
        assert forall|l: int| 0 <= l < m.len() implies #[trigger] m[l] >= 1 by {}
        crate::rns::lemma_factor_divides(m, i);
        lemma_fundamental_div_mod(big, q);
        assert(c * big == q * (c * (big / q))) by (nonlinear_arith)
            requires
                big == q * (big / q),
        ;
        lemma_mod_multiples_vanish(c * (big / q), e3[j] + v3[j] * delta, q);
    }
}

/// The opposite of a fresh ciphertext decrypts to the opposites of the
/// values of the plaintext modulo the plaintext modulus.
///
/// This holds for a key and a plaintext of the same parameters, in a
/// context that uses the reference tables of the transform, where the
/// ciphertext modulus leaves room for the error and the plaintext modulus.
pub proof fn lemma_negation_round_trip(
    sk: &SecretKey,
    pt: &Plaintext,
    ct1: &Ciphertext,
    ct3: &Ciphertext,
    seed: Seed,
    error_seed: Seed,
)
    requires
        sk.wf(),
        pt.wf(),
        pt.par() == sk.par(),
        uses_reference_tables(sk.par().ctx()),
        has_room(sk, 2 * sk.par().spec_variance() + sk.par().spec_plaintext()),
        sk.is_encryption(ct1, pt, seed, error_seed),
        ct3.wf(),
        negates(ct1, ct3),
    ensures
        sk.decrypted(ct3) == negated_values(pt.values(), sk.par().spec_plaintext() as int),
{
    let n = sk.par().spec_degree();
    let variance = sk.par().spec_variance();
    let t = sk.par().spec_plaintext() as int;
    let b = 2 * variance as int;
    let w1 = fresh_rows(sk, pt, error_seed);
    let e1 = small_coefficients(error_seed@, variance, n);
    lemma_fresh_carries(sk, pt, ct1, seed, error_seed);
    lemma_negation_carries(sk, ct1, ct3, w1, pt.values(), e1, b);
    lemma_decryption(
        sk,
        ct3,
        rows_neg(w1, sk.par().spec_moduli()),
        negated_values(pt.values(), t),
        negated_errors(pt.values(), e1, t, t * scaling(sk) - sk.par().big_q()),
        b + t,
    );
}

} // verus!
