//! Key switching: why the pair that a key-switching key makes of a
//! polynomial stands, under the secret key, for the product of the
//! polynomial with the polynomial that the key was made for, up to a small
//! error.
use crate::correctness::{
    lemma_mask_cancels, lemma_small_sample, lemma_transform_combines, shaped, uses_reference_tables,
};
use crate::key_switching_key::{pair_rows, switched, KeySwitchingKey};
use crate::minimization::lemma_rows_back_and_forth;
use crate::ntt::{
    lemma_forward_of_zero, lemma_forward_sizes, lemma_negacyclic_product_reduced,
    negacyclic_product, negacyclic_shift,
};
use crate::parameters::BfvParameters;
use crate::products::{
    integer_product, lemma_integer_product_len, lemma_product_bound, lemma_product_residues,
    lemma_transform_of_product,
};
use crate::random::{chacha8_seeds, chacha8_words, Seed};
use crate::rq::{
    as_ints, converted, power_rows, rows_combine, rows_in, rows_product, rows_scale, rows_zero,
    small_coefficients, small_rows, Context, Operation, Representation,
};
use crate::secret_key::SecretKey;
use crate::zq::reduced;
use vstd::arithmetic::div_mod::*;
use vstd::prelude::*;

verus! {

/// In a context that uses the reference tables, the transform of rows in
/// the power basis has reduced rows of the same shape.
pub proof fn lemma_forward_rows(ctx: Context, rows: Seq<Seq<u64>>)
    requires
        ctx.wf(),
        uses_reference_tables(ctx),
        rows_in(rows, ctx.moduli(), ctx.degree()),
    ensures
        rows_in(
            converted(ctx, Representation::PowerBasis, Representation::Ntt, rows),
            ctx.moduli(),
            ctx.degree(),
        ),
{
    let m = ctx.moduli();
    let n = ctx.degree();
    let f = converted(ctx, Representation::PowerBasis, Representation::Ntt, rows);
    assert forall|i: int| 0 <= i < f.len() implies (#[trigger] f[i]).len() == n && reduced(
        f[i],
        m[i],
    ) by {
        let op = ctx.ops()[i];
        assert(op.wf() && op.modulus() == m[i] && op.size() == n && !op.accelerated());
        assert(rows[i].len() == n && reduced(rows[i], m[i]));
        lemma_forward_sizes(op, rows[i]);
    }
}

/// Rows combined modulo the moduli are reduced rows of the same shape.
pub proof fn lemma_combined_rows(op: Operation, a: Seq<Seq<u64>>, b: Seq<Seq<u64>>, m: Seq<u64>, n: nat)
    requires
        shaped(a, m.len(), n),
        forall|i: int| 0 <= i < m.len() ==> #[trigger] m[i] > 0,
    ensures
        rows_in(rows_combine(op, a, b, m), m, n),
{
    let c = rows_combine(op, a, b, m);
    assert forall|i: int| 0 <= i < c.len() implies (#[trigger] c[i]).len() == n && reduced(
        c[i],
        m[i],
    ) by {
        assert(a[i].len() == n);
        assert forall|j: int| 0 <= j < n implies #[trigger] c[i][j] < m[i] by {
            lemma_mod_bound(crate::rq::op_value(op, a[i][j] as int, b[i][j] as int), m[i] as int);
        }
    }
}

/// One more term of a key switch: where `x0 + x1 * s` is `fn + fp` and
/// `k0 + k1 * s` is `ea + ga`, the sum `(x0 + f * k0) + (x1 + f * k1) * s`
/// is `(fn + f * ea) + (fp + f * ga)`, all modulo `q` and with every
/// product and sum reduced on the way.
pub proof fn lemma_switch_step(
    x0: int,
    x1: int,
    f: int,
    k0: int,
    k1: int,
    s: int,
    ea: int,
    ga: int,
    noise: int,
    signal: int,
    q: int,
)
    requires
        q > 0,
        (k0 + (k1 * s) % q) % q == (ea + ga) % q,
        (x0 + (x1 * s) % q) % q == (noise + signal) % q,
    ensures
        ((x0 + (f * k0) % q) % q + (((x1 + (f * k1) % q) % q) * s) % q) % q == ((noise + (f * ea)
            % q) % q + (signal + (f * ga) % q) % q) % q,
{
    let a = x0 + f * k0;
    let b = (x1 + f * k1) * s;
    // the left side is a + b modulo q
    lemma_add_mod_noop_right(x0, f * k0, q);
    lemma_add_mod_noop_right(x1, f * k1, q);
    lemma_mul_mod_noop_left(x1 + f * k1, s, q);
    lemma_add_mod_noop(a, b, q);
    // the right side is c + d modulo q
    let c = noise + f * ea;
    let d = signal + f * ga;
    lemma_add_mod_noop_right(noise, f * ea, q);
    lemma_add_mod_noop_right(signal, f * ga, q);
    lemma_add_mod_noop(c, d, q);
    // both are (x0 + x1 * s) + f * (k0 + k1 * s)
    let x = x0 + x1 * s;
    let k = k0 + k1 * s;
    lemma_add_mod_noop_right(x0, x1 * s, q);
    lemma_add_mod_noop_right(k0, k1 * s, q);
    assert(a + b == x + f * k) by (nonlinear_arith)
        requires
            a == x0 + f * k0,
            b == (x1 + f * k1) * s,
            x == x0 + x1 * s,
            k == k0 + k1 * s,
    ;
    assert(c + d == (noise + signal) + f * (ea + ga)) by (nonlinear_arith)
        requires
            c == noise + f * ea,
            d == signal + f * ga,
    ;
    lemma_mul_mod_noop_right(f, k, q);
    lemma_mul_mod_noop_right(f, ea + ga, q);
    lemma_add_mod_noop(x, f * k, q);
    lemma_add_mod_noop(noise + signal, f * (ea + ga), q);
}

/// The error of the pair of index `i` of a key-switching key, in the power
/// basis.
pub open spec fn pair_error(par: BfvParameters, error_seed: Seq<u8>, i: int) -> Seq<Seq<u64>> {
    small_rows(
        par.ctx(),
        Representation::PowerBasis,
        par.spec_variance(),
        chacha8_seeds(error_seed, par.spec_moduli().len())[i],
    )
}

/// What the pair of index `i` of a key-switching key carries, in the power
/// basis: the polynomial that the key was made for, times the Garner
/// coefficient of the modulus of that index.
pub open spec fn pair_signal(par: BfvParameters, from: Seq<Seq<u64>>, i: int) -> Seq<Seq<u64>> {
    rows_scale(from, par.ctx().rns().garner_values()[i] as int, par.spec_moduli())
}

/// Under the secret key, the pair of index `i` of a key-switching key
/// stands for its error plus what it carries: `c0 + c1 * s` is the
/// transform of the one plus the transform of the other.
pub proof fn lemma_pair_sum(
    sk: &SecretKey,
    ksk: &KeySwitchingKey,
    from: Seq<Seq<u64>>,
    seed: Seed,
    error_seed: Seed,
    i: int,
)
    requires
        sk.wf(),
        ksk.made_with(sk, from, seed, error_seed),
        uses_reference_tables(sk.par().ctx()),
        rows_in(from, sk.par().spec_moduli(), sk.par().spec_degree()),
        0 <= i < sk.par().spec_moduli().len(),
    ensures
        rows_in(pair_error(sk.par(), error_seed@, i), sk.par().spec_moduli(), sk.par().spec_degree()),
        rows_in(pair_signal(sk.par(), from, i), sk.par().spec_moduli(), sk.par().spec_degree()),
        rows_combine(
            Operation::Add,
            ksk.c0()[i].rows(),
            rows_combine(
                Operation::Mul,
                ksk.c1()[i].rows(),
                sk.s().rows(),
                sk.par().spec_moduli(),
            ),
            sk.par().spec_moduli(),
        ) == rows_combine(
            Operation::Add,
            converted(
                sk.par().ctx(),
                Representation::PowerBasis,
                Representation::Ntt,
                pair_error(sk.par(), error_seed@, i),
            ),
            converted(
                sk.par().ctx(),
                Representation::PowerBasis,
                Representation::Ntt,
                pair_signal(sk.par(), from, i),
            ),
            sk.par().spec_moduli(),
        ),
{
    let par = sk.par();
    let ctx = par.ctx();
    let m = par.spec_moduli();
    let n = par.spec_degree();
    let s = sk.s().rows();
    assert(ctx.moduli() == m && ctx.degree() == n);
    assert forall|l: int| 0 <= l < m.len() implies #[trigger] m[l] > 0 by {
        assert(2 <= m[l]);
    }
    let e = pair_error(par, error_seed@, i);
    let g = pair_signal(par, from, i);
    let a = ksk.c1()[i].rows();
    assert(ksk.c1()[i].wf() && ksk.c0()[i].wf());
    assert(rows_in(a, m, n));
    let coefficients = small_coefficients(
        chacha8_seeds(error_seed@, m.len())[i],
        par.spec_variance(),
        n,
    );
    assert(e == power_rows(coefficients, m, n));
    assert(rows_in(e, m, n)) by {
        assert forall|l: int| 0 <= l < e.len() implies (#[trigger] e[l]).len() == n && reduced(
            e[l],
            m[l],
        ) by {
            assert forall|j: int| 0 <= j < n implies #[trigger] e[l][j] < m[l] by {
                lemma_mod_bound(coefficients[j], m[l] as int);
            }
        }
    }
    assert(rows_in(g, m, n)) by {
        let c = par.ctx().rns().garner_values()[i] as int;
        assert forall|l: int| 0 <= l < g.len() implies (#[trigger] g[l]).len() == n && reduced(
            g[l],
            m[l],
        ) by {
            assert(from[l].len() == n);
            assert forall|j: int| 0 <= j < n implies #[trigger] g[l][j] < m[l] by {
                lemma_mod_bound(from[l][j] * (c % (m[l] as int)), m[l] as int);
            }
        }
    }
    // the mask times the key, and back in the power basis
    let mask = rows_combine(Operation::Mul, a, s, m);
    lemma_combined_rows(Operation::Mul, a, s, m, n);
    lemma_rows_back_and_forth(ctx, mask);
    let back = converted(ctx, Representation::Ntt, Representation::PowerBasis, mask);
    lemma_transform_combines(Operation::Sub, ctx, e, back);
    let rest = rows_combine(Operation::Sub, e, back, m);
    lemma_transform_combines(Operation::Add, ctx, rest, g);
    let pair = pair_rows(par, s, from, seed@, error_seed@, i);
    assert(pair == rows_combine(Operation::Add, rest, g, m));
    let c0 = ksk.c0()[i].rows();
    assert(c0 =~= converted(ctx, Representation::PowerBasis, Representation::Ntt, pair));
    let fe = converted(ctx, Representation::PowerBasis, Representation::Ntt, e);
    let fg = converted(ctx, Representation::PowerBasis, Representation::Ntt, g);
    lemma_forward_rows(ctx, e);
    lemma_forward_rows(ctx, g);
    lemma_mask_cancels(fe, mask, fg, m, n);
}

/// The rows that stand for the residues of `p` modulo the modulus of index
/// `i`, taken as numbers.
pub open spec fn digit_rows(par: BfvParameters, p: Seq<Seq<u64>>, i: int) -> Seq<Seq<u64>> {
    power_rows(as_ints(p[i]), par.spec_moduli(), par.spec_degree())
}

/// The error that a key switch of `p` adds, in the power basis: the sum,
/// over the first `upto` moduli, of the products of the residues of `p`
/// modulo each of them with the error of the pair of that index.
pub open spec fn switching_noise(
    par: BfvParameters,
    p: Seq<Seq<u64>>,
    error_seed: Seq<u8>,
    upto: nat,
) -> Seq<Seq<u64>>
    decreases upto,
{
    if upto == 0 {
        rows_zero(par.spec_moduli().len(), par.spec_degree())
    } else {
        rows_combine(
            Operation::Add,
            switching_noise(par, p, error_seed, (upto - 1) as nat),
            rows_product(
                digit_rows(par, p, upto - 1),
                pair_error(par, error_seed, upto - 1),
                par.spec_moduli(),
            ),
            par.spec_moduli(),
        )
    }
}

/// What a key switch of `p` carries, in the power basis: the sum, over the
/// first `upto` moduli, of the products of the residues of `p` modulo each
/// of them with what the pair of that index carries.
pub open spec fn switching_signal(
    par: BfvParameters,
    p: Seq<Seq<u64>>,
    from: Seq<Seq<u64>>,
    upto: nat,
) -> Seq<Seq<u64>>
    decreases upto,
{
    if upto == 0 {
        rows_zero(par.spec_moduli().len(), par.spec_degree())
    } else {
        rows_combine(
            Operation::Add,
            switching_signal(par, p, from, (upto - 1) as nat),
            rows_product(
                digit_rows(par, p, upto - 1),
                pair_signal(par, from, upto - 1),
                par.spec_moduli(),
            ),
            par.spec_moduli(),
        )
    }
}

/// The rows of the residues of `p` modulo one modulus are reduced rows.
pub proof fn lemma_digit_rows(par: BfvParameters, p: Seq<Seq<u64>>, i: int)
    requires
        par.wf(),
        rows_in(p, par.spec_moduli(), par.spec_degree()),
        0 <= i < par.spec_moduli().len(),
    ensures
        rows_in(digit_rows(par, p, i), par.spec_moduli(), par.spec_degree()),
{
    let m = par.spec_moduli();
    let n = par.spec_degree();
    let d = digit_rows(par, p, i);
    assert(par.ctx().moduli() == m);
    assert forall|l: int| 0 <= l < d.len() implies (#[trigger] d[l]).len() == n && reduced(
        d[l],
        m[l],
    ) by {
        assert(2 <= m[l]);
        assert forall|j: int| 0 <= j < n implies #[trigger] d[l][j] < m[l] by {
            lemma_mod_bound(as_ints(p[i])[j], m[l] as int);
        }
    }
}

/// Under the secret key, the pair that the first `upto` pairs of a
/// key-switching key make of `p` stands for the error of the key switch
/// plus what it carries: `d0 + d1 * s` is the transform of the one plus the
/// transform of the other.
pub proof fn lemma_switched_sum(
    sk: &SecretKey,
    ksk: &KeySwitchingKey,
    from: Seq<Seq<u64>>,
    p: Seq<Seq<u64>>,
    seed: Seed,
    error_seed: Seed,
    upto: nat,
)
    requires
        sk.wf(),
        ksk.made_with(sk, from, seed, error_seed),
        uses_reference_tables(sk.par().ctx()),
        rows_in(from, sk.par().spec_moduli(), sk.par().spec_degree()),
        rows_in(p, sk.par().spec_moduli(), sk.par().spec_degree()),
        upto <= sk.par().spec_moduli().len(),
    ensures
        rows_in(
            switching_noise(sk.par(), p, error_seed@, upto),
            sk.par().spec_moduli(),
            sk.par().spec_degree(),
        ),
        rows_in(
            switching_signal(sk.par(), p, from, upto),
            sk.par().spec_moduli(),
            sk.par().spec_degree(),
        ),
        rows_in(
            switched(ksk.c0(), p, sk.par(), upto),
            sk.par().spec_moduli(),
            sk.par().spec_degree(),
        ),
        rows_in(
            switched(ksk.c1(), p, sk.par(), upto),
            sk.par().spec_moduli(),
            sk.par().spec_degree(),
        ),
        rows_combine(
            Operation::Add,
            switched(ksk.c0(), p, sk.par(), upto),
            rows_combine(
                Operation::Mul,
                switched(ksk.c1(), p, sk.par(), upto),
                sk.s().rows(),
                sk.par().spec_moduli(),
            ),
            sk.par().spec_moduli(),
        ) == rows_combine(
            Operation::Add,
            converted(
                sk.par().ctx(),
                Representation::PowerBasis,
                Representation::Ntt,
                switching_noise(sk.par(), p, error_seed@, upto),
            ),
            converted(
                sk.par().ctx(),
                Representation::PowerBasis,
                Representation::Ntt,
                switching_signal(sk.par(), p, from, upto),
            ),
            sk.par().spec_moduli(),
        ),
    decreases upto,
{
    let par = sk.par();
    let ctx = par.ctx();
    let m = par.spec_moduli();
    let n = par.spec_degree();
    let s = sk.s().rows();
    assert(ctx.moduli() == m && ctx.degree() == n);
    assert(ksk.par() == par);
    assert forall|l: int| 0 <= l < m.len() implies #[trigger] m[l] > 0 by {
        assert(2 <= m[l]);
    }
    let sw0 = switched(ksk.c0(), p, par, upto);
    let sw1 = switched(ksk.c1(), p, par, upto);
    let noise = switching_noise(par, p, error_seed@, upto);
    let signal = switching_signal(par, p, from, upto);
    let f_noise = converted(ctx, Representation::PowerBasis, Representation::Ntt, noise);
    let f_signal = converted(ctx, Representation::PowerBasis, Representation::Ntt, signal);
    let left = rows_combine(Operation::Add, sw0, rows_combine(Operation::Mul, sw1, s, m), m);
    let right = rows_combine(Operation::Add, f_noise, f_signal, m);
    if upto == 0 {
        let zero = rows_zero(m.len(), n);
        assert(rows_in(zero, m, n));
        assert forall|l: int| 0 <= l < m.len() implies #[trigger] f_noise[l] == zero[l] by {
            let op = ctx.ops()[l];
            assert(op.wf() && op.modulus() == m[l] && op.size() == n && !op.accelerated());
            lemma_forward_of_zero(op);
            assert(zero[l] =~= Seq::new(op.size(), |i: int| 0u64));
        }
        assert(f_noise =~= zero);
        assert forall|l: int| 0 <= l < m.len() implies #[trigger] left[l] =~= right[l] by {
            assert forall|j: int| 0 <= j < n implies left[l][j] == right[l][j] by {
                assert(0 * s[l][j] == 0);
                lemma_small_mod(0, m[l] as nat);
            }
        }
        assert(left =~= right);
    } else {
        let u = (upto - 1) as nat;
        lemma_switched_sum(sk, ksk, from, p, seed, error_seed, u);
        lemma_pair_sum(sk, ksk, from, seed, error_seed, u as int);
        lemma_digit_rows(par, p, u as int);
        let digit = digit_rows(par, p, u as int);
        let fd = converted(ctx, Representation::PowerBasis, Representation::Ntt, digit);
        lemma_forward_rows(ctx, digit);
        let e = pair_error(par, error_seed@, u as int);
        let g = pair_signal(par, from, u as int);
        let fe = converted(ctx, Representation::PowerBasis, Representation::Ntt, e);
        let fg = converted(ctx, Representation::PowerBasis, Representation::Ntt, g);
        lemma_forward_rows(ctx, e);
        lemma_forward_rows(ctx, g);
        let k0 = ksk.c0()[u as int].rows();
        let k1 = ksk.c1()[u as int].rows();
        assert(ksk.c0()[u as int].wf() && ksk.c1()[u as int].wf());
        let x0 = switched(ksk.c0(), p, par, u);
        let x1 = switched(ksk.c1(), p, par, u);
        let noise_before = switching_noise(par, p, error_seed@, u);
        let signal_before = switching_signal(par, p, from, u);
        let fn_before = converted(
            ctx,
            Representation::PowerBasis,
            Representation::Ntt,
            noise_before,
        );
        let fs_before = converted(
            ctx,
            Representation::PowerBasis,
            Representation::Ntt,
            signal_before,
        );
        lemma_forward_rows(ctx, noise_before);
        lemma_forward_rows(ctx, signal_before);
        // the new terms, in both domains
        lemma_transform_of_product(ctx, digit, e);
        lemma_transform_of_product(ctx, digit, g);
        let pe = rows_product(digit, e, m);
        let pg = rows_product(digit, g, m);
        lemma_transform_combines(Operation::Add, ctx, noise_before, pe);
        lemma_transform_combines(Operation::Add, ctx, signal_before, pg);
        assert(f_noise == rows_combine(
            Operation::Add,
            fn_before,
            rows_combine(Operation::Mul, fd, fe, m),
            m,
        ));
        assert(f_signal == rows_combine(
            Operation::Add,
            fs_before,
            rows_combine(Operation::Mul, fd, fg, m),
            m,
        ));
        assert(sw0 == rows_combine(Operation::Add, x0, rows_combine(Operation::Mul, fd, k0, m), m));
        assert(sw1 == rows_combine(Operation::Add, x1, rows_combine(Operation::Mul, fd, k1, m), m));
        lemma_combined_rows(Operation::Add, x0, rows_combine(Operation::Mul, fd, k0, m), m, n);
        lemma_combined_rows(Operation::Add, x1, rows_combine(Operation::Mul, fd, k1, m), m, n);
        let left_before = rows_combine(
            Operation::Add,
            x0,
            rows_combine(Operation::Mul, x1, s, m),
            m,
        );
        let right_before = rows_combine(Operation::Add, fn_before, fs_before, m);
        assert(left_before == right_before);
        let pair_left = rows_combine(Operation::Add, k0, rows_combine(Operation::Mul, k1, s, m), m);
        let pair_right = rows_combine(Operation::Add, fe, fg, m);
        assert(pair_left == pair_right);
        assert forall|l: int| 0 <= l < m.len() implies #[trigger] left[l] =~= right[l] by {
            let q = m[l] as int;
            assert(x0[l].len() == n && x1[l].len() == n && fd[l].len() == n && k0[l].len() == n
                && k1[l].len() == n && fe[l].len() == n && fg[l].len() == n && fn_before[l].len()
                == n && fs_before[l].len() == n && s[l].len() == n);
            assert forall|j: int| 0 <= j < n implies left[l][j] == right[l][j] by {
                assert(left_before[l][j] == right_before[l][j]);
                assert(pair_left[l][j] == pair_right[l][j]);
                lemma_mod_bound(x1[l][j] * s[l][j], q);
                lemma_mod_bound(k1[l][j] * s[l][j], q);
                lemma_mod_bound(x0[l][j] + (x1[l][j] * s[l][j]) % q, q);
                lemma_mod_bound(k0[l][j] + (k1[l][j] * s[l][j]) % q, q);
                lemma_mod_bound(fn_before[l][j] + fs_before[l][j], q);
                lemma_mod_bound(fe[l][j] + fg[l][j], q);
                lemma_switch_step(
                    x0[l][j] as int,
                    x1[l][j] as int,
                    fd[l][j] as int,
                    k0[l][j] as int,
                    k1[l][j] as int,
                    s[l][j] as int,
                    fe[l][j] as int,
                    fg[l][j] as int,
                    fn_before[l][j] as int,
                    fs_before[l][j] as int,
                    q,
                );
                lemma_mod_bound(fd[l][j] * k0[l][j], q);
                lemma_mod_bound(fd[l][j] * k1[l][j], q);
                lemma_mod_bound(fd[l][j] * fe[l][j], q);
                lemma_mod_bound(fd[l][j] * fg[l][j], q);
                lemma_mod_bound(x0[l][j] + (fd[l][j] * k0[l][j]) % q, q);
                lemma_mod_bound(x1[l][j] + (fd[l][j] * k1[l][j]) % q, q);
                lemma_mod_bound(fn_before[l][j] + (fd[l][j] * fe[l][j]) % q, q);
                lemma_mod_bound(fs_before[l][j] + (fd[l][j] * fg[l][j]) % q, q);
                lemma_mod_bound(sw1[l][j] * s[l][j], q);
            }
        }
        assert(left =~= right);
    }
}

/// The product of a polynomial with the zero polynomial is zero.
pub proof fn lemma_product_with_zero(a: Seq<u64>, n: nat, p: u64)
    requires
        p > 0,
    ensures
        negacyclic_product(a, Seq::new(n, |i: int| 0u64), p) == Seq::new(n, |i: int| 0u64),
    decreases a.len(),
{
    let zero = Seq::new(n, |i: int| 0u64);
    let c = negacyclic_product(a, zero, p);
    lemma_negacyclic_product_reduced(a, zero, p);
    if a.len() > 0 {
        lemma_product_with_zero(a.drop_first(), n, p);
        let d = negacyclic_shift(zero, p);
        assert forall|i: int| 0 <= i < n implies c[i] == 0 by {
            lemma_small_mod(0, p as nat);
            assert(a[0] * 0 == 0);
            assert(d[i] == 0);
        }
    }
    assert(c =~= zero);
}

/// What a key switch of `p` carries is the product of `p` with the
/// polynomial that the key was made for: modulo each modulus, only the
/// pair of that modulus contributes.
pub proof fn lemma_switching_signal(par: BfvParameters, p: Seq<Seq<u64>>, from: Seq<Seq<u64>>, upto: nat, l: int)
    requires
        par.wf(),
        rows_in(from, par.spec_moduli(), par.spec_degree()),
        rows_in(p, par.spec_moduli(), par.spec_degree()),
        upto <= par.spec_moduli().len(),
        0 <= l < par.spec_moduli().len(),
    ensures
        switching_signal(par, p, from, upto).len() == par.spec_moduli().len(),
        switching_signal(par, p, from, upto)[l] == (if l < upto {
            negacyclic_product(p[l], from[l], par.spec_moduli()[l])
        } else {
            Seq::new(par.spec_degree(), |i: int| 0u64)
        }),
    decreases upto,
{
    let m = par.spec_moduli();
    let n = par.spec_degree();
    let ctx = par.ctx();
    let q = m[l] as int;
    assert(ctx.moduli() == m && ctx.degree() == n);
    assert(ctx.rns().moduli() == m);
    assert(2 <= m[l]);
    let zero = Seq::new(n, |i: int| 0u64);
    if upto > 0 {
        let u = (upto - 1) as int;
        lemma_switching_signal(par, p, from, u as nat, l);
        let before = switching_signal(par, p, from, u as nat);
        let digit = digit_rows(par, p, u);
        let g = pair_signal(par, from, u);
        let term = rows_product(digit, g, m);
        let after = switching_signal(par, p, from, upto);
        assert(after == rows_combine(Operation::Add, before, term, m));
        assert(term[l] == negacyclic_product(digit[l], g[l], m[l]));
        ctx.rns().lemma_garner_residue(l, u);
        let c = ctx.rns().garner_values()[u] as int;
        assert(from[l].len() == n && p[l].len() == n && p[u].len() == n);
        lemma_negacyclic_product_reduced(p[l], from[l], m[l]);
        if u == l {
            assert(g[l] =~= from[l]) by {
                assert forall|j: int| 0 <= j < n implies g[l][j] == from[l][j] by {
                    assert(from[l][j] * 1 == from[l][j]);
                    lemma_small_mod(from[l][j] as nat, q as nat);
                }
            }
            assert(digit[l] =~= p[l]) by {
                assert forall|j: int| 0 <= j < n implies digit[l][j] == p[l][j] by {
                    lemma_small_mod(p[l][j] as nat, q as nat);
                }
            }
            assert(before[l] == zero);
            let product = negacyclic_product(p[l], from[l], m[l]);
            assert(after[l] =~= product) by {
                assert forall|j: int| 0 <= j < n implies after[l][j] == product[j] by {
                    lemma_small_mod(product[j] as nat, q as nat);
                }
            }
        } else {
            assert(g[l] =~= zero) by {
                assert forall|j: int| 0 <= j < n implies g[l][j] == 0 by {
                    assert(from[l][j] * 0 == 0);
                    lemma_small_mod(0, q as nat);
                }
            }
            lemma_product_with_zero(digit[l], n, m[l]);
            assert(term[l] == zero);
            assert(after[l] =~= before[l]) by {
                assert(before[l].len() == n);
                assert forall|j: int| 0 <= j < n implies after[l][j] == before[l][j] by {
                    lemma_small_mod(before[l][j] as nat, q as nat);
                }
            }
        }
    }
}

/// Under the secret key, the pair that a key-switching key makes of `p`
/// stands for the product of `p` with the polynomial that the key was made
/// for, plus the error of the key switch: `d0 + d1 * s` is the transform of
/// the error plus the transform of the product.
pub proof fn lemma_key_switch(
    sk: &SecretKey,
    ksk: &KeySwitchingKey,
    from: Seq<Seq<u64>>,
    p: Seq<Seq<u64>>,
    seed: Seed,
    error_seed: Seed,
)
    requires
        sk.wf(),
        ksk.made_with(sk, from, seed, error_seed),
        uses_reference_tables(sk.par().ctx()),
        rows_in(from, sk.par().spec_moduli(), sk.par().spec_degree()),
        rows_in(p, sk.par().spec_moduli(), sk.par().spec_degree()),
    ensures
        rows_combine(
            Operation::Add,
            switched(ksk.c0(), p, sk.par(), sk.par().spec_moduli().len()),
            rows_combine(
                Operation::Mul,
                switched(ksk.c1(), p, sk.par(), sk.par().spec_moduli().len()),
                sk.s().rows(),
                sk.par().spec_moduli(),
            ),
            sk.par().spec_moduli(),
        ) == rows_combine(
            Operation::Add,
            converted(
                sk.par().ctx(),
                Representation::PowerBasis,
                Representation::Ntt,
                switching_noise(sk.par(), p, error_seed@, sk.par().spec_moduli().len()),
            ),
            converted(
                sk.par().ctx(),
                Representation::PowerBasis,
                Representation::Ntt,
                rows_product(p, from, sk.par().spec_moduli()),
            ),
            sk.par().spec_moduli(),
        ),
{
    let par = sk.par();
    let m = par.spec_moduli();
    let k = m.len();
    lemma_switched_sum(sk, ksk, from, p, seed, error_seed, k);
    let signal = switching_signal(par, p, from, k);
    let product = rows_product(p, from, m);
    assert forall|l: int| 0 <= l < k implies #[trigger] signal[l] == product[l] by {
        lemma_switching_signal(par, p, from, k, l);
    }
    lemma_switching_signal(par, p, from, k, 0);
    assert(signal =~= product);
}

/// The numbers behind the error of a key switch of `p`: the sum, over the
/// first `upto` moduli, of the products over the integers of the residues
/// of `p` modulo each of them with the small coefficients of the error of
/// the pair of that index.
pub open spec fn noise_numbers(
    par: BfvParameters,
    p: Seq<Seq<u64>>,
    error_seed: Seq<u8>,
    upto: nat,
) -> Seq<int>
    decreases upto,
{
    if upto == 0 {
        Seq::new(par.spec_degree(), |j: int| 0int)
    } else {
        let before = noise_numbers(par, p, error_seed, (upto - 1) as nat);
        let term = integer_product(
            as_ints(p[upto - 1]),
            small_coefficients(
                chacha8_seeds(error_seed, par.spec_moduli().len())[upto - 1],
                par.spec_variance(),
                par.spec_degree(),
            ),
        );
        Seq::new(par.spec_degree(), |j: int| before[j] + term[j])
    }
}

/// The error of a key switch holds the residues of small numbers: each of
/// the first `upto` moduli adds at most `n * 2^62 * 2 * variance` to a
/// coefficient.
pub proof fn lemma_switching_noise(
    par: BfvParameters,
    p: Seq<Seq<u64>>,
    error_seed: Seq<u8>,
    upto: nat,
    l: int,
    j: int,
)
    requires
        par.wf(),
        rows_in(p, par.spec_moduli(), par.spec_degree()),
        upto <= par.spec_moduli().len(),
        0 <= l < par.spec_moduli().len(),
        0 <= j < par.spec_degree(),
    ensures
        noise_numbers(par, p, error_seed, upto).len() == par.spec_degree(),
        switching_noise(par, p, error_seed, upto).len() == par.spec_moduli().len(),
        switching_noise(par, p, error_seed, upto)[l].len() == par.spec_degree(),
        switching_noise(par, p, error_seed, upto)[l][j] as int == noise_numbers(
            par,
            p,
            error_seed,
            upto,
        )[j] % (par.spec_moduli()[l] as int),
        -(upto * (par.spec_degree() * 0x4000_0000_0000_0000 * (2 * par.spec_variance())))
            <= noise_numbers(par, p, error_seed, upto)[j] <= upto * (par.spec_degree()
            * 0x4000_0000_0000_0000 * (2 * par.spec_variance())),
    decreases upto,
{
    let m = par.spec_moduli();
    let n = par.spec_degree();
    let q = m[l] as int;
    let variance = par.spec_variance();
    let step = n * 0x4000_0000_0000_0000 * (2 * variance);
    assert(par.ctx().moduli() == m && par.ctx().degree() == n);
    assert(2 <= m[l]);
    if upto == 0 {
        lemma_small_mod(0, q as nat);
        assert(0 * step == 0);
    } else {
        let u = (upto - 1) as int;
        lemma_switching_noise(par, p, error_seed, u as nat, l, j);
        let before = switching_noise(par, p, error_seed, u as nat);
        let numbers_before = noise_numbers(par, p, error_seed, u as nat);
        let digit = digit_rows(par, p, u);
        let e = pair_error(par, error_seed, u);
        let x = as_ints(p[u]);
        let y = small_coefficients(chacha8_seeds(error_seed, m.len())[u], variance, n);
        let term = integer_product(x, y);
        assert(e == power_rows(y, m, n));
        assert(p[u].len() == n);
        assert forall|k: int| 0 <= k < x.len() implies (#[trigger] digit[l][k]) as int == x[k]
            % q by {
            lemma_mod_bound(x[k], q);
        }
        assert forall|k: int| 0 <= k < y.len() implies (#[trigger] e[l][k]) as int == y[k] % q by {
            lemma_mod_bound(y[k], q);
        }
        lemma_product_residues(x, y, digit[l], e[l], m[l]);
        let after = switching_noise(par, p, error_seed, upto);
        let product = rows_product(digit, e, m);
        assert(after == rows_combine(Operation::Add, before, product, m));
        assert(product[l] == negacyclic_product(digit[l], e[l], m[l]));
        lemma_mod_bound(before[l][j] + product[l][j], q);
        assert(after[l][j] as int == (before[l][j] + product[l][j]) % q);
        lemma_add_mod_noop(numbers_before[j], term[j], q);
        // the bound
        assert forall|k: int| 0 <= k < x.len() implies -0x4000_0000_0000_0000 <= #[trigger] x[k]
            <= 0x4000_0000_0000_0000 by {
            assert(2 <= m[u] < 0x4000_0000_0000_0000);
            assert(p[u][k] < m[u]);
        }
        assert forall|k: int| 0 <= k < y.len() implies -(2 * variance) <= #[trigger] y[k] <= 2
            * variance by {
            lemma_small_sample(chacha8_words(chacha8_seeds(error_seed, m.len())[u], n)[k], variance);
        }
        lemma_product_bound(x, y, 0x4000_0000_0000_0000, 2 * variance as int);
        lemma_integer_product_len(x, y);
        assert(x.len() * 0x4000_0000_0000_0000 * (2 * variance) == step);
        assert(upto * step == u * step + step) by (nonlinear_arith)
            requires
                upto == u + 1,
        ;
    }
}

} // verus!
