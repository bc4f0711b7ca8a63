//! The ring of the polynomials over the integers modulo `x^n + 1`: the
//! product of such polynomials is linear in both factors, commutes, and
//! associates.
use crate::products::{integer_product, lemma_integer_product_len, lemma_product_is_linear, shifted};
use vstd::prelude::*;

verus! {

/// The coefficients of `x^m * b` modulo `x^n + 1`.
pub open spec fn shifted_by(b: Seq<int>, m: nat) -> Seq<int>
    decreases m,
{
    if m == 0 {
        b
    } else {
        shifted(shifted_by(b, (m - 1) as nat))
    }
}

/// The coefficients of `x^m`, among `n` coefficients.
pub open spec fn unit(n: nat, m: int) -> Seq<int> {
    Seq::new(
        n,
        |j: int|
            if j == m {
                1int
            } else {
                0int
            },
    )
}

/// The coefficients of `a`, followed by zeros up to `n` coefficients.
pub open spec fn padded_to(a: Seq<int>, n: nat) -> Seq<int> {
    Seq::new(
        n,
        |j: int|
            if j < a.len() {
                a[j]
            } else {
                0int
            },
    )
}

/// `n` zeros.
pub open spec fn zeros(n: nat) -> Seq<int> {
    Seq::new(n, |j: int| 0int)
}

/// Multiplying by a power of `x` keeps the number of coefficients.
pub proof fn lemma_shifted_by_len(b: Seq<int>, m: nat)
    ensures
        shifted_by(b, m).len() == b.len(),
    decreases m,
{
    if m > 0 {
        lemma_shifted_by_len(b, (m - 1) as nat);
    }
}

/// The product is linear in its second factor.
pub proof fn lemma_product_is_linear_right(
    a: Seq<int>,
    b1: Seq<int>,
    b2: Seq<int>,
    c: int,
    s: Seq<int>,
)
    requires
        b2.len() == b1.len(),
        s.len() == b1.len(),
        forall|k: int| 0 <= k < b1.len() ==> #[trigger] s[k] == b1[k] + c * b2[k],
    ensures
        forall|j: int|
            0 <= j < b1.len() ==> #[trigger] integer_product(a, s)[j] == integer_product(a, b1)[j]
                + c * integer_product(a, b2)[j],
    decreases a.len(),
{
    let n = b1.len() as int;
    lemma_integer_product_len(a, s);
    lemma_integer_product_len(a, b1);
    lemma_integer_product_len(a, b2);
    if a.len() == 0 {
        assert forall|j: int| 0 <= j < n implies #[trigger] integer_product(a, s)[j]
            == integer_product(a, b1)[j] + c * integer_product(a, b2)[j] by {
            assert(c * 0 == 0);
        }
    } else {
        let rest = a.drop_first();
        let r = integer_product(rest, s);
        let r1 = integer_product(rest, b1);
        let r2 = integer_product(rest, b2);
        lemma_product_is_linear_right(rest, b1, b2, c, s);
        lemma_integer_product_len(rest, s);
        lemma_integer_product_len(rest, b1);
        lemma_integer_product_len(rest, b2);
        assert forall|j: int| 0 <= j < n implies #[trigger] integer_product(a, s)[j]
            == integer_product(a, b1)[j] + c * integer_product(a, b2)[j] by {
            let d = shifted(r)[j];
            let d1 = shifted(r1)[j];
            let d2 = shifted(r2)[j];
            if j == 0 {
                assert(r[n - 1] == r1[n - 1] + c * r2[n - 1]);
                assert(-(r1[n - 1] + c * r2[n - 1]) == -r1[n - 1] + c * (-r2[n - 1]))
                    by (nonlinear_arith);
            } else {
                assert(r[j - 1] == r1[j - 1] + c * r2[j - 1]);
            }
            assert(d == d1 + c * d2);
            assert(d + a[0] * s[j] == (d1 + a[0] * b1[j]) + c * (d2 + a[0] * b2[j]))
                by (nonlinear_arith)
                requires
                    d == d1 + c * d2,
                    s[j] == b1[j] + c * b2[j],
            ;
        }
    }
}

/// The product with `x * b` is `x` times the product with `b`.
pub proof fn lemma_product_of_shifted(a: Seq<int>, b: Seq<int>)
    ensures
        integer_product(a, shifted(b)) == shifted(integer_product(a, b)),
    decreases a.len(),
{
    let n = b.len() as int;
    let xb = shifted(b);
    let left = integer_product(a, xb);
    let right = shifted(integer_product(a, b));
    lemma_integer_product_len(a, xb);
    lemma_integer_product_len(a, b);
    if a.len() > 0 {
        let rest = a.drop_first();
        lemma_product_of_shifted(rest, b);
        let r = integer_product(rest, b);
        lemma_integer_product_len(rest, b);
        lemma_integer_product_len(rest, xb);
        assert forall|j: int| 0 <= j < n implies left[j] == right[j] by {
            assert(left[j] == shifted(shifted(r))[j] + a[0] * xb[j]);
            if j == 0 {
                assert(right[j] == -(shifted(r)[n - 1] + a[0] * b[n - 1]));
                assert(-(shifted(r)[n - 1] + a[0] * b[n - 1]) == -shifted(r)[n - 1] + a[0] * (
                -b[n - 1])) by (nonlinear_arith);
            } else {
                assert(right[j] == shifted(r)[j - 1] + a[0] * b[j - 1]);
            }
        }
    }
    assert(left =~= right);
}

/// The product with `x^m * b` is `x^m` times the product with `b`.
pub proof fn lemma_product_of_shifted_by(a: Seq<int>, b: Seq<int>, m: nat)
    ensures
        integer_product(a, shifted_by(b, m)) == shifted_by(integer_product(a, b), m),
    decreases m,
{
    if m > 0 {
        lemma_product_of_shifted_by(a, b, (m - 1) as nat);
        lemma_product_of_shifted(a, shifted_by(b, (m - 1) as nat));
    }
}

/// One more coefficient `z` behind those of `a` adds `z * x^k * b` to the
/// product with `b`, for the number `k` of coefficients of `a`.
pub proof fn lemma_product_push(a: Seq<int>, z: int, b: Seq<int>)
    ensures
        forall|j: int|
            0 <= j < b.len() ==> #[trigger] integer_product(a.push(z), b)[j] == integer_product(
                a,
                b,
            )[j] + z * shifted_by(b, a.len())[j],
    decreases a.len(),
{
    let n = b.len() as int;
    let more = a.push(z);
    lemma_integer_product_len(more, b);
    lemma_integer_product_len(a, b);
    lemma_shifted_by_len(b, a.len());
    if a.len() == 0 {
        assert(more.drop_first() =~= a);
        assert forall|j: int| 0 <= j < n implies #[trigger] integer_product(more, b)[j]
            == integer_product(a, b)[j] + z * shifted_by(b, a.len())[j] by {
            assert(more[0] == z);
        }
    } else {
        let rest = a.drop_first();
        assert(more.drop_first() =~= rest.push(z));
        lemma_product_push(rest, z, b);
        let r = integer_product(rest, b);
        let rz = integer_product(rest.push(z), b);
        let sb = shifted_by(b, rest.len());
        lemma_integer_product_len(rest, b);
        lemma_integer_product_len(rest.push(z), b);
        lemma_shifted_by_len(b, rest.len());
        assert(shifted_by(b, a.len()) == shifted(sb));
        assert forall|j: int| 0 <= j < n implies #[trigger] integer_product(more, b)[j]
            == integer_product(a, b)[j] + z * shifted_by(b, a.len())[j] by {
            assert(more[0] == a[0]);
            if j == 0 {
                assert(rz[n - 1] == r[n - 1] + z * sb[n - 1]);
                assert(-(r[n - 1] + z * sb[n - 1]) == -r[n - 1] + z * (-sb[n - 1]))
                    by (nonlinear_arith);
            } else {
                assert(rz[j - 1] == r[j - 1] + z * sb[j - 1]);
            }
        }
    }
}

/// `x^m` times one is `x^m`, below the degree.
pub proof fn lemma_shifted_unit(n: nat, m: nat)
    requires
        m < n,
    ensures
        shifted_by(unit(n, 0), m) == unit(n, m as int),
    decreases m,
{
    if m > 0 {
        lemma_shifted_unit(n, (m - 1) as nat);
        assert(shifted(unit(n, m - 1)) =~= unit(n, m as int));
    }
}

/// The product with one is the polynomial itself.
pub proof fn lemma_product_with_unit(a: Seq<int>, n: nat)
    requires
        a.len() <= n,
    ensures
        integer_product(a, unit(n, 0)) == padded_to(a, n),
    decreases a.len(),
{
    let one = unit(n, 0);
    let left = integer_product(a, one);
    lemma_integer_product_len(a, one);
    if a.len() > 0 {
        let rest = a.drop_first();
        lemma_product_with_unit(rest, n);
        let r = integer_product(rest, one);
        assert forall|j: int| 0 <= j < n implies left[j] == padded_to(a, n)[j] by {
            assert(r == padded_to(rest, n));
            assert(left[j] == shifted(r)[j] + a[0] * one[j]);
            if j == 0 {
                assert(r[n - 1] == 0);
                assert(shifted(r)[0] == 0);
                assert(a[0] * 1 == a[0]);
            } else {
                assert(shifted(r)[j] == r[j - 1]);
                if j < a.len() {
                    assert(rest[j - 1] == a[j]);
                }
                assert(a[0] * 0 == 0);
            }
        }
    }
    assert(left =~= padded_to(a, n));
}

/// The product with zero is zero.
pub proof fn lemma_product_zero_right(a: Seq<int>, n: nat)
    ensures
        integer_product(a, zeros(n)) == zeros(n),
    decreases a.len(),
{
    let left = integer_product(a, zeros(n));
    lemma_integer_product_len(a, zeros(n));
    if a.len() > 0 {
        lemma_product_zero_right(a.drop_first(), n);
        assert forall|j: int| 0 <= j < n implies left[j] == 0 by {
            assert(a[0] * 0 == 0);
        }
    }
    assert(left =~= zeros(n));
}

/// The product of zero with a polynomial is zero.
pub proof fn lemma_product_zero_left(k: nat, b: Seq<int>)
    ensures
        integer_product(zeros(k), b) == zeros(b.len()),
    decreases k,
{
    let left = integer_product(zeros(k), b);
    lemma_integer_product_len(zeros(k), b);
    if k > 0 {
        assert(zeros(k).drop_first() =~= zeros((k - 1) as nat));
        lemma_product_zero_left((k - 1) as nat, b);
        assert forall|j: int| 0 <= j < b.len() implies left[j] == 0 by {
            assert(0 * b[j] == 0);
        }
    }
    assert(left =~= zeros(b.len()));
}

/// The product of the first `m` coefficients of `a` with `b` is the
/// product of `b` with them.
pub proof fn lemma_commutes_upto(a: Seq<int>, b: Seq<int>, m: nat)
    requires
        a.len() == b.len(),
        m <= a.len(),
    ensures
        integer_product(a.take(m as int), b) == integer_product(
            b,
            padded_to(a.take(m as int), a.len()),
        ),
    decreases m,
{
    let n = a.len();
    let head = a.take(m as int);
    let left = integer_product(head, b);
    let right = integer_product(b, padded_to(head, n));
    lemma_integer_product_len(head, b);
    lemma_integer_product_len(b, padded_to(head, n));
    if m == 0 {
        assert(padded_to(head, n) =~= zeros(n));
        lemma_product_zero_right(b, n);
        assert(left =~= right);
    } else {
        let before = a.take(m - 1);
        let z = a[m - 1];
        assert(head =~= before.push(z));
        lemma_commutes_upto(a, b, (m - 1) as nat);
        lemma_product_push(before, z, b);
        // x^(m - 1) * b is the product of b with x^(m - 1)
        let one = unit(n, 0);
        lemma_shifted_unit(n, (m - 1) as nat);
        lemma_product_of_shifted_by(b, one, (m - 1) as nat);
        lemma_product_with_unit(b, n);
        assert(padded_to(b, n) =~= b);
        let xm = unit(n, m - 1);
        assert(integer_product(b, xm) == shifted_by(b, (m - 1) as nat));
        // the padded coefficients grow by z * x^(m - 1)
        let pad_before = padded_to(before, n);
        let pad = padded_to(head, n);
        assert forall|k: int| 0 <= k < n implies #[trigger] pad[k] == pad_before[k] + z * xm[k] by {
            if k == m - 1 {
                assert(z * 1 == z);
            } else {
                assert(z * 0 == 0);
            }
        }
        lemma_product_is_linear_right(b, pad_before, xm, z, pad);
        assert forall|j: int| 0 <= j < n implies left[j] == right[j] by {
            assert(left[j] == integer_product(before, b)[j] + z * shifted_by(b, before.len())[j]);
            assert(right[j] == integer_product(b, pad_before)[j] + z * integer_product(b, xm)[j]);
        }
        assert(left =~= right);
    }
}

/// The product commutes.
pub proof fn lemma_product_commutes(a: Seq<int>, b: Seq<int>)
    requires
        a.len() == b.len(),
    ensures
        integer_product(a, b) == integer_product(b, a),
{
    lemma_commutes_upto(a, b, a.len());
    assert(a.take(a.len() as int) =~= a);
    assert(padded_to(a, a.len()) =~= a);
}

/// The product of `x * u` with `c` is `x` times the product of `u` and `c`.
pub proof fn lemma_product_of_shifted_left(u: Seq<int>, c: Seq<int>)
    requires
        u.len() == c.len(),
    ensures
        integer_product(shifted(u), c) == shifted(integer_product(u, c)),
{
    lemma_product_commutes(shifted(u), c);
    lemma_product_of_shifted(c, u);
    lemma_product_commutes(c, u);
}

/// The product associates.
pub proof fn lemma_product_associates(a: Seq<int>, b: Seq<int>, c: Seq<int>)
    requires
        b.len() == c.len(),
    ensures
        integer_product(integer_product(a, b), c) == integer_product(a, integer_product(b, c)),
    decreases a.len(),
{
    let n = b.len();
    let ab = integer_product(a, b);
    let bc = integer_product(b, c);
    let left = integer_product(ab, c);
    let right = integer_product(a, bc);
    lemma_integer_product_len(a, b);
    lemma_integer_product_len(b, c);
    lemma_integer_product_len(ab, c);
    lemma_integer_product_len(a, bc);
    if a.len() == 0 {
        assert(ab =~= zeros(n));
        lemma_product_zero_left(n, c);
        assert(left =~= right);
    } else {
        let rest = a.drop_first();
        let r = integer_product(rest, b);
        lemma_integer_product_len(rest, b);
        lemma_product_associates(rest, b, c);
        let xr = shifted(r);
        assert forall|k: int| 0 <= k < n implies #[trigger] ab[k] == xr[k] + a[0] * b[k] by {}
        lemma_product_is_linear(xr, b, a[0], ab, c);
        lemma_product_of_shifted_left(r, c);
        let rbc = integer_product(rest, bc);
        lemma_integer_product_len(rest, bc);
        assert forall|j: int| 0 <= j < n implies left[j] == right[j] by {
            assert(left[j] == integer_product(xr, c)[j] + a[0] * bc[j]);
            assert(integer_product(xr, c) == shifted(rbc));
            assert(right[j] == shifted(rbc)[j] + a[0] * bc[j]);
        }
        assert(left =~= right);
    }
}

} // verus!
