//! Polynomials over GF(2^8): byte sequences, low-degree coefficient first.
//!
//! Provides evaluation, addition, multiplication and Lagrange interpolation,
//! the pieces the secret-sharing engine is built from.

use vstd::prelude::*;

use crate::error::{PPHError, PPHErrorKind};
use crate::math::gf256;

verus! {

/// Coefficient `i` of `s`, taking absent high coefficients as 0.
pub open spec fn coeff_at(s: Seq<u8>, i: int) -> u8 {
    if 0 <= i < s.len() {
        s[i]
    } else {
        0
    }
}

/// Sum of two polynomials: pad the shorter with zeros, XOR byte-wise.
pub open spec fn poly_add_spec(a: Seq<u8>, b: Seq<u8>) -> Seq<u8> {
    Seq::new(
        if a.len() >= b.len() {
            a.len()
        } else {
            b.len()
        },
        |i: int| coeff_at(a, i) ^ coeff_at(b, i),
    )
}

/// `p` scaled by the field element `c`.
pub open spec fn poly_scale_spec(c: u8, p: Seq<u8>) -> Seq<u8> {
    Seq::new(p.len(), |i: int| gf256::gf_mul_spec(c, p[i]))
}

/// Schoolbook product of two polynomials, by splitting off the lowest
/// coefficient of `a`: `a * b = a[0]*b + x*(rest(a)*b)`.
pub open spec fn poly_mul_spec(a: Seq<u8>, b: Seq<u8>) -> Seq<u8>
    decreases a.len(),
{
    if a.len() == 0 || b.len() == 0 {
        Seq::empty()
    } else {
        poly_add_spec(poly_scale_spec(a[0], b), seq![0u8] + poly_mul_spec(a.drop_first(), b))
    }
}

/// The product of two nonempty polynomials has length `|a| + |b| - 1`.
pub proof fn lemma_poly_mul_len(a: Seq<u8>, b: Seq<u8>)
    ensures
        a.len() == 0 || b.len() == 0 ==> poly_mul_spec(a, b).len() == 0,
        a.len() > 0 && b.len() > 0 ==> poly_mul_spec(a, b).len() == a.len() + b.len() - 1,
    decreases a.len(),
{
    if a.len() > 0 && b.len() > 0 {
        lemma_poly_mul_len(a.drop_first(), b);
    }
}

/// Evaluation of `p` at `x`: `p[0] + x * (rest of p at x)`, i.e.
/// `sum_i p[i] * x^i` computed in Horner form.
pub open spec fn poly_eval_spec(p: Seq<u8>, x: u8) -> u8
    decreases p.len(),
{
    if p.len() == 0 {
        0
    } else {
        gf256::gf_mul_spec(x, poly_eval_spec(p.drop_first(), x)) ^ p[0]
    }
}

/// All elements of `s` are pairwise distinct.
pub open spec fn distinct(s: Seq<u8>) -> bool {
    forall|i: int, j: int| 0 <= i < j < s.len() ==> s[i] != s[j]
}

/// The Lagrange basis polynomial for index `i`, partially built: the product
/// of `(x - xs[k]) / (xs[i] - xs[k])` over `k` in `[0, j)` with `k != i`.
pub open spec fn basis_poly(xs: Seq<u8>, i: int, j: int) -> Seq<u8>
    decreases j,
{
    if j <= 0 {
        seq![1u8]
    } else if j - 1 == i {
        basis_poly(xs, i, j - 1)
    } else {
        poly_mul_spec(
            basis_poly(xs, i, j - 1),
            seq![
                gf256::gf_div_spec(xs[j - 1], xs[i] ^ xs[j - 1]),
                gf256::gf_div_spec(1, xs[i] ^ xs[j - 1]),
            ],
        )
    }
}

/// The interpolating polynomial, partially built: the sum over `k` in
/// `[0, i)` of `ys[k]` times the basis polynomial for `k`.
pub open spec fn lagrange_acc(xs: Seq<u8>, ys: Seq<u8>, i: int) -> Seq<u8>
    decreases i,
{
    if i <= 0 {
        Seq::empty()
    } else {
        poly_add_spec(
            lagrange_acc(xs, ys, i - 1),
            poly_mul_spec(basis_poly(xs, i - 1, xs.len() as int), seq![ys[i - 1]]),
        )
    }
}

/// The unique polynomial of degree below `|xs|` through the points
/// `(xs[k], ys[k])`, as its coefficient sequence of length `|xs|`:
/// `sum_k ys[k] * prod_{j != k} (x - xs[j]) / (xs[k] - xs[j])`.
pub open spec fn lagrange_spec(xs: Seq<u8>, ys: Seq<u8>) -> Seq<u8> {
    lagrange_acc(xs, ys, xs.len() as int)
}

/// Length of a partially built basis polynomial.
proof fn lemma_basis_poly_len(xs: Seq<u8>, i: int, j: int)
    requires
        0 <= i,
        0 <= j,
    ensures
        basis_poly(xs, i, j).len() == 1 + if i < j {
            j - 1
        } else {
            j as int
        },
    decreases j,
{
    if j > 0 {
        lemma_basis_poly_len(xs, i, j - 1);
        if j - 1 != i {
            lemma_poly_mul_len(
                basis_poly(xs, i, j - 1),
                seq![
                    gf256::gf_div_spec(xs[j - 1], xs[i] ^ xs[j - 1]),
                    gf256::gf_div_spec(1, xs[i] ^ xs[j - 1]),
                ],
            );
        }
    }
}

/// The interpolating polynomial has exactly one coefficient per point.
pub proof fn lemma_lagrange_len(xs: Seq<u8>, ys: Seq<u8>, i: int)
    requires
        0 <= i <= xs.len(),
    ensures
        lagrange_acc(xs, ys, i).len() == if i == 0 {
            0
        } else {
            xs.len() as int
        },
    decreases i,
{
    if i > 0 {
        lemma_lagrange_len(xs, ys, i - 1);
        lemma_basis_poly_len(xs, i - 1, xs.len() as int);
        lemma_poly_mul_len(basis_poly(xs, i - 1, xs.len() as int), seq![ys[i - 1]]);
    }
}

/// Sum of two polynomials.
pub fn add_poly(a: &Vec<u8>, b: &Vec<u8>) -> (r: Vec<u8>)
    ensures
        r@ == poly_add_spec(a@, b@),
{
    let n = if a.len() >= b.len() {
        a.len()
    } else {
        b.len()
    };
    let mut r: Vec<u8> = Vec::new();
    let mut i: usize = 0;
    while i < n
        invariant
            i <= n,
            n == if a@.len() >= b@.len() {
                a@.len()
            } else {
                b@.len()
            },
            r@.len() == i,
            forall|k: int| 0 <= k < i ==> r@[k] == (coeff_at(a@, k) ^ coeff_at(b@, k)),
        decreases n - i,
    {
        let x = if i < a.len() {
            a[i]
        } else {
            0
        };
        let y = if i < b.len() {
            b[i]
        } else {
            0
        };
        r.push(x ^ y);
        i = i + 1;
    }
    proof {
        assert(r@ =~= poly_add_spec(a@, b@));
    }
    r
}

/// `p` scaled by `c`.
fn scale_poly(c: u8, p: &Vec<u8>) -> (r: Vec<u8>)
    ensures
        r@ == poly_scale_spec(c, p@),
{
    let mut r: Vec<u8> = Vec::new();
    let mut i: usize = 0;
    while i < p.len()
        invariant
            i <= p@.len(),
            r@.len() == i,
            forall|k: int| 0 <= k < i ==> r@[k] == gf256::gf_mul_spec(c, p@[k]),
        decreases p@.len() - i,
    {
        r.push(gf256::gf_mul(c, p[i]));
        i = i + 1;
    }
    proof {
        assert(r@ =~= poly_scale_spec(c, p@));
    }
    r
}

/// Schoolbook product of two polynomials.
pub fn mul_poly(a: &Vec<u8>, b: &Vec<u8>) -> (r: Vec<u8>)
    ensures
        r@ == poly_mul_spec(a@, b@),
{
    if a.len() == 0 || b.len() == 0 {
        let r: Vec<u8> = Vec::new();
        return r;
    }
    let mut r: Vec<u8> = Vec::new();
    let mut i: usize = a.len();
    while i > 0
        invariant
            0 <= i <= a@.len(),
            b@.len() > 0,
            r@ == poly_mul_spec(a@.skip(i as int), b@),
        decreases i,
    {
        i = i - 1;
        let scaled = scale_poly(a[i], b);
        let mut shifted: Vec<u8> = Vec::new();
        shifted.push(0);
        let mut k: usize = 0;
        while k < r.len()
            invariant
                k <= r@.len(),
                shifted@.len() == k + 1,
                shifted@[0] == 0u8,
                forall|t: int| 0 <= t < k ==> shifted@[t + 1] == r@[t],
            decreases r@.len() - k,
        {
            shifted.push(r[k]);
            k = k + 1;
        }
        proof {
            assert(shifted@ =~= seq![0u8] + r@);
            assert(a@.skip(i as int).drop_first() =~= a@.skip(i + 1));
            assert(a@.skip(i as int)[0] == a@[i as int]);
        }
        r = add_poly(&scaled, &shifted);
    }
    proof {
        assert(a@.skip(0) =~= a@);
    }
    r
}

/// Evaluation of the polynomial at a nonzero point.
pub(crate) fn poly_eval_nz(x: u8, coefficients: &Vec<u8>) -> (r: u8)
    requires
        x != 0,
    ensures
        r == poly_eval_spec(coefficients@, x),
{
    let mut r: u8 = 0;
    let mut i: usize = coefficients.len();
    while i > 0
        invariant
            0 <= i <= coefficients@.len(),
            r == poly_eval_spec(coefficients@.skip(i as int), x),
        decreases i,
    {
        i = i - 1;
        proof {
            assert(coefficients@.skip(i as int).drop_first() =~= coefficients@.skip(i + 1));
            assert(coefficients@.skip(i as int)[0] == coefficients@[i as int]);
        }
        r = gf256::gf_mul(x, r) ^ coefficients[i];
    }
    proof {
        assert(coefficients@.skip(0) =~= coefficients@);
    }
    r
}

/// Evaluation of the polynomial with coefficients `coefficients` at `x`.
/// `x == 0` is rejected: the value at 0 is the constant term, which the
/// secret-sharing scheme must never disclose.
pub fn compute_polynomial(x: u8, coefficients: &Vec<u8>) -> (r: Result<u8, PPHError>)
    ensures
        x != 0 ==> (r matches Ok(v) && v == poly_eval_spec(coefficients@, x)),
        x == 0 ==> (r matches Err(e) && e.kind == PPHErrorKind::ShardError),
{
    if x == 0 {
        return Err(PPHError::new(PPHErrorKind::ShardError, "cannot evaluate at zero"));
    }
    Ok(poly_eval_nz(x, coefficients))
}

/// Lagrange interpolation: from points `(xs[k], fxs[k])` with all `xs[k]`
/// distinct, the coefficients of the unique polynomial of degree below
/// `|xs|` through them.  A repeated x-coordinate is rejected with a
/// `ShardError`.
pub fn full_lagrange(xs: Vec<u8>, fxs: Vec<u8>) -> (r: Result<Vec<u8>, PPHError>)
    requires
        xs@.len() == fxs@.len(),
    ensures
        distinct(xs@) ==> (r matches Ok(p) && p@ == lagrange_spec(xs@, fxs@)),
        !distinct(xs@) ==> (r matches Err(e) && e.kind == PPHErrorKind::ShardError),
{
    let n = xs.len();
    let mut acc: Vec<u8> = Vec::new();
    let mut i: usize = 0;
    while i < n
        invariant
            i <= n,
            n == xs@.len(),
            n == fxs@.len(),
            acc@ == lagrange_acc(xs@, fxs@, i as int),
            forall|i0: int, j0: int|
                0 <= i0 < i && 0 <= j0 < n && i0 != j0 ==> xs@[i0] != xs@[j0],
        decreases n - i,
    {
        let mut poly: Vec<u8> = Vec::new();
        poly.push(1);
        let mut j: usize = 0;
        proof {
            assert(poly@ =~= basis_poly(xs@, i as int, 0));
        }
        while j < n
            invariant
                j <= n,
                i < n,
                n == xs@.len(),
                n == fxs@.len(),
                poly@ == basis_poly(xs@, i as int, j as int),
                forall|j0: int| 0 <= j0 < j && j0 != i ==> xs@[i as int] != xs@[j0],
            decreases n - j,
        {
            if j != i {
                let den = xs[i] ^ xs[j];
                let ghost xi = xs@[i as int];
                let ghost xj = xs@[j as int];
                if den == 0 {
                    proof {
                        assert(xi == xj) by (bit_vector)
                            requires
                                (xi ^ xj) == 0,
                        ;
                        assert(!distinct(xs@)) by {
                            if distinct(xs@) {
                                if i < j {
                                    assert(xs@[i as int] != xs@[j as int]);
                                } else {
                                    assert(xs@[j as int] != xs@[i as int]);
                                }
                                assert(false);
                            }
                        }
                    }
                    return Err(
                        PPHError::new(PPHErrorKind::ShardError, "duplicate x coordinate"),
                    );
                }
                proof {
                    assert(xi != xj) by (bit_vector)
                        requires
                            (xi ^ xj) != 0,
                    ;
                }
                let mut factor: Vec<u8> = Vec::new();
                factor.push(gf256::gf_div_nz(xs[j], den));
                factor.push(gf256::gf_div_nz(1, den));
                proof {
                    assert(factor@ =~= seq![
                        gf256::gf_div_spec(xs@[j as int], xs@[i as int] ^ xs@[j as int]),
                        gf256::gf_div_spec(1, xs@[i as int] ^ xs@[j as int]),
                    ]);
                }
                poly = mul_poly(&poly, &factor);
            }
            j = j + 1;
        }
        let mut ymul: Vec<u8> = Vec::new();
        ymul.push(fxs[i]);
        proof {
            assert(ymul@ =~= seq![fxs@[i as int]]);
        }
        let chunk = mul_poly(&poly, &ymul);
        acc = add_poly(&acc, &chunk);
        i = i + 1;
    }
    proof {
        assert(distinct(xs@));
    }
    Ok(acc)
}

} // verus!
