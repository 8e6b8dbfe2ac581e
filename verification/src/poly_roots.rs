//! Roots of polynomials over a prime field: a polynomial has no more roots
//! than its degree, so the interpolant through the values of a polynomial of
//! low degree is that polynomial.

use crate::algebra::{fadd, fmul, fsub};
use crate::number_theory::{gcd, is_prime, lemma_coprime_cancels, lemma_gcd_one};
use crate::poly_laws::{
    lemma_canonical_index, lemma_conv_zero_left, lemma_distinct_units_apart, lemma_divide_general,
    lemma_eval_add, lemma_eval_constant, lemma_eval_equiv, lemma_eval_linear_factor, lemma_eval_mul,
    lemma_eval_sub, lemma_interpolate_eval, lemma_linear_factor_shape, lemma_mul_degree_general,
    units_apart,
};
use crate::poly_spec::{
    canonical, coeff, conv, degree, eval_sum, has_collision, leading, lemma_degree,
    lemma_degree_bound, lemma_equiv_degree, lemma_fsub_zero, lemma_linear_factor, lemma_mul,
    lemma_sub, linear_factor, poly_add, poly_divide, poly_equiv, poly_eval, poly_interpolate,
    poly_mul, poly_sub,
};
use vstd::arithmetic::div_mod::*;
use vstd::prelude::*;

verus! {

/// The value of a constant polynomial, in whatever length it is written, is
/// its constant coefficient.
pub proof fn lemma_eval_low_degree(s: Seq<int>, x: int, p: int)
    requires
        p > 0,
        canonical(s, p),
        degree(s) <= 0,
    ensures
        poly_eval(s, x, p) == coeff(s, 0),
{
    let c = coeff(s, 0);
    lemma_degree(s);
    assert(poly_equiv(s, seq![c])) by {
        assert forall|i: int| #[trigger] coeff(s, i) == coeff(seq![c], i) by {
            if i != 0 {
                assert(coeff(s, i) == 0);
            }
        }
    }
    lemma_eval_equiv(s, seq![c], x, p);
    lemma_eval_constant(c, x, p);
    if s.len() > 0 {
        lemma_small_mod(s[0] as nat, p as nat);
    } else {
        lemma_small_mod(0, p as nat);
    }
}

/// The values are those that the polynomial takes at the points.
pub open spec fn sampled_from(g: Seq<int>, domain: Seq<int>, values: Seq<int>, p: int) -> bool {
    &&& domain.len() == values.len()
    &&& forall|i: int| 0 <= i < domain.len() ==> values[i] == poly_eval(g, #[trigger] domain[i], p)
}

/// The polynomial takes the value zero at each of the points.
pub open spec fn vanishes_on(h: Seq<int>, points: Seq<int>, p: int) -> bool {
    forall|i: int| 0 <= i < points.len() ==> poly_eval(h, #[trigger] points[i], p) == 0
}

/// The value of a polynomial is a canonical representative.
pub proof fn lemma_eval_canonical(s: Seq<int>, x: int, p: int)
    requires
        p > 0,
    ensures
        0 <= poly_eval(s, x, p) < p,
{
    lemma_mod_bound(eval_sum(s, x, s.len() as int), p);
}

/// The product of the zero polynomial with any other is zero.
pub proof fn lemma_mul_zero_left(q: Seq<int>, d: Seq<int>, p: int)
    requires
        p > 0,
        degree(q) == -1,
    ensures
        degree(poly_mul(q, d, p)) == -1,
{
    let product = poly_mul(q, d, p);
    lemma_degree(q);
    lemma_mul(q, d, p);
    assert forall|k: int| -1 < k < product.len() implies product[k] == 0 by {
        assert forall|i: int| 0 <= i < q.len() implies coeff(q, i) == 0 by {
            assert(coeff(q, i) == 0);
        }
        lemma_conv_zero_left(q, d, k, q.len() as int);
        assert(coeff(product, k) == conv(q, d, k, q.len() as int) % p);
        lemma_small_mod(0, p as nat);
    }
    lemma_degree_bound(product, -1);
    lemma_degree(product);
}

/// A polynomial of positive degree with a root is the product of a
/// polynomial of one degree less with `x - root`: the quotient of its
/// division by `x - root` has one degree less, and at every point the
/// polynomial takes the value of the quotient times the point less the
/// root.
pub proof fn lemma_factor_root(h: Seq<int>, root: int, p: int)
    requires
        p > 1,
        canonical(h, p),
        0 <= root < p,
        degree(h) >= 1,
        poly_eval(h, root, p) == 0,
    ensures
        ({
            let q = poly_divide(h, linear_factor(root, p), p).0;
            &&& canonical(q, p)
            &&& degree(q) == degree(h) - 1
            &&& forall|x: int| #[trigger]
                poly_eval(h, x, p) == fmul(poly_eval(q, x, p), fsub(x, root, p), p)
        }),
{
    let d = linear_factor(root, p);
    let (q, rem) = poly_divide(h, d, p);
    let product = poly_mul(q, d, p);
    let back = poly_add(product, rem, p);
    lemma_linear_factor(root, p);
    lemma_linear_factor_shape(root, p);
    lemma_gcd_one(p);
    lemma_divide_general(h, d, p);
    lemma_mul(q, d, p);
    lemma_small_mod(0, p as nat);
    assert forall|x: int| #[trigger]
        poly_eval(h, x, p) == fadd(
            fmul(poly_eval(q, x, p), fsub(x, root, p), p),
            poly_eval(rem, x, p),
            p,
        ) by {
        lemma_eval_equiv(h, back, x, p);
        lemma_eval_add(product, rem, x, p);
        lemma_eval_mul(q, d, x, p);
        lemma_eval_linear_factor(root, x, p);
    }
    // the remainder is a constant, and it vanishes at the root: it is zero
    assert(poly_eval(rem, root, p) == 0) by {
        assert(poly_eval(h, root, p) == fadd(
            fmul(poly_eval(q, root, p), fsub(root, root, p), p),
            poly_eval(rem, root, p),
            p,
        ));
        lemma_fsub_zero(root, root, p);
        assert(poly_eval(q, root, p) * 0 == 0);
        lemma_eval_canonical(rem, root, p);
        lemma_small_mod(poly_eval(rem, root, p) as nat, p as nat);
    }
    lemma_eval_low_degree(rem, root, p);
    lemma_degree(rem);
    assert(degree(rem) == -1);
    assert forall|x: int| #[trigger]
        poly_eval(h, x, p) == fmul(poly_eval(q, x, p), fsub(x, root, p), p) by {
        lemma_eval_low_degree(rem, x, p);
        lemma_mod_bound(poly_eval(q, x, p) * fsub(x, root, p), p);
        lemma_small_mod(fmul(poly_eval(q, x, p), fsub(x, root, p), p) as nat, p as nat);
    }
    // so the polynomial is the product, whose degree is that of the
    // quotient and one more
    lemma_degree(product);
    assert(poly_equiv(h, product)) by {
        if degree(product) == -1 {
            assert forall|i: int| #[trigger] coeff(h, i) == coeff(product, i) by {
                assert(coeff(h, i) == coeff(back, i));
                assert(coeff(rem, i) == 0);
                assert(coeff(product, i) == 0);
            }
        }
    }
    lemma_equiv_degree(h, product);
    lemma_degree(q);
    if degree(q) == -1 {
        lemma_mul_zero_left(q, d, p);
    } else {
        lemma_canonical_index(q, degree(q), p);
        assert(leading(q) * 1 == leading(q));
        lemma_small_mod(leading(q) as nat, p as nat);
        lemma_mul_degree_general(q, d, p);
    }
}

/// Points that are units apart stay so when the last is left out.
pub proof fn lemma_units_apart_drop_last(points: Seq<int>, p: int)
    requires
        canonical(points, p),
        units_apart(points, p),
        points.len() > 0,
    ensures
        canonical(points.drop_last(), p),
        units_apart(points.drop_last(), p),
{
    let rest = points.drop_last();
    assert forall|i: int| 0 <= i < rest.len() implies 0 <= #[trigger] rest[i] < p by {
        assert(rest[i] == points[i]);
    }
    assert forall|a: int, b: int|
        0 <= a < rest.len() && 0 <= b < rest.len() && a != b implies gcd(
        #[trigger] fsub(rest[a], rest[b], p),
        p,
    ) == 1 by {
        assert(rest[a] == points[a] && rest[b] == points[b]);
        assert(gcd(fsub(points[a], points[b], p), p) == 1);
    }
}

/// A polynomial that vanishes at more points than its degree, the points
/// being units apart as distinct points of a prime field are, is the zero
/// polynomial.
pub proof fn lemma_root_bound(h: Seq<int>, points: Seq<int>, p: int)
    requires
        p > 1,
        canonical(h, p),
        canonical(points, p),
        units_apart(points, p),
        vanishes_on(h, points, p),
        degree(h) < points.len(),
    ensures
        degree(h) == -1,
    decreases points.len(),
{
    lemma_degree(h);
    let n = points.len() as int;
    if degree(h) >= 0 {
        let root = points[n - 1];
        lemma_canonical_index(points, n - 1, p);
        assert(poly_eval(h, root, p) == 0);
        if degree(h) == 0 {
            // a constant other than zero has no root
            lemma_eval_low_degree(h, root, p);
        } else {
            // the quotient by x - root vanishes at the other points
            let q = poly_divide(h, linear_factor(root, p), p).0;
            let rest = points.drop_last();
            lemma_factor_root(h, root, p);
            lemma_units_apart_drop_last(points, p);
            assert forall|i: int| 0 <= i < rest.len() implies poly_eval(q, #[trigger] rest[i], p)
                == 0 by {
                let x = rest[i];
                let distance = fsub(x, root, p);
                let value = poly_eval(q, x, p);
                assert(x == points[i]);
                assert(poly_eval(h, x, p) == 0);
                assert(gcd(fsub(points[i], points[n - 1], p), p) == 1);
                lemma_canonical_index(points, i, p);
                lemma_fsub_zero(x, root, p);
                lemma_eval_canonical(q, x, p);
                assert(value * distance == distance * value) by (nonlinear_arith);
                lemma_coprime_cancels(distance, value, p);
                lemma_small_mod(value as nat, p as nat);
            }
            lemma_root_bound(q, rest, p);
        }
    }
}

/// The interpolant through the values that a polynomial takes at more
/// points than its degree, the points being units apart as distinct points
/// of a prime field are, spells that polynomial.
pub proof fn lemma_interpolate_unique(g: Seq<int>, domain: Seq<int>, values: Seq<int>, p: int)
    requires
        p > 1,
        canonical(g, p),
        canonical(domain, p),
        units_apart(domain, p),
        sampled_from(g, domain, values, p),
        degree(g) < domain.len(),
    ensures
        poly_equiv(poly_interpolate(domain, values, p), g),
        degree(poly_interpolate(domain, values, p)) == degree(g),
{
    let h = poly_interpolate(domain, values, p);
    let n = domain.len() as int;
    assert(canonical(values, p)) by {
        assert forall|i: int| 0 <= i < values.len() implies 0 <= #[trigger] values[i] < p by {
            assert(values[i] == poly_eval(g, domain[i], p));
            lemma_eval_canonical(g, domain[i], p);
        }
    }
    if n == 0 {
        lemma_degree(g);
        lemma_degree(h);
        assert forall|i: int| #[trigger] coeff(h, i) == coeff(g, i) by {
            assert(coeff(g, i) == 0);
        }
    } else {
        lemma_interpolate_eval(domain, values, 0, p);
        let e = poly_sub(h, g, p);
        lemma_sub(h, g, p);
        lemma_degree(h);
        lemma_degree(g);
        assert forall|i: int| n - 1 < i < e.len() implies e[i] == 0 by {
            assert(coeff(e, i) == (coeff(h, i) - coeff(g, i)) % p);
            assert(coeff(h, i) == 0);
            assert(coeff(g, i) == 0);
            lemma_small_mod(0, p as nat);
        }
        lemma_degree_bound(e, n - 1);
        assert(vanishes_on(e, domain, p)) by {
            assert forall|i: int| 0 <= i < domain.len() implies poly_eval(
                e,
                #[trigger] domain[i],
                p,
            ) == 0 by {
                lemma_interpolate_eval(domain, values, i, p);
                lemma_eval_sub(h, g, domain[i], p);
                lemma_small_mod(0, p as nat);
            }
        }
        lemma_root_bound(e, domain, p);
        lemma_degree(e);
        assert forall|i: int| #[trigger] coeff(h, i) == coeff(g, i) by {
            assert(coeff(e, i) == 0);
            assert(coeff(e, i) == (coeff(h, i) - coeff(g, i)) % p);
            if 0 <= i < h.len() {
                assert(0 <= h[i] < p);
            }
            if 0 <= i < g.len() {
                assert(0 <= g[i] < p);
            }
            lemma_fsub_zero(coeff(h, i), coeff(g, i), p);
        }
    }
    lemma_equiv_degree(h, g);
}

/// The interpolant through points that were sampled from a polynomial of
/// lower degree than their number, at abscissas that are units apart as
/// distinct points of a prime field are, has degree at most one exactly if
/// that polynomial has: points of a line are found colinear, and points of
/// a parabola are not.
pub proof fn lemma_colinearity(g: Seq<int>, domain: Seq<int>, values: Seq<int>, p: int)
    requires
        p > 1,
        canonical(g, p),
        canonical(domain, p),
        units_apart(domain, p),
        sampled_from(g, domain, values, p),
        degree(g) < domain.len(),
    ensures
        (degree(poly_interpolate(domain, values, p)) <= 1) == (degree(g) <= 1),
{
    lemma_interpolate_unique(g, domain, values, p);
}

/// In a prime field, the interpolant through points with distinct abscissas
/// that were sampled from a polynomial of lower degree than their number
/// spells that polynomial, and is found to be of degree at most one exactly
/// if that polynomial is.
pub proof fn lemma_colinearity_prime(g: Seq<int>, domain: Seq<int>, values: Seq<int>, p: int)
    requires
        is_prime(p),
        canonical(g, p),
        canonical(domain, p),
        !has_collision(domain),
        sampled_from(g, domain, values, p),
        degree(g) < domain.len(),
    ensures
        poly_equiv(poly_interpolate(domain, values, p), g),
        (degree(poly_interpolate(domain, values, p)) <= 1) == (degree(g) <= 1),
{
    lemma_distinct_units_apart(domain, p);
    lemma_interpolate_unique(g, domain, values, p);
}

} // verus!
