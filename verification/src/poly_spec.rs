//! The mathematical model of a polynomial over the integers modulo `p`: a
//! sequence of coefficients, the coefficient of `x^i` at index `i`, and the
//! ring operations on such sequences.

use crate::algebra::{fadd, fdiv, finv, fmul, fneg, fpow, fsub};
use crate::number_theory::lemma_mod_plus_multiple;
use vstd::arithmetic::div_mod::*;
use vstd::arithmetic::power::*;
use vstd::prelude::*;

verus! {

/// The coefficient of `x^i`: zero beyond the sequence.
pub open spec fn coeff(s: Seq<int>, i: int) -> int {
    if 0 <= i < s.len() {
        s[i]
    } else {
        0
    }
}

/// Every coefficient is a canonical representative modulo `p`.
pub open spec fn canonical(s: Seq<int>, p: int) -> bool {
    forall|i: int| 0 <= i < s.len() ==> 0 <= #[trigger] s[i] < p
}

/// Two sequences spell the same polynomial: they agree on every
/// coefficient, whatever zeros stand at their ends.
pub open spec fn poly_equiv(a: Seq<int>, b: Seq<int>) -> bool {
    forall|i: int| #[trigger] coeff(a, i) == coeff(b, i)
}

/// The highest index with a nonzero coefficient, and `-1` for the zero
/// polynomial, be it empty or all zeros.
pub open spec fn degree(s: Seq<int>) -> int
    decreases s.len(),
{
    if s.len() == 0 {
        -1
    } else if s.last() != 0 {
        s.len() - 1
    } else {
        degree(s.drop_last())
    }
}

/// The coefficient at the degree, and zero for the zero polynomial.
pub open spec fn leading(s: Seq<int>) -> int {
    coeff(s, degree(s))
}

/// The polynomial with every coefficient negated.
pub open spec fn poly_neg(a: Seq<int>, p: int) -> Seq<int> {
    Seq::new(a.len(), |i: int| fneg(a[i], p))
}

/// The longer of two lengths.
pub open spec fn longer(a: nat, b: nat) -> nat {
    if a >= b {
        a
    } else {
        b
    }
}

/// The sum of two polynomials: where one is zero, the other as it stands;
/// else the coefficientwise sum over the longer length.
pub open spec fn poly_add(a: Seq<int>, b: Seq<int>, p: int) -> Seq<int> {
    if degree(a) == -1 {
        b
    } else if degree(b) == -1 {
        a
    } else {
        Seq::new(longer(a.len(), b.len()), |i: int| fadd(coeff(a, i), coeff(b, i), p))
    }
}

/// The difference of two polynomials: the sum with the negation.
pub open spec fn poly_sub(a: Seq<int>, b: Seq<int>, p: int) -> Seq<int> {
    poly_add(a, poly_neg(b, p), p)
}

/// The sum of `a[i] * b[k - i]` over `i < n`: with `n` the length of `a`,
/// the coefficient of `x^k` in the product, before reduction.
pub open spec fn conv(a: Seq<int>, b: Seq<int>, k: int, n: int) -> int
    decreases n,
{
    if n <= 0 {
        0
    } else {
        conv(a, b, k, n - 1) + coeff(a, n - 1) * coeff(b, k - (n - 1))
    }
}

/// The product of two polynomials, their convolution; empty where a factor
/// is empty.
pub open spec fn poly_mul(a: Seq<int>, b: Seq<int>, p: int) -> Seq<int> {
    if a.len() == 0 || b.len() == 0 {
        Seq::empty()
    } else {
        Seq::new((a.len() + b.len() - 1) as nat, |k: int| conv(a, b, k, a.len() as int) % p)
    }
}

/// The sum of `s[i] * x^i` over `i < n`, before reduction.
pub open spec fn eval_sum(s: Seq<int>, x: int, n: int) -> int
    decreases n,
{
    if n <= 0 {
        0
    } else {
        eval_sum(s, x, n - 1) + coeff(s, n - 1) * pow(x, (n - 1) as nat)
    }
}

/// The value of the polynomial at `x`.
pub open spec fn poly_eval(s: Seq<int>, x: int, p: int) -> int {
    eval_sum(s, x, s.len() as int) % p
}

/// The polynomial composed with `x -> factor * x`: the coefficient of `x^i`
/// is multiplied by `factor^i`.
pub open spec fn poly_scale(s: Seq<int>, factor: int, p: int) -> Seq<int> {
    Seq::new(s.len(), |i: int| fmul(fpow(factor, i as nat, p), s[i], p))
}

/// The constant polynomial one.
pub open spec fn poly_one(p: int) -> Seq<int> {
    seq![1int % p]
}

/// The `e`-th power of a polynomial, by repeated multiplication.
pub open spec fn poly_pow(f: Seq<int>, e: nat, p: int) -> Seq<int>
    decreases e,
{
    if e == 0 {
        poly_one(p)
    } else {
        poly_mul(poly_pow(f, (e - 1) as nat, p), f, p)
    }
}

/// What raising to a power returns: the constant one for the exponent zero,
/// whatever the base; for a positive exponent, the empty polynomial where
/// the base is zero, and the power else.
pub open spec fn poly_modexp(f: Seq<int>, e: nat, p: int) -> Seq<int> {
    if e == 0 {
        poly_one(p)
    } else if degree(f) == -1 {
        Seq::empty()
    } else {
        poly_pow(f, e, p)
    }
}

/// The polynomial `x - d`.
pub open spec fn linear_factor(d: int, p: int) -> Seq<int> {
    poly_sub(seq![0int, 1int % p], seq![d], p)
}

/// The monic polynomial whose roots are the points: the product of
/// `x - d` over the points `d`.
pub open spec fn poly_zeroifier(domain: Seq<int>, p: int) -> Seq<int>
    decreases domain.len(),
{
    if domain.len() == 0 {
        poly_one(p)
    } else {
        poly_mul(poly_zeroifier(domain.drop_last(), p), linear_factor(domain.last(), p), p)
    }
}

/// The factor of the Lagrange basis polynomial of the point `at` that
/// vanishes at the point `other`: `(x - other) / (at - other)`.
pub open spec fn basis_factor(at: int, other: int, p: int) -> Seq<int> {
    poly_mul(linear_factor(other, p), seq![finv(fsub(at, other, p), p)], p)
}

/// The Lagrange term of the point with index `i`, built over the first `m`
/// points: `value` times the basis factors of the points before `m` other
/// than the `i`-th.
pub open spec fn lagrange_term(domain: Seq<int>, value: int, i: int, m: int, p: int) -> Seq<int>
    decreases m,
{
    if m <= 0 {
        seq![value]
    } else if m - 1 == i {
        lagrange_term(domain, value, i, m - 1, p)
    } else {
        poly_mul(
            lagrange_term(domain, value, i, m - 1, p),
            basis_factor(domain[i], domain[m - 1], p),
            p,
        )
    }
}

/// The sum of the Lagrange terms of the first `n` points.
pub open spec fn lagrange_sum(domain: Seq<int>, values: Seq<int>, n: int, p: int) -> Seq<int>
    decreases n,
{
    if n <= 0 {
        Seq::empty()
    } else {
        poly_add(
            lagrange_sum(domain, values, n - 1, p),
            lagrange_term(domain, values[n - 1], n - 1, domain.len() as int, p),
            p,
        )
    }
}

/// The Lagrange interpolant through the points `(domain[i], values[i])`.
pub open spec fn poly_interpolate(domain: Seq<int>, values: Seq<int>, p: int) -> Seq<int> {
    lagrange_sum(domain, values, domain.len() as int, p)
}

/// Two of the points coincide.
pub open spec fn has_collision(domain: Seq<int>) -> bool {
    exists|i: int, j: int| 0 <= i < j < domain.len() && domain[i] == domain[j]
}

/// The remainder `r` less `c * x^shift * d`.
pub open spec fn sub_shifted(r: Seq<int>, d: Seq<int>, c: int, shift: int, p: int) -> Seq<int> {
    Seq::new(r.len(), |k: int| fsub(r[k], fmul(c, coeff(d, k - shift), p), p))
}

/// Long division from the quotient `q` and the remainder `r` on, for at most
/// `steps` steps: while the remainder's degree is not below the divisor's,
/// the quotient of the leading coefficients is placed in the quotient at
/// the difference of the degrees, and that multiple of the divisor is taken
/// from the remainder.
pub open spec fn divide_steps(q: Seq<int>, r: Seq<int>, d: Seq<int>, p: int, steps: nat) -> (
    Seq<int>,
    Seq<int>,
)
    decreases steps,
{
    if steps == 0 || degree(r) < degree(d) {
        (q, r)
    } else {
        let c = fdiv(leading(r), leading(d), p);
        let shift = degree(r) - degree(d);
        divide_steps(q.update(shift, c), sub_shifted(r, d, c, shift, p), d, p, (steps - 1) as nat)
    }
}

/// The quotient and the remainder of the division of `n` by a nonzero `d`.
pub open spec fn poly_divide(n: Seq<int>, d: Seq<int>, p: int) -> (Seq<int>, Seq<int>) {
    if degree(n) < degree(d) {
        (Seq::empty(), n)
    } else {
        let len = (degree(n) - degree(d) + 1) as nat;
        divide_steps(Seq::new(len, |i: int| 0int), n, d, p, len)
    }
}

/// The degree lies between `-1` and the last index; the coefficient there is
/// not zero, and every coefficient above it is.
pub proof fn lemma_degree(s: Seq<int>)
    ensures
        -1 <= degree(s) < s.len(),
        degree(s) >= 0 ==> s[degree(s)] != 0,
        forall|i: int| degree(s) < i ==> #[trigger] coeff(s, i) == 0,
    decreases s.len(),
{
    if s.len() > 0 && s.last() == 0 {
        lemma_degree(s.drop_last());
        assert forall|i: int| degree(s) < i implies #[trigger] coeff(s, i) == 0 by {
            if i < s.len() - 1 {
                assert(coeff(s.drop_last(), i) == 0);
            }
        }
    }
}

/// The degree is the one index that is nonzero with only zeros above it.
pub proof fn lemma_degree_unique(s: Seq<int>, d: int)
    requires
        -1 <= d < s.len(),
        d >= 0 ==> s[d] != 0,
        forall|i: int| d < i < s.len() ==> s[i] == 0,
    ensures
        degree(s) == d,
{
    lemma_degree(s);
    let e = degree(s);
    if e < d {
        assert(coeff(s, d) == 0);
    }
}

/// Sequences that spell the same polynomial have the same degree and the
/// same leading coefficient.
pub proof fn lemma_equiv_degree(a: Seq<int>, b: Seq<int>)
    requires
        poly_equiv(a, b),
    ensures
        degree(a) == degree(b),
        leading(a) == leading(b),
{
    lemma_degree(a);
    lemma_degree(b);
    let da = degree(a);
    let db = degree(b);
    if da < db {
        assert(coeff(a, db) == coeff(b, db));
    }
    if db < da {
        assert(coeff(a, da) == coeff(b, da));
    }
    assert(coeff(a, da) == coeff(b, da));
}

/// One more term of a convolution that vanishes changes nothing.
pub proof fn lemma_conv_skip(a: Seq<int>, b: Seq<int>, k: int, n: int)
    requires
        n >= 0,
        coeff(a, n) == 0 || coeff(b, k - n) == 0,
    ensures
        conv(a, b, k, n + 1) == conv(a, b, k, n),
{
    assert(coeff(a, n) * coeff(b, k - n) == 0) by (nonlinear_arith)
        requires
            coeff(a, n) == 0 || coeff(b, k - n) == 0,
    ;
}

/// Negation keeps the length and the canonical form, and its coefficients
/// are the negated coefficients.
pub proof fn lemma_neg(a: Seq<int>, p: int)
    requires
        p > 0,
        canonical(a, p),
    ensures
        canonical(poly_neg(a, p), p),
        poly_neg(a, p).len() == a.len(),
        forall|i: int| #[trigger] coeff(poly_neg(a, p), i) == (-coeff(a, i)) % p,
        degree(poly_neg(a, p)) == degree(a),
{
    let r = poly_neg(a, p);
    assert forall|i: int| 0 <= i < r.len() implies 0 <= #[trigger] r[i] < p by {
        lemma_mod_bound(p - a[i], p);
    }
    assert forall|i: int| #[trigger] coeff(r, i) == (-coeff(a, i)) % p by {
        if 0 <= i < a.len() {
            lemma_mod_plus_multiple(-a[i], 1, p);
        } else {
            lemma_small_mod(0, p as nat);
        }
    }
    lemma_degree(a);
    let d = degree(a);
    assert forall|i: int| d < i < r.len() implies r[i] == 0 by {
        assert(coeff(a, i) == 0);
        assert(coeff(r, i) == (-coeff(a, i)) % p);
        lemma_small_mod(0, p as nat);
    }
    if d >= 0 {
        assert(coeff(r, d) == (-coeff(a, d)) % p);
        assert(r[d] != 0) by {
            if r[d] == 0 {
                // p - a[d] is in (0, p], and a multiple of p
                lemma_mod_self_0(p);
                if a[d] > 0 {
                    lemma_small_mod((p - a[d]) as nat, p as nat);
                }
            }
        }
    }
    lemma_degree_unique(r, d);
}

/// The sum is canonical, and its coefficients are the sums of the
/// coefficients.
pub proof fn lemma_add(a: Seq<int>, b: Seq<int>, p: int)
    requires
        p > 0,
        canonical(a, p),
        canonical(b, p),
    ensures
        canonical(poly_add(a, b, p), p),
        poly_add(a, b, p).len() <= longer(a.len(), b.len()),
        forall|i: int| #[trigger]
            coeff(poly_add(a, b, p), i) == (coeff(a, i) + coeff(b, i)) % p,
{
    let r = poly_add(a, b, p);
    lemma_degree(a);
    lemma_degree(b);
    if degree(a) == -1 {
        assert forall|i: int| #[trigger] coeff(r, i) == (coeff(a, i) + coeff(b, i)) % p by {
            assert(coeff(a, i) == 0);
            if 0 <= i < b.len() {
                lemma_small_mod(b[i] as nat, p as nat);
            } else {
                lemma_small_mod(0, p as nat);
            }
        }
    } else if degree(b) == -1 {
        assert forall|i: int| #[trigger] coeff(r, i) == (coeff(a, i) + coeff(b, i)) % p by {
            assert(coeff(b, i) == 0);
            if 0 <= i < a.len() {
                lemma_small_mod(a[i] as nat, p as nat);
            } else {
                lemma_small_mod(0, p as nat);
            }
        }
    } else {
        assert forall|i: int| 0 <= i < r.len() implies 0 <= #[trigger] r[i] < p by {
            lemma_mod_bound(coeff(a, i) + coeff(b, i), p);
        }
        assert forall|i: int| #[trigger] coeff(r, i) == (coeff(a, i) + coeff(b, i)) % p by {
            if !(0 <= i < r.len()) {
                lemma_small_mod(0, p as nat);
            }
        }
    }
}

/// The difference is canonical, and its coefficients are the differences of
/// the coefficients.
pub proof fn lemma_sub(a: Seq<int>, b: Seq<int>, p: int)
    requires
        p > 0,
        canonical(a, p),
        canonical(b, p),
    ensures
        canonical(poly_sub(a, b, p), p),
        poly_sub(a, b, p).len() <= longer(a.len(), b.len()),
        forall|i: int| #[trigger]
            coeff(poly_sub(a, b, p), i) == (coeff(a, i) - coeff(b, i)) % p,
{
    lemma_neg(b, p);
    lemma_add(a, poly_neg(b, p), p);
    let nb = poly_neg(b, p);
    let r = poly_sub(a, b, p);
    assert forall|i: int| #[trigger] coeff(r, i) == (coeff(a, i) - coeff(b, i)) % p by {
        assert(coeff(r, i) == (coeff(a, i) + coeff(nb, i)) % p);
        assert(coeff(nb, i) == (-coeff(b, i)) % p);
        lemma_add_mod_noop_right(coeff(a, i), -coeff(b, i), p);
    }
}

/// A convolution is zero where the index lies outside the product.
pub proof fn lemma_conv_outside(a: Seq<int>, b: Seq<int>, k: int, n: int)
    requires
        0 <= n <= a.len(),
        k < 0 || k >= a.len() + b.len() - 1,
    ensures
        conv(a, b, k, n) == 0,
    decreases n,
{
    if n > 0 {
        lemma_conv_outside(a, b, k, n - 1);
        lemma_conv_skip(a, b, k, n - 1);
    }
}

/// The product is canonical, has the length of the two factors less one,
/// and its coefficients are the reduced convolutions.
pub proof fn lemma_mul(a: Seq<int>, b: Seq<int>, p: int)
    requires
        p > 0,
    ensures
        canonical(poly_mul(a, b, p), p),
        a.len() > 0 && b.len() > 0 ==> poly_mul(a, b, p).len() == a.len() + b.len() - 1,
        a.len() == 0 || b.len() == 0 ==> poly_mul(a, b, p).len() == 0,
        forall|k: int| #[trigger]
            coeff(poly_mul(a, b, p), k) == conv(a, b, k, a.len() as int) % p,
{
    let r = poly_mul(a, b, p);
    assert forall|k: int| 0 <= k < r.len() implies 0 <= #[trigger] r[k] < p by {
        lemma_mod_bound(conv(a, b, k, a.len() as int), p);
    }
    assert forall|k: int| #[trigger] coeff(r, k) == conv(a, b, k, a.len() as int) % p by {
        if !(0 <= k < r.len()) {
            if a.len() == 0 {
                assert(conv(a, b, k, 0) == 0);
            } else if b.len() == 0 {
                lemma_conv_all_zero(a, b, k, a.len() as int);
            } else {
                lemma_conv_outside(a, b, k, a.len() as int);
            }
            lemma_small_mod(0, p as nat);
        }
    }
}

/// A convolution with the empty polynomial is zero.
pub proof fn lemma_conv_all_zero(a: Seq<int>, b: Seq<int>, k: int, n: int)
    requires
        n >= 0,
        b.len() == 0,
    ensures
        conv(a, b, k, n) == 0,
    decreases n,
{
    if n > 0 {
        lemma_conv_all_zero(a, b, k, n - 1);
        lemma_conv_skip(a, b, k, n - 1);
    }
}

/// A polynomial whose coefficients above `m` are all zero has degree at most
/// `m`.
pub proof fn lemma_degree_bound(s: Seq<int>, m: int)
    requires
        m >= -1,
        forall|i: int| m < i < s.len() ==> s[i] == 0,
    ensures
        degree(s) <= m,
{
    lemma_degree(s);
}

/// Taking a shifted multiple of the divisor from the remainder, with the
/// shift that aligns the two leading terms, keeps the length and the
/// canonical form and does not raise the degree.
pub proof fn lemma_sub_shifted(r: Seq<int>, d: Seq<int>, c: int, p: int)
    requires
        p > 0,
        canonical(r, p),
        0 <= degree(d) <= degree(r),
    ensures
        canonical(sub_shifted(r, d, c, degree(r) - degree(d), p), p),
        sub_shifted(r, d, c, degree(r) - degree(d), p).len() == r.len(),
        degree(sub_shifted(r, d, c, degree(r) - degree(d), p)) <= degree(r),
        forall|k: int|
            0 <= k < r.len() && !(degree(r) - degree(d) <= k <= degree(r))
                ==> #[trigger] sub_shifted(r, d, c, degree(r) - degree(d), p)[k] == r[k],
{
    let shift = degree(r) - degree(d);
    let t = sub_shifted(r, d, c, shift, p);
    lemma_degree(r);
    lemma_degree(d);
    assert forall|k: int| 0 <= k < t.len() implies 0 <= #[trigger] t[k] < p by {
        lemma_mod_bound(r[k] - fmul(c, coeff(d, k - shift), p), p);
    }
    assert forall|k: int| 0 <= k < r.len() && !(shift <= k <= degree(r)) implies #[trigger] t[k]
        == r[k] by {
        assert(coeff(d, k - shift) == 0);
        assert(c * 0 == 0);
        lemma_small_mod(0, p as nat);
        lemma_small_mod(r[k] as nat, p as nat);
    }
    assert forall|k: int| degree(r) < k < t.len() implies t[k] == 0 by {
        assert(coeff(r, k) == 0);
    }
    lemma_degree_bound(t, degree(r));
}

/// The polynomial `x - d` is canonical and has at most two coefficients.
pub proof fn lemma_linear_factor(d: int, p: int)
    requires
        p > 0,
        0 <= d < p,
    ensures
        canonical(linear_factor(d, p), p),
        linear_factor(d, p).len() <= 2,
{
    let x = seq![0int, 1int % p];
    lemma_mod_bound(1, p);
    assert(canonical(x, p));
    assert(canonical(seq![d], p));
    lemma_sub(x, seq![d], p);
}

/// A basis factor is canonical and has at most two coefficients.
pub proof fn lemma_basis_factor(at: int, other: int, p: int)
    requires
        p > 0,
        0 <= other < p,
    ensures
        canonical(basis_factor(at, other, p), p),
        basis_factor(at, other, p).len() <= 2,
{
    lemma_linear_factor(other, p);
    lemma_mul(linear_factor(other, p), seq![finv(fsub(at, other, p), p)], p);
}

/// Two canonical representatives differ by zero modulo `p` only if they are
/// equal.
pub proof fn lemma_fsub_zero(a: int, b: int, p: int)
    requires
        0 <= a < p,
        0 <= b < p,
    ensures
        fsub(a, b, p) == 0 <==> a == b,
        0 <= fsub(a, b, p) < p,
{
    lemma_mod_bound(a - b, p);
    if a >= b {
        lemma_small_mod((a - b) as nat, p as nat);
    } else {
        lemma_mod_plus_multiple(a - b, 1, p);
        lemma_small_mod((a - b + p) as nat, p as nat);
    }
}

} // verus!
