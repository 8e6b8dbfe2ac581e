//! What holds of the polynomial operations: the degree of a product, the
//! identity that long division establishes, and the values of products, sums,
//! zeroifiers and interpolants.

use crate::algebra::{fadd, fdiv, finv, fmul, fneg, fsub, lemma_divide_by_unit};
use crate::number_theory::{
    gcd, is_prime, lemma_add_congruent, lemma_coprime_cancels, lemma_mul_congruent,
    lemma_prime_coprime, lemma_prime_no_zero_divisors,
};
use crate::poly_spec::{
    basis_factor, canonical, coeff, conv, degree, divide_steps, eval_sum, has_collision,
    lagrange_sum, lagrange_term, leading, lemma_add, lemma_basis_factor, lemma_conv_skip,
    lemma_degree, lemma_degree_bound, lemma_degree_unique, lemma_fsub_zero, lemma_mul, lemma_sub,
    lemma_sub_shifted, linear_factor, longer, poly_add, poly_divide, poly_equiv, poly_eval,
    poly_interpolate, poly_modexp, poly_mul, poly_neg, poly_one, poly_pow, poly_scale, poly_sub,
    poly_zeroifier, sub_shifted,
};
use vstd::arithmetic::div_mod::*;
use vstd::arithmetic::power::*;
use vstd::prelude::*;

verus! {

// The degree of a product.

/// A convolution whose left operand vanishes below `n` is zero.
pub proof fn lemma_conv_zero_left(a: Seq<int>, b: Seq<int>, k: int, n: int)
    requires
        forall|i: int| 0 <= i < n ==> coeff(a, i) == 0,
    ensures
        conv(a, b, k, n) == 0,
    decreases n,
{
    if n > 0 {
        lemma_conv_zero_left(a, b, k, n - 1);
        lemma_conv_skip(a, b, k, n - 1);
    }
}

/// Beyond the left operand's length a convolution gains nothing.
pub proof fn lemma_conv_beyond(a: Seq<int>, b: Seq<int>, k: int, n: int)
    requires
        n >= a.len(),
    ensures
        conv(a, b, k, n) == conv(a, b, k, a.len() as int),
    decreases n,
{
    if n > a.len() {
        lemma_conv_beyond(a, b, k, n - 1);
        lemma_conv_skip(a, b, k, n - 1);
    }
}

/// Where the coefficients above `da` and `db` vanish, the convolution at
/// `da + db` is the product of the two coefficients there, and zero above.
pub proof fn lemma_conv_top(a: Seq<int>, b: Seq<int>, k: int, n: int, da: int, db: int)
    requires
        n >= 0,
        da >= 0,
        k >= da + db,
        forall|i: int| da < i ==> coeff(a, i) == 0,
        forall|j: int| db < j ==> coeff(b, j) == 0,
    ensures
        conv(a, b, k, n) == (if k == da + db && n > da {
            coeff(a, da) * coeff(b, db)
        } else {
            0
        }),
    decreases n,
{
    if n > 0 {
        lemma_conv_top(a, b, k, n - 1, da, db);
        let i = n - 1;
        if i > da {
            lemma_conv_skip(a, b, k, i);
        } else if i < da || k > da + db {
            assert(k - i > db);
            lemma_conv_skip(a, b, k, i);
        }
    }
}

/// The degree of a product of two nonzero polynomials whose leading
/// coefficients do not multiply to zero is the sum of their degrees, and its
/// leading coefficient is the product of theirs.
pub proof fn lemma_mul_degree_general(f: Seq<int>, g: Seq<int>, p: int)
    requires
        p > 0,
        degree(f) >= 0,
        degree(g) >= 0,
        fmul(leading(f), leading(g), p) != 0,
    ensures
        degree(poly_mul(f, g, p)) == degree(f) + degree(g),
        leading(poly_mul(f, g, p)) == fmul(leading(f), leading(g), p),
{
    let r = poly_mul(f, g, p);
    let df = degree(f);
    let dg = degree(g);
    lemma_degree(f);
    lemma_degree(g);
    lemma_mul(f, g, p);
    assert forall|k: int| df + dg < k < r.len() implies r[k] == 0 by {
        lemma_conv_top(f, g, k, f.len() as int, df, dg);
        assert(coeff(r, k) == conv(f, g, k, f.len() as int) % p);
        lemma_small_mod(0, p as nat);
    }
    lemma_conv_top(f, g, df + dg, f.len() as int, df, dg);
    assert(coeff(r, df + dg) == conv(f, g, df + dg, f.len() as int) % p);
    lemma_degree_unique(r, df + dg);
}

/// In a prime field the degree of the product of two nonzero polynomials is
/// the sum of their degrees.
pub proof fn lemma_mul_degree(f: Seq<int>, g: Seq<int>, p: int)
    requires
        is_prime(p),
        canonical(f, p),
        canonical(g, p),
        degree(f) >= 0,
        degree(g) >= 0,
    ensures
        degree(poly_mul(f, g, p)) == degree(f) + degree(g),
        leading(poly_mul(f, g, p)) == fmul(leading(f), leading(g), p),
{
    lemma_degree(f);
    lemma_degree(g);
    if fmul(leading(f), leading(g), p) == 0 {
        lemma_prime_no_zero_divisors(leading(f), leading(g), p);
    }
    lemma_mul_degree_general(f, g, p);
}

// Long division.

/// Writing `c` into a quotient at an index where zero stood adds `c` times
/// the shifted divisor to the convolution with the divisor.
pub proof fn lemma_conv_update(q: Seq<int>, d: Seq<int>, k: int, n: int, s: int, c: int)
    requires
        0 <= s < q.len(),
        q[s] == 0,
        0 <= n <= q.len(),
    ensures
        conv(q.update(s, c), d, k, n) == conv(q, d, k, n) + (if s < n {
            c * coeff(d, k - s)
        } else {
            0
        }),
    decreases n,
{
    if n > 0 {
        lemma_conv_update(q, d, k, n - 1, s, c);
        let q2 = q.update(s, c);
        if n - 1 == s {
            assert(coeff(q2, s) == c);
            assert(coeff(q, s) * coeff(d, k - s) == 0) by (nonlinear_arith)
                requires
                    coeff(q, s) == 0,
            ;
        } else {
            assert(coeff(q2, n - 1) == coeff(q, n - 1));
        }
    }
}

/// `n` is `q * d + r`, and the remainder's degree is below the divisor's.
pub open spec fn is_division(n: Seq<int>, d: Seq<int>, q: Seq<int>, r: Seq<int>, p: int) -> bool {
    &&& poly_equiv(n, poly_add(poly_mul(q, d, p), r, p))
    &&& degree(r) < degree(d)
}

/// What holds between two steps of the long division of `n` by `d`: the
/// quotient so far times the divisor, plus the remainder so far, is `n`, and
/// the quotient is still zero wherever a later step may write.
pub open spec fn division_state(
    n: Seq<int>,
    q: Seq<int>,
    r: Seq<int>,
    d: Seq<int>,
    p: int,
) -> bool {
    &&& canonical(q, p)
    &&& canonical(r, p)
    &&& degree(r) - degree(d) < q.len()
    &&& forall|j: int| 0 <= j <= degree(r) - degree(d) ==> q[j] == 0
    &&& forall|k: int| #[trigger]
        coeff(n, k) == (conv(q, d, k, q.len() as int) + coeff(r, k)) % p
}

/// One step of the division by a divisor whose leading coefficient is
/// coprime to the modulus keeps the state and lowers the remainder's degree.
pub proof fn lemma_divide_step(n: Seq<int>, q: Seq<int>, r: Seq<int>, d: Seq<int>, p: int)
    requires
        p > 0,
        canonical(d, p),
        division_state(n, q, r, d, p),
        0 <= degree(d) <= degree(r),
        gcd(leading(d), p) == 1,
    ensures
        ({
            let c = fdiv(leading(r), leading(d), p);
            let shift = degree(r) - degree(d);
            let q2 = q.update(shift, c);
            let r2 = sub_shifted(r, d, c, shift, p);
            &&& division_state(n, q2, r2, d, p)
            &&& degree(r2) < degree(r)
        }),
{
    let c = fdiv(leading(r), leading(d), p);
    let shift = degree(r) - degree(d);
    let q2 = q.update(shift, c);
    let r2 = sub_shifted(r, d, c, shift, p);
    let dr = degree(r);
    let dd = degree(d);
    lemma_degree(r);
    lemma_degree(d);
    lemma_sub_shifted(r, d, c, p);
    lemma_divide_by_unit(leading(r), leading(d), p);
    lemma_mod_bound(leading(r) * finv(leading(d), p), p);
    assert(0 <= c < p);
    // the leading term is cancelled
    assert(r2[dr] == 0) by {
        assert(coeff(d, dr - shift) == leading(d));
        assert(r2[dr] == fsub(r[dr], fmul(c, leading(d), p), p));
        assert(fmul(c, leading(d), p) == leading(r));
        lemma_small_mod(0, p as nat);
    }
    assert forall|k: int| dr - 1 < k < r2.len() implies r2[k] == 0 by {
        if k > dr {
            assert(coeff(r, k) == 0);
        }
    }
    lemma_degree_bound(r2, dr - 1);
    assert(canonical(q2, p)) by {
        assert forall|j: int| 0 <= j < q2.len() implies 0 <= #[trigger] q2[j] < p by {
            if j != shift {
                assert(q2[j] == q[j]);
            }
        }
    }
    assert forall|k: int| #[trigger]
        coeff(n, k) == (conv(q2, d, k, q2.len() as int) + coeff(r2, k)) % p by {
        lemma_conv_update(q, d, k, q.len() as int, shift, c);
        let t = c * coeff(d, k - shift);
        let base = conv(q, d, k, q.len() as int);
        assert(conv(q2, d, k, q2.len() as int) == base + t);
        // coeff(r2, k) is coeff(r, k) - t modulo p
        assert(coeff(r2, k) % p == (coeff(r, k) - t) % p) by {
            if 0 <= k < r.len() {
                lemma_mod_bound(r[k] - fmul(c, coeff(d, k - shift), p), p);
                lemma_small_mod(r2[k] as nat, p as nat);
                lemma_sub_mod_noop_right(r[k], t, p);
            } else {
                assert(coeff(d, k - shift) == 0);
                assert(c * 0 == 0);
            }
        }
        lemma_add_congruent(base + t, base + t, coeff(r2, k), coeff(r, k) - t, p);
        assert(coeff(n, k) == (base + coeff(r, k)) % p);
    }
}

/// The division by a divisor whose leading coefficient is coprime to the
/// modulus, run for enough steps, ends with a remainder of lower degree
/// than the divisor and keeps the state.
pub proof fn lemma_divide_steps(
    n: Seq<int>,
    q: Seq<int>,
    r: Seq<int>,
    d: Seq<int>,
    p: int,
    steps: nat,
)
    requires
        p > 0,
        canonical(d, p),
        division_state(n, q, r, d, p),
        0 <= degree(d),
        gcd(leading(d), p) == 1,
        steps >= degree(r) - degree(d) + 1,
    ensures
        ({
            let (qf, rf) = divide_steps(q, r, d, p, steps);
            &&& division_state(n, qf, rf, d, p)
            &&& degree(rf) < degree(d)
            &&& qf.len() == q.len()
        }),
    decreases steps,
{
    if steps == 0 || degree(r) < degree(d) {
    } else {
        lemma_divide_step(n, q, r, d, p);
        let c = fdiv(leading(r), leading(d), p);
        let shift = degree(r) - degree(d);
        lemma_divide_steps(
            n,
            q.update(shift, c),
            sub_shifted(r, d, c, shift, p),
            d,
            p,
            (steps - 1) as nat,
        );
    }
}

/// Long division by a polynomial whose leading coefficient is coprime to the
/// modulus returns a quotient and a remainder with
/// `n == q * d + r` and `degree(r) < degree(d)`.
pub proof fn lemma_divide_general(n: Seq<int>, d: Seq<int>, p: int)
    requires
        p > 0,
        canonical(n, p),
        canonical(d, p),
        degree(d) >= 0,
        gcd(leading(d), p) == 1,
    ensures
        is_division(n, d, poly_divide(n, d, p).0, poly_divide(n, d, p).1, p),
        canonical(poly_divide(n, d, p).0, p),
        canonical(poly_divide(n, d, p).1, p),
{
    let (q, r) = poly_divide(n, d, p);
    lemma_degree(n);
    lemma_degree(d);
    if degree(n) < degree(d) {
        assert(q.len() == 0);
        lemma_mul(q, d, p);
        assert(poly_mul(q, d, p) =~= Seq::<int>::empty());
        assert(poly_add(poly_mul(q, d, p), r, p) == r);
    } else {
        let len = (degree(n) - degree(d) + 1) as nat;
        let zeros = Seq::new(len, |i: int| 0int);
        assert(division_state(n, zeros, n, d, p)) by {
            assert forall|k: int| #[trigger]
                coeff(n, k) == (conv(zeros, d, k, zeros.len() as int) + coeff(n, k)) % p by {
                lemma_conv_zero_left(zeros, d, k, zeros.len() as int);
                if 0 <= k < n.len() {
                    lemma_small_mod(n[k] as nat, p as nat);
                } else {
                    lemma_small_mod(0, p as nat);
                }
            }
        }
        lemma_divide_steps(n, zeros, n, d, p, len);
        lemma_mul(q, d, p);
        lemma_add(poly_mul(q, d, p), r, p);
        let product = poly_mul(q, d, p);
        let back = poly_add(product, r, p);
        assert forall|k: int| #[trigger] coeff(n, k) == coeff(back, k) by {
            assert(coeff(back, k) == (coeff(product, k) + coeff(r, k)) % p);
            assert(coeff(product, k) == conv(q, d, k, q.len() as int) % p);
            let sum = conv(q, d, k, q.len() as int);
            lemma_mod_twice(sum, p);
            lemma_add_congruent(sum % p, sum, coeff(r, k), coeff(r, k), p);
        }
    }
}

/// Long division in a prime field by a nonzero polynomial returns a
/// quotient and a remainder with `n == q * d + r` and
/// `degree(r) < degree(d)`.
pub proof fn lemma_divide(n: Seq<int>, d: Seq<int>, p: int)
    requires
        is_prime(p),
        canonical(n, p),
        canonical(d, p),
        degree(d) >= 0,
    ensures
        is_division(n, d, poly_divide(n, d, p).0, poly_divide(n, d, p).1, p),
        canonical(poly_divide(n, d, p).0, p),
        canonical(poly_divide(n, d, p).1, p),
{
    lemma_degree(d);
    lemma_prime_coprime(leading(d), p);
    lemma_divide_general(n, d, p);
}

// Sums of convolutions under weights, with which the value of a product
// and the associativity of the product are proved.

/// The sum over `m < count` of the convolution at `m` times the weight of
/// `m`.
pub open spec fn weighted_conv(
    a: Seq<int>,
    b: Seq<int>,
    w: spec_fn(int) -> int,
    n: int,
    count: int,
) -> int
    decreases count,
{
    if count <= 0 {
        0
    } else {
        weighted_conv(a, b, w, n, count - 1) + conv(a, b, count - 1, n) * w(count - 1)
    }
}

/// The sum over `m < count` of the coefficient of `b` at `m - shift` times
/// the weight of `m`.
pub open spec fn weighted_shift(b: Seq<int>, w: spec_fn(int) -> int, shift: int, count: int) -> int
    decreases count,
{
    if count <= 0 {
        0
    } else {
        weighted_shift(b, w, shift, count - 1) + coeff(b, count - 1 - shift) * w(count - 1)
    }
}

/// One more term of each convolution adds the next coefficient of `a` times
/// the weighted sum of the shifted `b`.
pub proof fn lemma_weighted_conv_step(
    a: Seq<int>,
    b: Seq<int>,
    w: spec_fn(int) -> int,
    n: int,
    count: int,
)
    requires
        n >= 0,
    ensures
        weighted_conv(a, b, w, n + 1, count) == weighted_conv(a, b, w, n, count) + coeff(a, n)
            * weighted_shift(b, w, n, count),
    decreases count,
{
    if count > 0 {
        lemma_weighted_conv_step(a, b, w, n, count - 1);
        let m = count - 1;
        let x = conv(a, b, m, n);
        let an = coeff(a, n);
        let bm = coeff(b, m - n);
        let wm = w(m);
        let rest = weighted_shift(b, w, n, m);
        assert(conv(a, b, m, n + 1) == x + an * bm);
        assert((x + an * bm) * wm == x * wm + an * (bm * wm)) by (nonlinear_arith);
        assert(an * (rest + bm * wm) == an * rest + an * (bm * wm)) by (nonlinear_arith);
    } else {
        assert(coeff(a, n) * 0 == 0);
    }
}

/// With no terms in the convolutions the weighted sum is zero.
pub proof fn lemma_weighted_conv_zero(a: Seq<int>, b: Seq<int>, w: spec_fn(int) -> int, count: int)
    ensures
        weighted_conv(a, b, w, 0, count) == 0,
    decreases count,
{
    if count > 0 {
        lemma_weighted_conv_zero(a, b, w, count - 1);
        assert(conv(a, b, count - 1, 0) == 0);
        assert(0 * w(count - 1) == 0);
    }
}

/// The weight `x^m` of the index `m`.
pub open spec fn power_weight(x: int) -> spec_fn(int) -> int {
    |m: int| pow(x, m as nat)
}

// The values of sums, differences and products.

/// Beyond the sequence the sum of the terms gains nothing.
pub proof fn lemma_eval_sum_beyond(s: Seq<int>, x: int, n: int)
    requires
        n >= s.len(),
    ensures
        eval_sum(s, x, n) == eval_sum(s, x, s.len() as int),
    decreases n,
{
    if n > s.len() {
        lemma_eval_sum_beyond(s, x, n - 1);
        assert(coeff(s, n - 1) * pow(x, (n - 1) as nat) == 0) by (nonlinear_arith)
            requires
                coeff(s, n - 1) == 0,
        ;
    }
}

/// Sequences that agree on their first `n` coefficients have the same sum
/// of the first `n` terms.
pub proof fn lemma_eval_sum_agree(a: Seq<int>, b: Seq<int>, x: int, n: int)
    requires
        forall|i: int| 0 <= i < n ==> coeff(a, i) == coeff(b, i),
    ensures
        eval_sum(a, x, n) == eval_sum(b, x, n),
    decreases n,
{
    if n > 0 {
        lemma_eval_sum_agree(a, b, x, n - 1);
    }
}

/// Sequences that spell the same polynomial have the same values.
pub proof fn lemma_eval_equiv(a: Seq<int>, b: Seq<int>, x: int, p: int)
    requires
        poly_equiv(a, b),
    ensures
        poly_eval(a, x, p) == poly_eval(b, x, p),
{
    let n = longer(a.len(), b.len()) as int;
    lemma_eval_sum_beyond(a, x, n);
    lemma_eval_sum_beyond(b, x, n);
    assert forall|i: int| 0 <= i < n implies coeff(a, i) == coeff(b, i) by {
        assert(coeff(a, i) == coeff(b, i));
    }
    lemma_eval_sum_agree(a, b, x, n);
}

/// Where each coefficient of `c` is that of `a` plus `t` times that of `b`,
/// modulo `p`, so is the sum of the terms.
pub proof fn lemma_eval_sum_linear(
    c: Seq<int>,
    a: Seq<int>,
    b: Seq<int>,
    t: int,
    x: int,
    p: int,
    n: int,
)
    requires
        p > 0,
        forall|i: int| 0 <= i < n ==> coeff(c, i) % p == (coeff(a, i) + t * coeff(b, i)) % p,
    ensures
        eval_sum(c, x, n) % p == (eval_sum(a, x, n) + t * eval_sum(b, x, n)) % p,
    decreases n,
{
    if n > 0 {
        lemma_eval_sum_linear(c, a, b, t, x, p, n - 1);
        let i = n - 1;
        let xi = pow(x, i as nat);
        let ci = coeff(c, i);
        let ai = coeff(a, i);
        let bi = coeff(b, i);
        lemma_mul_congruent(ci, ai + t * bi, xi, xi, p);
        lemma_add_congruent(
            eval_sum(c, x, i),
            eval_sum(a, x, i) + t * eval_sum(b, x, i),
            ci * xi,
            (ai + t * bi) * xi,
            p,
        );
        assert(eval_sum(a, x, i) + t * eval_sum(b, x, i) + (ai + t * bi) * xi == (eval_sum(a, x, i)
            + ai * xi) + t * (eval_sum(b, x, i) + bi * xi)) by (nonlinear_arith);
    } else {
        assert(t * 0 == 0);
    }
}

/// The value of a sum is the sum of the values.
pub proof fn lemma_eval_add(a: Seq<int>, b: Seq<int>, x: int, p: int)
    requires
        p > 0,
        canonical(a, p),
        canonical(b, p),
    ensures
        poly_eval(poly_add(a, b, p), x, p) == fadd(poly_eval(a, x, p), poly_eval(b, x, p), p),
{
    let c = poly_add(a, b, p);
    let n = longer(a.len(), b.len()) as int;
    lemma_add(a, b, p);
    lemma_eval_sum_beyond(a, x, n);
    lemma_eval_sum_beyond(b, x, n);
    lemma_eval_sum_beyond(c, x, n);
    assert forall|i: int| 0 <= i < n implies coeff(c, i) % p == (coeff(a, i) + 1 * coeff(b, i))
        % p by {
        assert(coeff(c, i) == (coeff(a, i) + coeff(b, i)) % p);
        lemma_mod_twice(coeff(a, i) + coeff(b, i), p);
    }
    lemma_eval_sum_linear(c, a, b, 1, x, p, n);
    lemma_add_mod_noop(eval_sum(a, x, n), eval_sum(b, x, n), p);
}

/// The value of a difference is the difference of the values.
pub proof fn lemma_eval_sub(a: Seq<int>, b: Seq<int>, x: int, p: int)
    requires
        p > 0,
        canonical(a, p),
        canonical(b, p),
    ensures
        poly_eval(poly_sub(a, b, p), x, p) == fsub(poly_eval(a, x, p), poly_eval(b, x, p), p),
{
    let c = poly_sub(a, b, p);
    let n = longer(a.len(), b.len()) as int;
    lemma_sub(a, b, p);
    lemma_eval_sum_beyond(a, x, n);
    lemma_eval_sum_beyond(b, x, n);
    lemma_eval_sum_beyond(c, x, n);
    assert forall|i: int| 0 <= i < n implies coeff(c, i) % p == (coeff(a, i) + (-1) * coeff(b, i))
        % p by {
        assert(coeff(c, i) == (coeff(a, i) - coeff(b, i)) % p);
        lemma_mod_twice(coeff(a, i) - coeff(b, i), p);
    }
    lemma_eval_sum_linear(c, a, b, -1, x, p, n);
    lemma_sub_mod_noop(eval_sum(a, x, n), eval_sum(b, x, n), p);
}

/// The weighted sum of the shifted `b` under the weights `x^m` is `x^shift`
/// times the sum of the terms of `b`.
pub proof fn lemma_weighted_shift_power(b: Seq<int>, x: int, shift: int, count: int)
    requires
        shift >= 0,
    ensures
        weighted_shift(b, power_weight(x), shift, count) == pow(x, shift as nat) * eval_sum(
            b,
            x,
            count - shift,
        ),
    decreases count,
{
    let w = power_weight(x);
    let xs = pow(x, shift as nat);
    if count > 0 {
        lemma_weighted_shift_power(b, x, shift, count - 1);
        let m = count - 1;
        assert(w(m) == pow(x, m as nat));
        if m - shift < 0 {
            assert(coeff(b, m - shift) * w(m) == 0) by (nonlinear_arith)
                requires
                    coeff(b, m - shift) == 0,
            ;
            assert(eval_sum(b, x, count - shift) == 0);
            assert(eval_sum(b, x, m - shift) == 0);
        } else {
            let j = m - shift;
            let bj = coeff(b, j);
            let xj = pow(x, j as nat);
            lemma_pow_adds(x, shift as nat, j as nat);
            assert(eval_sum(b, x, count - shift) == eval_sum(b, x, j) + bj * xj);
            assert(xs * (eval_sum(b, x, j) + bj * xj) == xs * eval_sum(b, x, j) + bj * (xs * xj))
                by (nonlinear_arith);
        }
    } else {
        assert(eval_sum(b, x, count - shift) == 0);
        assert(xs * 0 == 0);
    }
}

/// Under the weights `x^m` the weighted sum of the convolutions is the
/// product of the two sums of terms.
pub proof fn lemma_weighted_conv_power(a: Seq<int>, b: Seq<int>, x: int, n: int, count: int)
    requires
        0 <= n,
        count >= n - 1 + b.len(),
    ensures
        weighted_conv(a, b, power_weight(x), n, count) == eval_sum(a, x, n) * eval_sum(
            b,
            x,
            b.len() as int,
        ),
    decreases n,
{
    let w = power_weight(x);
    let eb = eval_sum(b, x, b.len() as int);
    if n == 0 {
        lemma_weighted_conv_zero(a, b, w, count);
        assert(0 * eb == 0);
    } else {
        lemma_weighted_conv_power(a, b, x, n - 1, count);
        lemma_weighted_conv_step(a, b, w, n - 1, count);
        lemma_weighted_shift_power(b, x, n - 1, count);
        lemma_eval_sum_beyond(b, x, count - (n - 1));
        let an = coeff(a, n - 1);
        let xn = pow(x, (n - 1) as nat);
        let ea = eval_sum(a, x, n - 1);
        assert(ea * eb + an * (xn * eb) == (ea + an * xn) * eb) by (nonlinear_arith);
    }
}

/// Where the coefficients of `c` are the convolutions of `a` and `b` modulo
/// `p`, the sum of its terms is their weighted sum modulo `p`.
pub proof fn lemma_eval_sum_product(
    c: Seq<int>,
    a: Seq<int>,
    b: Seq<int>,
    x: int,
    p: int,
    count: int,
)
    requires
        p > 0,
        forall|k: int| 0 <= k < count ==> coeff(c, k) % p == conv(a, b, k, a.len() as int) % p,
    ensures
        eval_sum(c, x, count) % p == weighted_conv(
            a,
            b,
            power_weight(x),
            a.len() as int,
            count,
        ) % p,
    decreases count,
{
    if count > 0 {
        lemma_eval_sum_product(c, a, b, x, p, count - 1);
        let m = count - 1;
        let w = power_weight(x);
        assert(w(m) == pow(x, m as nat));
        lemma_mul_congruent(coeff(c, m), conv(a, b, m, a.len() as int), w(m), w(m), p);
        lemma_add_congruent(
            eval_sum(c, x, m),
            weighted_conv(a, b, w, a.len() as int, m),
            coeff(c, m) * w(m),
            conv(a, b, m, a.len() as int) * w(m),
            p,
        );
    }
}

/// The value of a product is the product of the values.
pub proof fn lemma_eval_mul(a: Seq<int>, b: Seq<int>, x: int, p: int)
    requires
        p > 0,
    ensures
        poly_eval(poly_mul(a, b, p), x, p) == fmul(poly_eval(a, x, p), poly_eval(b, x, p), p),
{
    let c = poly_mul(a, b, p);
    lemma_mul(a, b, p);
    let ea = eval_sum(a, x, a.len() as int);
    let eb = eval_sum(b, x, b.len() as int);
    lemma_mul_mod_noop(ea, eb, p);
    if a.len() == 0 || b.len() == 0 {
        assert(eval_sum(c, x, 0) == 0);
        assert(ea * eb == 0) by (nonlinear_arith)
            requires
                ea == 0 || eb == 0,
        ;
    } else {
        let count = a.len() + b.len() - 1;
        assert forall|k: int| 0 <= k < count implies coeff(c, k) % p == conv(
            a,
            b,
            k,
            a.len() as int,
        ) % p by {
            assert(coeff(c, k) == conv(a, b, k, a.len() as int) % p);
            lemma_mod_twice(conv(a, b, k, a.len() as int), p);
        }
        lemma_eval_sum_product(c, a, b, x, p, count);
        lemma_weighted_conv_power(a, b, x, a.len() as int, count);
    }
}

/// The value of a constant polynomial is the constant.
pub proof fn lemma_eval_constant(v: int, x: int, p: int)
    requires
        p > 0,
    ensures
        poly_eval(seq![v], x, p) == v % p,
{
    let s = seq![v];
    lemma_pow0(x);
    assert(eval_sum(s, x, 0) == 0);
    assert(eval_sum(s, x, 1) == eval_sum(s, x, 0) + coeff(s, 0) * pow(x, 0));
    assert(v * 1 == v);
}

/// The value of `x - d` at a point is the point less `d`.
pub proof fn lemma_eval_linear_factor(d: int, x: int, p: int)
    requires
        p > 0,
        0 <= d < p,
    ensures
        poly_eval(linear_factor(d, p), x, p) == fsub(x, d, p),
{
    let ind = seq![0int, 1int % p];
    lemma_mod_bound(1, p);
    assert(canonical(ind, p));
    assert(canonical(seq![d], p));
    lemma_eval_sub(ind, seq![d], x, p);
    lemma_eval_constant(d, x, p);
    lemma_pow0(x);
    lemma_pow1(x);
    assert(eval_sum(ind, x, 0) == 0);
    assert(eval_sum(ind, x, 1) == eval_sum(ind, x, 0) + coeff(ind, 0) * pow(x, 0));
    assert(eval_sum(ind, x, 2) == eval_sum(ind, x, 1) + coeff(ind, 1) * pow(x, 1));
    assert(0 * pow(x, 0) == 0);
    assert(poly_eval(ind, x, p) == ((1int % p) * x) % p);
    lemma_mul_mod_noop_left(1, x, p);
    assert(1 * x == x);
    lemma_sub_mod_noop(x, d, p);
}

// The zeroifier.

/// The product of `x - d` over the points `d`, in the field.
pub open spec fn root_product(domain: Seq<int>, x: int, p: int) -> int
    decreases domain.len(),
{
    if domain.len() == 0 {
        1int % p
    } else {
        fmul(root_product(domain.drop_last(), x, p), fsub(x, domain.last(), p), p)
    }
}

/// The zeroifier is canonical, and its value at a point is the product of
/// the differences between the point and the points of the domain.
pub proof fn lemma_zeroifier_eval(domain: Seq<int>, x: int, p: int)
    requires
        p > 0,
        canonical(domain, p),
    ensures
        canonical(poly_zeroifier(domain, p), p),
        poly_eval(poly_zeroifier(domain, p), x, p) == root_product(domain, x, p),
    decreases domain.len(),
{
    if domain.len() == 0 {
        lemma_mod_bound(1, p);
        lemma_eval_constant(1int % p, x, p);
        lemma_mod_twice(1, p);
        assert(canonical(poly_one(p), p));
    } else {
        let rest = domain.drop_last();
        assert(canonical(rest, p)) by {
            assert forall|i: int| 0 <= i < rest.len() implies 0 <= #[trigger] rest[i] < p by {
                assert(rest[i] == domain[i]);
            }
        }
        lemma_zeroifier_eval(rest, x, p);
        lemma_mul(poly_zeroifier(rest, p), linear_factor(domain.last(), p), p);
        lemma_eval_mul(poly_zeroifier(rest, p), linear_factor(domain.last(), p), x, p);
        lemma_eval_linear_factor(domain.last(), x, p);
    }
}

/// The zeroifier of a domain evaluates to zero at every point of the
/// domain.
pub proof fn lemma_zeroifier_vanishes(domain: Seq<int>, i: int, p: int)
    requires
        p > 0,
        canonical(domain, p),
        0 <= i < domain.len(),
    ensures
        poly_eval(poly_zeroifier(domain, p), domain[i], p) == 0,
{
    lemma_zeroifier_eval(domain, domain[i], p);
    lemma_root_product_vanishes(domain, i, p);
}

/// The product of the differences vanishes at a point of the domain.
pub proof fn lemma_root_product_vanishes(domain: Seq<int>, i: int, p: int)
    requires
        p > 0,
        canonical(domain, p),
        0 <= i < domain.len(),
    ensures
        root_product(domain, domain[i], p) == 0,
    decreases domain.len(),
{
    let x = domain[i];
    let rest = domain.drop_last();
    let head = root_product(rest, x, p);
    lemma_small_mod(0, p as nat);
    if i == domain.len() - 1 {
        lemma_fsub_zero(x, domain.last(), p);
        assert(head * 0 == 0);
    } else {
        assert(canonical(rest, p)) by {
            assert forall|j: int| 0 <= j < rest.len() implies 0 <= #[trigger] rest[j] < p by {
                assert(rest[j] == domain[j]);
            }
        }
        assert(rest[i] == x);
        lemma_root_product_vanishes(rest, i, p);
        assert(0 * fsub(x, domain.last(), p) == 0);
    }
}

/// The zeroifier of a domain does not vanish at a point that differs from
/// every point of the domain by a number coprime to the modulus.
pub proof fn lemma_zeroifier_nonzero_apart(domain: Seq<int>, x: int, p: int)
    requires
        p > 1,
        canonical(domain, p),
        0 <= x < p,
        forall|i: int| 0 <= i < domain.len() ==> gcd(fsub(x, #[trigger] domain[i], p), p) == 1,
    ensures
        poly_eval(poly_zeroifier(domain, p), x, p) != 0,
        0 < root_product(domain, x, p) < p,
    decreases domain.len(),
{
    lemma_zeroifier_eval(domain, x, p);
    if domain.len() == 0 {
        lemma_small_mod(1, p as nat);
    } else {
        let rest = domain.drop_last();
        assert(canonical(rest, p)) by {
            assert forall|j: int| 0 <= j < rest.len() implies 0 <= #[trigger] rest[j] < p by {
                assert(rest[j] == domain[j]);
            }
        }
        assert forall|j: int| 0 <= j < rest.len() implies gcd(
            fsub(x, #[trigger] rest[j], p),
            p,
        ) == 1 by {
            assert(rest[j] == domain[j]);
        }
        lemma_zeroifier_nonzero_apart(rest, x, p);
        lemma_canonical_index(domain, domain.len() - 1, p);
        lemma_fsub_zero(x, domain.last(), p);
        let head = root_product(rest, x, p);
        let last = fsub(x, domain.last(), p);
        assert(gcd(fsub(x, domain[domain.len() - 1], p), p) == 1);
        lemma_mod_bound(head * last, p);
        if fmul(head, last, p) == 0 {
            assert(head * last == last * head) by (nonlinear_arith);
            lemma_coprime_cancels(last, head, p);
            lemma_small_mod(head as nat, p as nat);
        }
    }
}

/// In a prime field the zeroifier of a domain does not vanish at a point
/// outside the domain.
pub proof fn lemma_zeroifier_nonzero_outside(domain: Seq<int>, x: int, p: int)
    requires
        is_prime(p),
        canonical(domain, p),
        0 <= x < p,
        forall|i: int| 0 <= i < domain.len() ==> domain[i] != x,
    ensures
        poly_eval(poly_zeroifier(domain, p), x, p) != 0,
{
    assert forall|i: int| 0 <= i < domain.len() implies gcd(
        fsub(x, #[trigger] domain[i], p),
        p,
    ) == 1 by {
        lemma_fsub_zero(x, domain[i], p);
        lemma_prime_coprime(fsub(x, domain[i], p), p);
    }
    lemma_zeroifier_nonzero_apart(domain, x, p);
}

// The interpolant.

/// The value of a basis factor at a point is the point less the root,
/// times the inverse of the distance between the two points of the factor.
pub proof fn lemma_eval_basis_factor(at: int, other: int, x: int, p: int)
    requires
        p > 0,
        0 <= other < p,
    ensures
        poly_eval(basis_factor(at, other, p), x, p) == fmul(
            fsub(x, other, p),
            finv(fsub(at, other, p), p),
            p,
        ),
{
    let inv = finv(fsub(at, other, p), p);
    lemma_eval_mul(linear_factor(other, p), seq![inv], x, p);
    lemma_eval_linear_factor(other, x, p);
    lemma_eval_constant(inv, x, p);
    lemma_mul_mod_noop_right(fsub(x, other, p), inv, p);
}

/// A prefix of a canonical sequence is canonical.
pub proof fn lemma_canonical_index(s: Seq<int>, i: int, p: int)
    requires
        canonical(s, p),
        0 <= i < s.len(),
    ensures
        0 <= s[i] < p,
{
}

/// A Lagrange term is canonical and has at most one coefficient more than
/// it has factors.
pub proof fn lemma_lagrange_term(domain: Seq<int>, value: int, i: int, m: int, p: int)
    requires
        p > 0,
        canonical(domain, p),
        0 <= value < p,
        0 <= i < domain.len(),
        0 <= m <= domain.len(),
    ensures
        canonical(lagrange_term(domain, value, i, m, p), p),
        1 <= lagrange_term(domain, value, i, m, p).len() <= m + 1,
        m > i ==> lagrange_term(domain, value, i, m, p).len() <= m,
    decreases m,
{
    if m <= 0 {
        assert(canonical(seq![value], p));
    } else {
        lemma_lagrange_term(domain, value, i, m - 1, p);
        if m - 1 != i {
            lemma_canonical_index(domain, m - 1, p);
            lemma_basis_factor(domain[i], domain[m - 1], p);
            lemma_mul(
                lagrange_term(domain, value, i, m - 1, p),
                basis_factor(domain[i], domain[m - 1], p),
                p,
            );
            lemma_linear_factor_nonempty(domain[m - 1], p);
            lemma_mul(
                linear_factor(domain[m - 1], p),
                seq![finv(fsub(domain[i], domain[m - 1], p), p)],
                p,
            );
        }
    }
}

/// The polynomial `x - d` has at least one coefficient.
pub proof fn lemma_linear_factor_nonempty(d: int, p: int)
    requires
        p > 0,
    ensures
        linear_factor(d, p).len() >= 1,
{
    let ind = seq![0int, 1int % p];
    let nd = poly_neg(seq![d], p);
    assert(nd.len() == 1);
    assert(ind.len() == 2);
}

/// The sum of the first `n` Lagrange terms is canonical and has at most as
/// many coefficients as there are points.
pub proof fn lemma_lagrange_sum(domain: Seq<int>, values: Seq<int>, n: int, p: int)
    requires
        p > 0,
        canonical(domain, p),
        canonical(values, p),
        domain.len() == values.len(),
        0 <= n <= domain.len(),
    ensures
        canonical(lagrange_sum(domain, values, n, p), p),
        lagrange_sum(domain, values, n, p).len() <= domain.len(),
    decreases n,
{
    if n > 0 {
        lemma_lagrange_sum(domain, values, n - 1, p);
        lemma_canonical_index(values, n - 1, p);
        lemma_lagrange_term(domain, values[n - 1], n - 1, domain.len() as int, p);
        lemma_add(
            lagrange_sum(domain, values, n - 1, p),
            lagrange_term(domain, values[n - 1], n - 1, domain.len() as int, p),
            p,
        );
    }
}

/// Every two of the points differ by a number coprime to the modulus. In a
/// prime field these are the points that are pairwise distinct.
pub open spec fn units_apart(domain: Seq<int>, p: int) -> bool {
    forall|i: int, j: int|
        0 <= i < domain.len() && 0 <= j < domain.len() && i != j ==> gcd(
            #[trigger] fsub(domain[i], domain[j], p),
            p,
        ) == 1
}

/// In a prime field distinct points are units apart.
pub proof fn lemma_distinct_units_apart(domain: Seq<int>, p: int)
    requires
        is_prime(p),
        canonical(domain, p),
        !has_collision(domain),
    ensures
        units_apart(domain, p),
{
    assert forall|i: int, j: int|
        0 <= i < domain.len() && 0 <= j < domain.len() && i != j implies gcd(
        #[trigger] fsub(domain[i], domain[j], p),
        p,
    ) == 1 by {
        lemma_canonical_index(domain, i, p);
        lemma_canonical_index(domain, j, p);
        if domain[i] == domain[j] {
            if i < j {
                assert(0 <= i < j < domain.len() && domain[i] == domain[j]);
            } else {
                assert(0 <= j < i < domain.len() && domain[j] == domain[i]);
            }
        }
        lemma_fsub_zero(domain[i], domain[j], p);
        lemma_prime_coprime(fsub(domain[i], domain[j], p), p);
    }
}

/// Over points that are units apart, a Lagrange term takes its value at its
/// own point.
pub proof fn lemma_term_at_own_point(domain: Seq<int>, value: int, i: int, m: int, p: int)
    requires
        p > 0,
        canonical(domain, p),
        units_apart(domain, p),
        0 <= value < p,
        0 <= i < domain.len(),
        0 <= m <= domain.len(),
    ensures
        poly_eval(lagrange_term(domain, value, i, m, p), domain[i], p) == value,
    decreases m,
{
    let x = domain[i];
    if m <= 0 {
        lemma_eval_constant(value, x, p);
        lemma_small_mod(value as nat, p as nat);
    } else {
        lemma_term_at_own_point(domain, value, i, m - 1, p);
        if m - 1 != i {
            let other = domain[m - 1];
            lemma_canonical_index(domain, m - 1, p);
            lemma_canonical_index(domain, i, p);
            assert(gcd(fsub(domain[i], domain[m - 1], p), p) == 1);
            lemma_eval_mul(
                lagrange_term(domain, value, i, m - 1, p),
                basis_factor(x, other, p),
                x,
                p,
            );
            lemma_eval_basis_factor(x, other, x, p);
            lemma_fsub_zero(x, other, p);
            let distance = fsub(x, other, p);
            lemma_divide_by_unit(0, distance, p);
            assert(distance * finv(distance, p) == finv(distance, p) * distance)
                by (nonlinear_arith);
            lemma_mul_mod_noop_right(value, 1, p);
            assert(value * 1 == value);
            lemma_small_mod(value as nat, p as nat);
        }
    }
}

/// A Lagrange term vanishes at every other point that its factors cover.
pub proof fn lemma_term_at_other_point(
    domain: Seq<int>,
    value: int,
    i: int,
    m: int,
    k: int,
    p: int,
)
    requires
        p > 0,
        canonical(domain, p),
        0 <= i < domain.len(),
        0 <= k < m <= domain.len(),
        k != i,
    ensures
        poly_eval(lagrange_term(domain, value, i, m, p), domain[k], p) == 0,
    decreases m,
{
    let x = domain[k];
    lemma_small_mod(0, p as nat);
    if m - 1 == i {
        lemma_term_at_other_point(domain, value, i, m - 1, k, p);
    } else {
        let other = domain[m - 1];
        let before = lagrange_term(domain, value, i, m - 1, p);
        lemma_canonical_index(domain, m - 1, p);
        lemma_canonical_index(domain, k, p);
        lemma_eval_mul(before, basis_factor(domain[i], other, p), x, p);
        lemma_eval_basis_factor(domain[i], other, x, p);
        if m - 1 == k {
            lemma_fsub_zero(x, other, p);
            assert(0 * finv(fsub(domain[i], other, p), p) == 0);
            assert(poly_eval(before, x, p) * 0 == 0);
        } else {
            lemma_term_at_other_point(domain, value, i, m - 1, k, p);
            assert(0 * poly_eval(basis_factor(domain[i], other, p), x, p) == 0);
        }
    }
}

/// Over points that are units apart, the sum of the first `n` Lagrange
/// terms takes at a point the value of that point if its term is among
/// them, and zero else.
pub proof fn lemma_lagrange_sum_eval(domain: Seq<int>, values: Seq<int>, n: int, k: int, p: int)
    requires
        p > 0,
        canonical(domain, p),
        canonical(values, p),
        units_apart(domain, p),
        domain.len() == values.len(),
        0 <= n <= domain.len(),
        0 <= k < domain.len(),
    ensures
        poly_eval(lagrange_sum(domain, values, n, p), domain[k], p) == (if k < n {
            values[k]
        } else {
            0
        }),
    decreases n,
{
    let x = domain[k];
    lemma_small_mod(0, p as nat);
    if n <= 0 {
        assert(eval_sum(Seq::<int>::empty(), x, 0) == 0);
    } else {
        let i = n - 1;
        let before = lagrange_sum(domain, values, i, p);
        let term = lagrange_term(domain, values[i], i, domain.len() as int, p);
        lemma_lagrange_sum_eval(domain, values, i, k, p);
        lemma_lagrange_sum(domain, values, i, p);
        lemma_canonical_index(values, i, p);
        lemma_canonical_index(values, k, p);
        lemma_lagrange_term(domain, values[i], i, domain.len() as int, p);
        lemma_eval_add(before, term, x, p);
        if i == k {
            lemma_term_at_own_point(domain, values[i], i, domain.len() as int, p);
        } else {
            lemma_term_at_other_point(domain, values[i], i, domain.len() as int, k, p);
        }
        lemma_small_mod(values[k] as nat, p as nat);
    }
}

/// The interpolant through points whose abscissas are units apart, as
/// distinct points of a prime field are, takes at each of them the value
/// given for it, and its degree is below the number of points.
pub proof fn lemma_interpolate_eval(domain: Seq<int>, values: Seq<int>, k: int, p: int)
    requires
        p > 0,
        canonical(domain, p),
        canonical(values, p),
        units_apart(domain, p),
        domain.len() == values.len(),
        0 <= k < domain.len(),
    ensures
        poly_eval(poly_interpolate(domain, values, p), domain[k], p) == values[k],
        degree(poly_interpolate(domain, values, p)) < domain.len(),
        canonical(poly_interpolate(domain, values, p), p),
{
    lemma_lagrange_sum_eval(domain, values, domain.len() as int, k, p);
    lemma_lagrange_sum(domain, values, domain.len() as int, p);
    lemma_degree(poly_interpolate(domain, values, p));
}

/// In a field with more than one element the polynomial `x - d` is the
/// negated `d` followed by one.
pub proof fn lemma_linear_factor_shape(d: int, p: int)
    requires
        p > 1,
        0 <= d < p,
    ensures
        linear_factor(d, p) == seq![fneg(d, p), 1int],
        degree(linear_factor(d, p)) == 1,
        leading(linear_factor(d, p)) == 1,
{
    let ind = seq![0int, 1int % p];
    let nd = poly_neg(seq![d], p);
    let r = linear_factor(d, p);
    lemma_small_mod(1, p as nat);
    lemma_small_mod(0, p as nat);
    lemma_mod_bound(p - d, p);
    assert(nd =~= seq![fneg(d, p)]);
    lemma_degree_unique(ind, 1);
    if fneg(d, p) == 0 {
        lemma_degree_unique(nd, -1);
        assert(r =~= seq![fneg(d, p), 1int]);
    } else {
        lemma_degree_unique(nd, 0);
        lemma_small_mod(fneg(d, p) as nat, p as nat);
        assert(r =~= seq![fneg(d, p), 1int]);
    }
    lemma_degree_unique(r, 1);
}

/// In a field with more than one element the zeroifier of a domain is monic
/// and its degree is the number of points.
pub proof fn lemma_zeroifier_degree(domain: Seq<int>, p: int)
    requires
        p > 1,
        canonical(domain, p),
    ensures
        degree(poly_zeroifier(domain, p)) == domain.len(),
        leading(poly_zeroifier(domain, p)) == 1,
    decreases domain.len(),
{
    lemma_small_mod(1, p as nat);
    if domain.len() == 0 {
        lemma_degree_unique(poly_one(p), 0);
    } else {
        let rest = domain.drop_last();
        assert(canonical(rest, p)) by {
            assert forall|i: int| 0 <= i < rest.len() implies 0 <= #[trigger] rest[i] < p by {
                assert(rest[i] == domain[i]);
            }
        }
        lemma_zeroifier_degree(rest, p);
        lemma_linear_factor_shape(domain.last(), p);
        assert(1 * 1 == 1);
        lemma_mul_degree_general(poly_zeroifier(rest, p), linear_factor(domain.last(), p), p);
    }
}

// The associativity of the product, and powers.

/// The weight of the index `m` that pairs it with the coefficient of `c` at
/// `k - m`.
pub open spec fn coeff_weight(c: Seq<int>, k: int) -> spec_fn(int) -> int {
    |m: int| coeff(c, k - m)
}

/// The sum over `i < n` of the coefficient of `a` at `i` times the
/// convolution of `b` and `c` at `k - i`.
pub open spec fn triple_conv(a: Seq<int>, b: Seq<int>, c: Seq<int>, k: int, n: int) -> int
    decreases n,
{
    if n <= 0 {
        0
    } else {
        triple_conv(a, b, c, k, n - 1) + coeff(a, n - 1) * conv(
            b,
            c,
            k - (n - 1),
            b.len() as int,
        )
    }
}

/// Under the weights that pair with `c`, the weighted sum of the shifted
/// `b` is a convolution of `b` and `c`.
pub proof fn lemma_weighted_shift_conv(b: Seq<int>, c: Seq<int>, k: int, shift: int, count: int)
    requires
        shift >= 0,
    ensures
        weighted_shift(b, coeff_weight(c, k), shift, count) == conv(
            b,
            c,
            k - shift,
            count - shift,
        ),
    decreases count,
{
    let w = coeff_weight(c, k);
    if count > 0 {
        lemma_weighted_shift_conv(b, c, k, shift, count - 1);
        let m = count - 1;
        assert(w(m) == coeff(c, k - m));
        if m - shift < 0 {
            assert(coeff(b, m - shift) * w(m) == 0) by (nonlinear_arith)
                requires
                    coeff(b, m - shift) == 0,
            ;
            assert(conv(b, c, k - shift, count - shift) == 0);
            assert(conv(b, c, k - shift, m - shift) == 0);
        } else {
            assert((k - shift) - (count - shift - 1) == k - m);
        }
    } else {
        assert(conv(b, c, k - shift, count - shift) == 0);
    }
}

/// Under the weights that pair with `c`, the weighted sum of the
/// convolutions of `a` and `b` is the triple sum.
pub proof fn lemma_weighted_conv_triple(
    a: Seq<int>,
    b: Seq<int>,
    c: Seq<int>,
    k: int,
    n: int,
    count: int,
)
    requires
        0 <= n,
        count >= n - 1 + b.len(),
    ensures
        weighted_conv(a, b, coeff_weight(c, k), n, count) == triple_conv(a, b, c, k, n),
    decreases n,
{
    let w = coeff_weight(c, k);
    if n == 0 {
        lemma_weighted_conv_zero(a, b, w, count);
    } else {
        lemma_weighted_conv_triple(a, b, c, k, n - 1, count);
        lemma_weighted_conv_step(a, b, w, n - 1, count);
        lemma_weighted_shift_conv(b, c, k, n - 1, count);
        lemma_conv_beyond(b, c, k - (n - 1), count - (n - 1));
    }
}

/// Where the coefficients of `ab` are the convolutions of `a` and `b`
/// modulo `p`, its convolution with `c` is their weighted sum modulo `p`.
pub proof fn lemma_conv_weighted(
    ab: Seq<int>,
    a: Seq<int>,
    b: Seq<int>,
    c: Seq<int>,
    k: int,
    p: int,
    count: int,
)
    requires
        p > 0,
        forall|m: int| 0 <= m < count ==> coeff(ab, m) % p == conv(a, b, m, a.len() as int) % p,
    ensures
        conv(ab, c, k, count) % p == weighted_conv(
            a,
            b,
            coeff_weight(c, k),
            a.len() as int,
            count,
        ) % p,
    decreases count,
{
    if count > 0 {
        lemma_conv_weighted(ab, a, b, c, k, p, count - 1);
        let m = count - 1;
        let w = coeff_weight(c, k);
        assert(w(m) == coeff(c, k - m));
        lemma_mul_congruent(coeff(ab, m), conv(a, b, m, a.len() as int), w(m), w(m), p);
        lemma_add_congruent(
            conv(ab, c, k, m),
            weighted_conv(a, b, w, a.len() as int, m),
            coeff(ab, m) * w(m),
            conv(a, b, m, a.len() as int) * w(m),
            p,
        );
    }
}

/// Where the coefficients of `bc` are the convolutions of `b` and `c`
/// modulo `p`, the convolution of `a` with it is the triple sum modulo `p`.
pub proof fn lemma_conv_triple(
    a: Seq<int>,
    bc: Seq<int>,
    b: Seq<int>,
    c: Seq<int>,
    k: int,
    p: int,
    n: int,
)
    requires
        p > 0,
        forall|j: int| #[trigger] coeff(bc, j) % p == conv(b, c, j, b.len() as int) % p,
    ensures
        conv(a, bc, k, n) % p == triple_conv(a, b, c, k, n) % p,
    decreases n,
{
    if n > 0 {
        lemma_conv_triple(a, bc, b, c, k, p, n - 1);
        let i = n - 1;
        assert(coeff(bc, k - i) % p == conv(b, c, k - i, b.len() as int) % p);
        lemma_mul_congruent(
            coeff(a, i),
            coeff(a, i),
            coeff(bc, k - i),
            conv(b, c, k - i, b.len() as int),
            p,
        );
        lemma_add_congruent(
            conv(a, bc, k, i),
            triple_conv(a, b, c, k, i),
            coeff(a, i) * coeff(bc, k - i),
            coeff(a, i) * conv(b, c, k - i, b.len() as int),
            p,
        );
    }
}

/// The product of polynomials is associative.
pub proof fn lemma_mul_associative(a: Seq<int>, b: Seq<int>, c: Seq<int>, p: int)
    requires
        p > 0,
    ensures
        poly_mul(poly_mul(a, b, p), c, p) == poly_mul(a, poly_mul(b, c, p), p),
{
    let ab = poly_mul(a, b, p);
    let bc = poly_mul(b, c, p);
    let left = poly_mul(ab, c, p);
    let right = poly_mul(a, bc, p);
    lemma_mul(a, b, p);
    lemma_mul(b, c, p);
    lemma_mul(ab, c, p);
    lemma_mul(a, bc, p);
    if a.len() == 0 || b.len() == 0 || c.len() == 0 {
        assert(left =~= right);
    } else {
        assert(left.len() == right.len());
        assert forall|k: int| 0 <= k < left.len() implies left[k] == right[k] by {
            let count = ab.len() as int;
            assert forall|m: int| 0 <= m < count implies coeff(ab, m) % p == conv(
                a,
                b,
                m,
                a.len() as int,
            ) % p by {
                assert(coeff(ab, m) == conv(a, b, m, a.len() as int) % p);
                lemma_mod_twice(conv(a, b, m, a.len() as int), p);
            }
            assert forall|j: int| #[trigger] coeff(bc, j) % p == conv(b, c, j, b.len() as int)
                % p by {
                assert(coeff(bc, j) == conv(b, c, j, b.len() as int) % p);
                lemma_mod_twice(conv(b, c, j, b.len() as int), p);
            }
            lemma_conv_weighted(ab, a, b, c, k, p, count);
            lemma_weighted_conv_triple(a, b, c, k, a.len() as int, count);
            lemma_conv_triple(a, bc, b, c, k, p, a.len() as int);
            assert(coeff(left, k) == conv(ab, c, k, count) % p);
            assert(coeff(right, k) == conv(a, bc, k, a.len() as int) % p);
        }
        assert(left =~= right);
    }
}

/// The constant one is a left identity of the product of canonical
/// polynomials.
pub proof fn lemma_mul_one_left(g: Seq<int>, p: int)
    requires
        p > 0,
        canonical(g, p),
    ensures
        poly_mul(poly_one(p), g, p) == g,
{
    let one = poly_one(p);
    let r = poly_mul(one, g, p);
    if g.len() > 0 {
        assert forall|k: int| 0 <= k < g.len() implies r[k] == g[k] by {
            assert(conv(one, g, k, 0) == 0);
            assert(conv(one, g, k, 1) == conv(one, g, k, 0) + coeff(one, 0) * coeff(g, k - 0));
            lemma_mul_mod_noop_left(1, g[k], p);
            assert(1 * g[k] == g[k]);
            lemma_small_mod(g[k] as nat, p as nat);
        }
    }
    assert(r =~= g);
}

/// A convolution with the constant one has a single term.
pub proof fn lemma_conv_one_right(g: Seq<int>, k: int, n: int, p: int)
    requires
        n >= 0,
    ensures
        conv(g, poly_one(p), k, n) == (if 0 <= k < n {
            coeff(g, k) * (1int % p)
        } else {
            0
        }),
    decreases n,
{
    if n > 0 {
        lemma_conv_one_right(g, k, n - 1, p);
        if n - 1 != k {
            assert(coeff(poly_one(p), k - (n - 1)) == 0);
            lemma_conv_skip(g, poly_one(p), k, n - 1);
        }
    }
}

/// The constant one is a right identity of the product of canonical
/// polynomials.
pub proof fn lemma_mul_one_right(g: Seq<int>, p: int)
    requires
        p > 0,
        canonical(g, p),
    ensures
        poly_mul(g, poly_one(p), p) == g,
{
    let one = poly_one(p);
    let r = poly_mul(g, one, p);
    if g.len() > 0 {
        assert forall|k: int| 0 <= k < g.len() implies r[k] == g[k] by {
            lemma_conv_one_right(g, k, g.len() as int, p);
            lemma_mul_mod_noop_right(g[k], 1, p);
            assert(g[k] * 1 == g[k]);
            lemma_small_mod(g[k] as nat, p as nat);
        }
    }
    assert(r =~= g);
}

/// A power of a polynomial is canonical, and where the polynomial has
/// coefficients, its length grows by theirs less one with each factor.
pub proof fn lemma_pow_shape(f: Seq<int>, e: nat, p: int)
    requires
        p > 0,
    ensures
        canonical(poly_pow(f, e, p), p),
        f.len() >= 1 ==> poly_pow(f, e, p).len() == (f.len() - 1) * e + 1,
    decreases e,
{
    if e == 0 {
        lemma_mod_bound(1, p);
        assert(canonical(poly_one(p), p));
        assert((f.len() - 1) * 0 == 0);
    } else {
        lemma_pow_shape(f, (e - 1) as nat, p);
        lemma_mul(poly_pow(f, (e - 1) as nat, p), f, p);
        assert((f.len() - 1) * e == (f.len() - 1) * (e - 1) + (f.len() - 1)) by (nonlinear_arith);
    }
}

/// The product of two powers of a polynomial is the power with the sum of
/// the exponents.
pub proof fn lemma_pow_adds_poly(f: Seq<int>, e1: nat, e2: nat, p: int)
    requires
        p > 0,
    ensures
        poly_mul(poly_pow(f, e1, p), poly_pow(f, e2, p), p) == poly_pow(f, e1 + e2, p),
    decreases e2,
{
    if e2 == 0 {
        lemma_pow_shape(f, e1, p);
        lemma_mul_one_right(poly_pow(f, e1, p), p);
    } else {
        let before = (e2 - 1) as nat;
        lemma_pow_adds_poly(f, e1, before, p);
        lemma_mul_associative(poly_pow(f, e1, p), poly_pow(f, before, p), f, p);
        assert(poly_pow(f, e1 + e2, p) == poly_mul(poly_pow(f, (e1 + e2 - 1) as nat, p), f, p));
    }
}

/// The power with exponent zero is the constant one, whatever the base, and
/// the power with exponent one of a nonzero polynomial is the polynomial.
pub proof fn lemma_modexp_zero_one(f: Seq<int>, p: int)
    requires
        p > 0,
        canonical(f, p),
    ensures
        poly_modexp(f, 0, p) == poly_one(p),
        degree(f) >= 0 ==> poly_modexp(f, 1, p) == f,
        poly_equiv(poly_modexp(f, 1, p), f),
{
    assert(poly_pow(f, 1, p) == poly_mul(poly_pow(f, 0, p), f, p));
    lemma_mul_one_left(f, p);
    if degree(f) == -1 {
        lemma_degree(f);
        assert forall|i: int| #[trigger] coeff(poly_modexp(f, 1, p), i) == coeff(f, i) by {
            assert(coeff(f, i) == 0);
        }
    }
}

// Scaling.

/// Where each coefficient of `t` is that of `s` times the power of
/// `factor` of its index, modulo `p`, the sum of the terms of `t` at `x` is
/// that of `s` at `factor * x`.
pub proof fn lemma_eval_sum_scaled(t: Seq<int>, s: Seq<int>, factor: int, x: int, p: int, n: int)
    requires
        p > 0,
        forall|i: int|
            0 <= i < n ==> coeff(t, i) % p == (pow(factor, i as nat) * coeff(s, i)) % p,
    ensures
        eval_sum(t, x, n) % p == eval_sum(s, factor * x, n) % p,
    decreases n,
{
    if n > 0 {
        lemma_eval_sum_scaled(t, s, factor, x, p, n - 1);
        let i = n - 1;
        let fi = pow(factor, i as nat);
        let xi = pow(x, i as nat);
        lemma_pow_distributes(factor, x, i as nat);
        lemma_mul_congruent(coeff(t, i), fi * coeff(s, i), xi, xi, p);
        assert((fi * coeff(s, i)) * xi == coeff(s, i) * (fi * xi)) by (nonlinear_arith);
        lemma_add_congruent(
            eval_sum(t, x, i),
            eval_sum(s, factor * x, i),
            coeff(t, i) * xi,
            coeff(s, i) * pow(factor * x, i as nat),
            p,
        );
    }
}

/// Scaling a polynomial composes it with the multiplication by the factor:
/// the value of the scaled polynomial at `x` is the value of the polynomial
/// at `factor * x`.
pub proof fn lemma_scale_composes(s: Seq<int>, factor: int, x: int, p: int)
    requires
        p > 0,
    ensures
        poly_eval(poly_scale(s, factor, p), x, p) == poly_eval(s, fmul(factor, x, p), p),
{
    let t = poly_scale(s, factor, p);
    let n = s.len() as int;
    assert forall|i: int| 0 <= i < n implies coeff(t, i) % p == (pow(factor, i as nat) * coeff(
        s,
        i,
    )) % p by {
        let fi = pow(factor, i as nat);
        assert(t[i] == fmul(fi % p, s[i], p));
        lemma_mul_mod_noop_left(fi, s[i], p);
        lemma_mod_twice(fi * s[i], p);
    }
    lemma_eval_sum_scaled(t, s, factor, x, p, n);
    lemma_mod_twice(factor * x, p);
    lemma_eval_sum_point_congruent(s, factor * x, fmul(factor, x, p), p, n);
}

/// The sum of the terms at two points that are congruent modulo `p` is the
/// same modulo `p`.
pub proof fn lemma_eval_sum_point_congruent(s: Seq<int>, x: int, y: int, p: int, n: int)
    requires
        p > 0,
        x % p == y % p,
    ensures
        eval_sum(s, x, n) % p == eval_sum(s, y, n) % p,
    decreases n,
{
    if n > 0 {
        lemma_eval_sum_point_congruent(s, x, y, p, n - 1);
        let i = (n - 1) as nat;
        lemma_pow_mod_noop(x, i, p);
        lemma_pow_mod_noop(y, i, p);
        lemma_mul_congruent(coeff(s, n - 1), coeff(s, n - 1), pow(x, i), pow(y, i), p);
        lemma_add_congruent(
            eval_sum(s, x, n - 1),
            eval_sum(s, y, n - 1),
            coeff(s, n - 1) * pow(x, i),
            coeff(s, n - 1) * pow(y, i),
            p,
        );
    }
}

} // verus!
