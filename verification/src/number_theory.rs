//! The arithmetic facts that the field rests on: congruences, greatest
//! common divisors, primes, and the extended Euclidean algorithm in the
//! unsigned form that tracks the magnitudes of the Bézout coefficients.

use vstd::arithmetic::div_mod::*;
use vstd::arithmetic::mul::*;
use vstd::arithmetic::power2::*;
use vstd::bits::lemma_u128_shr_is_div;
use vstd::prelude::*;

verus! {

/// Reducing the operands of a sum changes nothing modulo `m`.
pub proof fn lemma_add_congruent(a: int, a2: int, b: int, b2: int, m: int)
    requires
        m > 0,
        a % m == a2 % m,
        b % m == b2 % m,
    ensures
        (a + b) % m == (a2 + b2) % m,
{
    lemma_add_mod_noop(a, b, m);
    lemma_add_mod_noop(a2, b2, m);
}

/// Reducing the operands of a product changes nothing modulo `m`.
pub proof fn lemma_mul_congruent(a: int, a2: int, b: int, b2: int, m: int)
    requires
        m > 0,
        a % m == a2 % m,
        b % m == b2 % m,
    ensures
        (a * b) % m == (a2 * b2) % m,
{
    lemma_mul_mod_noop(a, b, m);
    lemma_mul_mod_noop(a2, b2, m);
}

/// Adding a multiple of `m` changes nothing modulo `m`.
pub proof fn lemma_mod_plus_multiple(x: int, k: int, m: int)
    requires
        m > 0,
    ensures
        (x + k * m) % m == x % m,
        (x - k * m) % m == x % m,
{
    lemma_mod_multiples_vanish(k, x, m);
    lemma_mod_multiples_vanish(-k, x, m);
    assert(m * k == k * m) by (nonlinear_arith);
    assert(m * (-k) == -(k * m)) by (nonlinear_arith);
}

/// The greatest common divisor of two natural numbers, by Euclid's
/// recursion; `gcd(a, 0) == a`.
pub open spec fn gcd(a: int, b: int) -> int
    decreases b,
    when 0 <= a && 0 <= b
    via gcd_decreases
{
    if b == 0 {
        a
    } else {
        gcd(b, a % b)
    }
}

#[via_fn]
proof fn gcd_decreases(a: int, b: int) {
    if b != 0 {
        lemma_mod_bound(a, b);
    }
}

/// `p` is a prime number.
pub open spec fn is_prime(p: int) -> bool {
    &&& p > 1
    &&& forall|d: int| 1 < d < p ==> #[trigger] (p % d) != 0
}

/// The greatest common divisor is positive and divides both numbers.
pub proof fn lemma_gcd_divides(a: int, b: int)
    requires
        0 <= a,
        0 <= b,
        a + b > 0,
    ensures
        gcd(a, b) > 0,
        a % gcd(a, b) == 0,
        b % gcd(a, b) == 0,
    decreases b,
{
    if b == 0 {
        lemma_mod_self_0(a);
        lemma_small_mod(0, a as nat);
    } else {
        lemma_mod_bound(a, b);
        lemma_gcd_divides(b, a % b);
        let g = gcd(a, b);
        assert(g == gcd(b, a % b));
        lemma_fundamental_div_mod(a, b);
        // a == b * (a / b) + a % b, and g divides b and a % b
        let q = a / b;
        lemma_mul_mod_noop_left(b, q, g);
        assert((b * q) % g == 0) by {
            assert((b % g) * q == 0) by (nonlinear_arith)
                requires
                    b % g == 0,
            ;
            lemma_small_mod(0, g as nat);
        }
        lemma_add_congruent(b * q, 0, a % b, 0, g);
        lemma_small_mod(0, g as nat);
    }
}

/// One is coprime to every positive number.
pub proof fn lemma_gcd_one(p: int)
    requires
        p > 0,
    ensures
        gcd(1, p) == 1,
{
    if p == 1 {
        assert(gcd(1, 1) == gcd(1, 1int % 1));
        assert(gcd(1, 0) == 1);
    } else {
        lemma_small_mod(1, p as nat);
        assert(gcd(1, p) == gcd(p, 1int % p));
        assert(gcd(p, 1) == gcd(1, p % 1));
        assert(gcd(1, 0) == 1);
    }
}

/// In a prime field every nonzero canonical representative is coprime to the
/// modulus.
pub proof fn lemma_prime_coprime(a: int, p: int)
    requires
        is_prime(p),
        0 < a < p,
    ensures
        gcd(a, p) == 1,
{
    lemma_gcd_divides(a, p);
    let g = gcd(a, p);
    if g > 1 {
        // g divides a, so g <= a < p, and g divides p
        assert(g <= a) by {
            if g > a {
                lemma_small_mod(a as nat, g as nat);
            }
        }
        assert(p % g != 0);
    }
}

/// The state that Euclid's algorithm ends in when it starts from the
/// remainders `r0, r1`, the coefficient magnitudes `s0, s1` and `t0, t1`, and
/// `n` steps already made: the last nonzero remainder, the two magnitudes
/// beside it, and the number of steps.
pub open spec fn xgcd_run(r0: int, r1: int, s0: int, s1: int, t0: int, t1: int, n: int) -> (
    int,
    int,
    int,
    int,
)
    decreases r1,
    when 0 <= r0 && 0 <= r1
    via xgcd_run_decreases
{
    if r1 == 0 {
        (r0, s0, t0, n)
    } else {
        let q = r0 / r1;
        xgcd_run(r1, r0 % r1, s1, s0 + q * s1, t1, t0 + q * t1, n + 1)
    }
}

#[via_fn]
proof fn xgcd_run_decreases(r0: int, r1: int, s0: int, s1: int, t0: int, t1: int, n: int) {
    if r1 != 0 {
        lemma_mod_bound(r0, r1);
    }
}

/// What the extended Euclidean algorithm returns for `(a, b)`: `(s, t, g)`
/// with `g` the greatest common divisor and `s`, `t` the Bézout coefficients
/// brought into the ranges `[0, b]` and `[0, a]`. The magnitudes alternate in
/// sign from step to step, so the parity of the step count says which of the
/// two is the negative one and is replaced by its complement.
pub open spec fn xgcd_spec(a: int, b: int) -> (int, int, int) {
    let (g, s, t, n) = xgcd_run(a, b, 1, 0, 0, 1, 0);
    if n % 2 == 1 {
        (b - s, t, g)
    } else {
        (s, a - t, g)
    }
}

/// What holds between two steps of the algorithm on `(a, b)`.
pub open spec fn xgcd_inv(
    a: int,
    b: int,
    r0: int,
    r1: int,
    s0: int,
    s1: int,
    t0: int,
    t1: int,
    n: int,
) -> bool {
    &&& 0 <= a && 0 < b && 0 <= n
    &&& 0 <= r1 && 0 <= r0
    &&& (n >= 1 ==> r1 < r0)
    &&& (n == 0 ==> r1 > 0)
    &&& 0 <= s0 <= b && 0 <= s1 <= b
    &&& 0 <= t0 && 0 <= t1
    &&& (n >= 1 ==> t1 <= a)
    &&& (n >= 2 ==> t0 <= a)
    &&& (n <= 1 ==> t0 <= 1)
    &&& (n == 0 ==> t1 <= 1)
    &&& s1 * r0 + s0 * r1 == b
    &&& t1 * r0 + t0 * r1 == a
    &&& (n % 2 == 0 ==> s0 * a - t0 * b == r0 && t1 * b - s1 * a == r1)
    &&& (n % 2 == 1 ==> t0 * b - s0 * a == r0 && s1 * a - t1 * b == r1)
    &&& gcd(r0, r1) == gcd(a, b)
}

/// The algorithm starts in a state that meets the invariant.
pub proof fn lemma_xgcd_inv_initial(a: int, b: int)
    requires
        0 <= a,
        0 < b,
    ensures
        xgcd_inv(a, b, a, b, 1, 0, 0, 1, 0),
{
    assert(0 * a + 1 * b == b) by (nonlinear_arith);
    assert(1 * a + 0 * b == a) by (nonlinear_arith);
    assert(1 * a - 0 * b == a) by (nonlinear_arith);
    assert(1 * b - 0 * a == b) by (nonlinear_arith);
}

/// A sum with a scaled term, times `u`, term by term.
proof fn lemma_mul_add_scaled(x: int, q: int, y: int, u: int)
    by (nonlinear_arith)
    ensures
        (x + q * y) * u == x * u + q * (y * u),
{
}

/// A factor times a difference with a scaled term, term by term.
proof fn lemma_mul_sub_scaled(y: int, v: int, q: int, u: int)
    by (nonlinear_arith)
    ensures
        y * (v - q * u) == y * v - q * (y * u),
{
}

/// A natural number is at most its product with a positive number.
proof fn lemma_mul_at_least(x: int, u: int)
    by (nonlinear_arith)
    requires
        0 <= x,
        1 <= u,
    ensures
        x <= x * u,
{
}

/// One step keeps the invariant, and none of its products or sums exceeds
/// `a` or `b`.
pub proof fn lemma_xgcd_inv_step(
    a: int,
    b: int,
    r0: int,
    r1: int,
    s0: int,
    s1: int,
    t0: int,
    t1: int,
    n: int,
)
    requires
        xgcd_inv(a, b, r0, r1, s0, s1, t0, t1, n),
        r1 > 0,
    ensures
        xgcd_inv(
            a,
            b,
            r1,
            r0 % r1,
            s1,
            s0 + (r0 / r1) * s1,
            t1,
            t0 + (r0 / r1) * t1,
            n + 1,
        ),
        0 <= r0 / r1,
        0 <= (r0 / r1) * r1 <= r0,
        r0 - (r0 / r1) * r1 == r0 % r1,
        0 <= (r0 / r1) * s1 <= b,
        0 <= (r0 / r1) * t1 <= a,
{
    let q = r0 / r1;
    let r2 = r0 % r1;
    let s2 = s0 + q * s1;
    let t2 = t0 + q * t1;
    lemma_fundamental_div_mod(r0, r1);
    lemma_mod_bound(r0, r1);
    lemma_div_pos_is_pos(r0, r1);
    assert(r0 == q * r1 + r2) by (nonlinear_arith)
        requires
            r0 == r1 * q + r2,
    ;
    assert(0 <= q * r1) by (nonlinear_arith)
        requires
            0 <= q,
            0 < r1,
    ;
    assert(0 <= q * s1 && 0 <= q * t1) by (nonlinear_arith)
        requires
            0 <= q,
            0 <= s1,
            0 <= t1,
    ;
    // (x + q * y) * u is x * u + q * (y * u), and y * (v - q * u) is
    // y * v - q * (y * u): the products with the next remainder cancel
    assert(r2 == r0 - q * r1);
    lemma_mul_add_scaled(s0, q, s1, r1);
    lemma_mul_sub_scaled(s1, r0, q, r1);
    lemma_mul_add_scaled(t0, q, t1, r1);
    lemma_mul_sub_scaled(t1, r0, q, r1);
    assert(s2 * r1 + s1 * r2 == b);
    assert(t2 * r1 + t1 * r2 == a);
    lemma_mul_nonnegative(s1, r2);
    lemma_mul_nonnegative(t1, r2);
    lemma_mul_nonnegative(q, s1);
    lemma_mul_nonnegative(q, t1);
    lemma_mul_at_least(s2, r1);
    lemma_mul_at_least(t2, r1);
    lemma_mul_add_scaled(s0, q, s1, a);
    lemma_mul_add_scaled(t0, q, t1, b);
    if n % 2 == 0 {
        lemma_mul_is_distributive_sub(q, t1 * b, s1 * a);
        assert(q * r1 == q * (t1 * b - s1 * a));
        assert(s2 * a - t2 * b == r2);
    } else {
        lemma_mul_is_distributive_sub(q, s1 * a, t1 * b);
        assert(q * r1 == q * (s1 * a - t1 * b));
        assert(t2 * b - s2 * a == r2);
    }
    assert(gcd(r0, r1) == gcd(r1, r2));
}

/// What the run ends in, from any state that meets the invariant.
pub proof fn lemma_xgcd_run(
    a: int,
    b: int,
    r0: int,
    r1: int,
    s0: int,
    s1: int,
    t0: int,
    t1: int,
    n: int,
)
    requires
        xgcd_inv(a, b, r0, r1, s0, s1, t0, t1, n),
    ensures
        ({
            let (g, s, t, m) = xgcd_run(r0, r1, s0, s1, t0, t1, n);
            &&& m >= 1
            &&& g == gcd(a, b)
            &&& g >= 1
            &&& 0 <= s <= b
            &&& 0 <= t
            &&& (m >= 2 ==> t <= a)
            &&& (m == 1 ==> t <= 1)
            &&& (m % 2 == 0 ==> s * a - t * b == g)
            &&& (m % 2 == 1 ==> t * b - s * a == g)
        }),
    decreases r1,
{
    if r1 != 0 {
        lemma_xgcd_inv_step(a, b, r0, r1, s0, s1, t0, t1, n);
        lemma_xgcd_run(
            a,
            b,
            r1,
            r0 % r1,
            s1,
            s0 + (r0 / r1) * s1,
            t1,
            t0 + (r0 / r1) * t1,
            n + 1,
        );
    }
}

/// The extended Euclidean algorithm returns the greatest common divisor and
/// coefficients with `s * a + t * b == g + a * b`: modulo `b`, `s` times `a`
/// is `g`, and modulo `a`, `t` times `b` is `g`.
pub proof fn lemma_xgcd_spec(a: int, b: int)
    requires
        0 <= a,
        0 < b,
    ensures
        ({
            let (s, t, g) = xgcd_spec(a, b);
            &&& g == gcd(a, b)
            &&& g >= 1
            &&& 0 <= s <= b
            &&& 0 <= t
            &&& (a >= 1 ==> t <= a)
            &&& s * a + t * b == g + a * b
            &&& (s * a) % b == g % b
            &&& (a % b != 0 ==> s < b)
        }),
{
    lemma_xgcd_inv_initial(a, b);
    lemma_xgcd_run(a, b, a, b, 1, 0, 0, 1, 0);
    let (g, s0, t0, m) = xgcd_run(a, b, 1, 0, 0, 1, 0);
    let (s, t, g2) = xgcd_spec(a, b);
    assert(g2 == g);
    if m % 2 == 1 {
        assert(s == b - s0 && t == t0);
        assert(s * a + t * b == g + a * b) by (nonlinear_arith)
            requires
                s == b - s0,
                t == t0,
                t0 * b - s0 * a == g,
        ;
    } else {
        assert(s == s0 && t == a - t0);
        assert(s * a + t * b == g + a * b) by (nonlinear_arith)
            requires
                s == s0,
                t == a - t0,
                s0 * a - t0 * b == g,
        ;
    }
    assert(s * a == g + (a - t) * b) by (nonlinear_arith)
        requires
            s * a + t * b == g + a * b,
    ;
    lemma_mod_plus_multiple(g, a - t, b);
    if a % b != 0 && s == b {
        // then t * b == g, so b divides g, which divides a
        assert(t * b == g) by (nonlinear_arith)
            requires
                s * a + t * b == g + a * b,
                s == b,
        ;
        lemma_gcd_divides(a, b);
        assert(t >= 1 && g >= b) by (nonlinear_arith)
            requires
                t * b == g,
                g >= 1,
                b >= 1,
                t >= 0,
        ;
        assert(g == b) by {
            if g > b {
                lemma_small_mod(b as nat, g as nat);
            }
        }
    }
}

/// A number coprime to the modulus is no zero divisor: a product with it
/// vanishes modulo `m` only if the other factor does.
pub proof fn lemma_coprime_cancels(a: int, x: int, m: int)
    requires
        0 <= a,
        0 < m,
        gcd(a, m) == 1,
        (a * x) % m == 0,
    ensures
        x % m == 0,
{
    lemma_xgcd_spec(a, m);
    let (s, t, g) = xgcd_spec(a, m);
    // s * a == 1 (mod m), so x == s * a * x == s * 0 (mod m)
    lemma_mul_congruent(s * a, g, x, x, m);
    assert((s * a) * x == s * (a * x)) by (nonlinear_arith);
    lemma_mul_congruent(s, s, a * x, 0, m);
    lemma_small_mod(0, m as nat);
    assert(s * 0 == 0);
    assert(1 * x == x);
}

/// In a prime field a product vanishes only if one of its factors does.
pub proof fn lemma_prime_no_zero_divisors(x: int, y: int, p: int)
    requires
        is_prime(p),
        0 <= x < p,
        0 <= y < p,
        (x * y) % p == 0,
    ensures
        x == 0 || y == 0,
{
    if x != 0 {
        lemma_prime_coprime(x, p);
        lemma_coprime_cancels(x, y, p);
        lemma_small_mod(y as nat, p as nat);
    }
}

/// `2^128` is beyond every 128-bit number.
pub proof fn lemma_pow2_128()
    ensures
        pow2(128) == 0x1_0000_0000_0000_0000_0000_0000_0000_0000int,
{
    lemma2_to64();
    lemma_pow2_adds(64, 64);
}

/// The number that the bits of `e` from bit `k` up spell.
pub open spec fn high_bits(e: u128, k: nat) -> nat {
    e as nat / pow2(k)
}

/// The bits of `e` from bit `k` up are those from bit `k + 1` up, followed
/// by bit `k`.
pub proof fn lemma_bit_step(e: u128, k: u128)
    requires
        k < 128,
    ensures
        (e >> k) == high_bits(e, k as nat),
        ((e >> k) & 1) == 0 || ((e >> k) & 1) == 1,
        high_bits(e, k as nat) == 2 * high_bits(e, (k + 1) as nat) + ((e >> k) & 1),
{
    lemma_u128_shr_is_div(e, k);
    let y: u128 = e >> k;
    assert((y & 1) == y % 2) by (bit_vector);
    lemma_pow2_unfold((k + 1) as nat);
    lemma_pow2_pos(k as nat);
    lemma_div_denominator(e as int, pow2(k as nat) as int, 2);
    assert(pow2(k as nat) * 2 == pow2((k + 1) as nat));
}

/// The number of bits of `e`: the least `n` with `e < 2^n`.
pub fn bit_length(e: u128) -> (n: u128)
    ensures
        n <= 128,
        high_bits(e, n as nat) == 0,
        n > 0 ==> high_bits(e, (n - 1) as nat) != 0,
{
    let mut n: u128 = 0;
    while n < 128 && (e >> n) != 0
        invariant
            n <= 128,
            n > 0 ==> high_bits(e, (n - 1) as nat) != 0,
        decreases 128 - n,
    {
        proof {
            lemma_u128_shr_is_div(e, n);
        }
        n = n + 1;
    }
    proof {
        if n < 128 {
            lemma_u128_shr_is_div(e, n);
        } else {
            lemma_pow2_128();
            lemma_basic_div(e as int, pow2(128) as int);
        }
    }
    n
}

} // verus!
