//! A prime field of up to 256 bits and its elements.
//!
//! A [`Field`] owns the modulus; a [`FieldElement`] is a canonical
//! representative in `[0, modulus)` together with the field it belongs to.
//! Every operation returns a new value and states its result over the
//! integers: `fadd`, `fmul`, `finv` and the others say what the field
//! operations are.

use crate::generator_order::{
    has_order, lemma_generator_order, lemma_order_of_root, lemma_root_order,
};
use crate::number_theory::{
    bit_length, gcd, high_bits, is_prime, lemma_bit_step, lemma_mod_plus_multiple, lemma_pow2_128,
    lemma_prime_coprime, lemma_xgcd_inv_initial, lemma_xgcd_inv_step, lemma_xgcd_run,
    lemma_xgcd_spec, xgcd_inv, xgcd_run, xgcd_spec,
};
use crate::uint::{
    big_add, big_div, big_full_mul, big_mul, big_rem, big_rem_wide, big_shl, big_sub, big_xor,
    bit_xor, lemma_u256_view_injective, u256_limit, U256,
};
use vstd::arithmetic::div_mod::*;
use vstd::arithmetic::mul::*;
use vstd::arithmetic::power::*;
use vstd::arithmetic::power2::*;
use vstd::prelude::*;

verus! {

/// The modulus of the one field whose generator is known, `1 + 407 * 2^119`.
pub const REFERENCE_MODULUS: u128 = 270497897142230380135924736767050121217;

/// A generator of the multiplicative subgroup of order `2^119` of the
/// reference field.
pub const REFERENCE_GENERATOR: u128 = 85408008396924667383611388730472331217;

/// The binary logarithm of the order of the reference generator.
pub const REFERENCE_ORDER_LOG: u32 = 119;

/// Why an operation was refused.
#[derive(Clone, Copy, Debug, PartialEq, Eq, Structural)]
pub enum ErrorKind {
    /// The inverse of zero, or a division by zero, was asked for.
    DivisionByZero,
    /// An exact polynomial division left a remainder.
    DivisionNotExact,
    /// An interpolation was given as many values as it was not given points.
    DomainLengthMismatch,
    /// An interpolation was given no points.
    EmptyDomain,
    /// A generator or a root of unity was asked of a field other than the
    /// reference field.
    UnsupportedField,
    /// A root of unity was asked for an order that is no power of two, or
    /// that exceeds the order of the generator.
    UnsupportedOrder,
}

/// The error of every fallible operation on fields and polynomials.
#[derive(Clone, Copy, Debug, PartialEq, Eq, Structural)]
pub struct FieldError {
    pub kind: ErrorKind,
}

impl FieldError {
    /// The error of the given kind.
    pub fn new(kind: ErrorKind) -> (r: FieldError)
        ensures
            r.kind == kind,
    {
        FieldError { kind }
    }

    /// What went wrong, in words.
    pub fn message(&self) -> (r: String)
        ensures
            r@ == error_text(self.kind),
    {
        match self.kind {
            ErrorKind::DivisionByZero => "division by zero".to_owned(),
            ErrorKind::DivisionNotExact => "polynomial division left a remainder".to_owned(),
            ErrorKind::DomainLengthMismatch => "domain and values differ in length".to_owned(),
            ErrorKind::EmptyDomain => "cannot interpolate over an empty domain".to_owned(),
            ErrorKind::UnsupportedField => "no generator is known for this field".to_owned(),
            ErrorKind::UnsupportedOrder => {
                "the field has no root of unity of this order".to_owned()
            },
        }
    }
}

/// The text of each kind of error.
pub open spec fn error_text(kind: ErrorKind) -> Seq<char> {
    match kind {
        ErrorKind::DivisionByZero => "division by zero"@,
        ErrorKind::DivisionNotExact => "polynomial division left a remainder"@,
        ErrorKind::DomainLengthMismatch => "domain and values differ in length"@,
        ErrorKind::EmptyDomain => "cannot interpolate over an empty domain"@,
        ErrorKind::UnsupportedField => "no generator is known for this field"@,
        ErrorKind::UnsupportedOrder => "the field has no root of unity of this order"@,
    }
}

/// The sum of two elements of the field of modulus `p`.
pub open spec fn fadd(a: int, b: int, p: int) -> int {
    (a + b) % p
}

/// The difference of two elements of the field of modulus `p`.
pub open spec fn fsub(a: int, b: int, p: int) -> int {
    (a - b) % p
}

/// The product of two elements of the field of modulus `p`.
pub open spec fn fmul(a: int, b: int, p: int) -> int {
    (a * b) % p
}

/// The additive inverse of an element of the field of modulus `p`.
pub open spec fn fneg(a: int, p: int) -> int {
    (p - a) % p
}

/// The Bézout coefficient of `a` that the extended Euclidean algorithm finds
/// for `(a, p)`: the multiplicative inverse of `a` wherever `a` is coprime to
/// `p`, which in a prime field is wherever `a` is not zero.
pub open spec fn finv(a: int, p: int) -> int {
    xgcd_spec(a, p).0
}

/// The quotient of two elements of the field of modulus `p`.
pub open spec fn fdiv(a: int, b: int, p: int) -> int {
    fmul(a, finv(b, p), p)
}

/// The power of an element of the field of modulus `p`.
pub open spec fn fpow(a: int, e: nat, p: int) -> int {
    pow(a, e) % p
}

/// What a sequence of limbs folds into: from zero, each limb in turn is
/// combined by shifting the accumulator up by eight bits within 256 bits and
/// taking the exclusive or with the limb.
pub open spec fn sample_fold(limbs: Seq<int>) -> int
    decreases limbs.len(),
{
    if limbs.len() == 0 {
        0
    } else {
        bit_xor((sample_fold(limbs.drop_last()) * 256) % u256_limit(), limbs.last())
    }
}

/// The orders for which the reference field has a root of unity: the powers
/// of two up to `2^119`.
pub open spec fn is_supported_order(n: int) -> bool {
    exists|k: nat| k <= REFERENCE_ORDER_LOG && n == #[trigger] pow2(k)
}

/// The extended Euclidean algorithm on `(a, b)`: returns `(s, t, g)` with `g`
/// the greatest common divisor of `a` and `b`, and `s` in `[0, b]`, `t` in
/// `[0, a]` such that `s * a + t * b == g + a * b`. So `s * a` is `g` modulo
/// `b`, and `t * b` is `g` modulo `a`.
pub fn xgcd(a: &U256, b: &U256) -> (r: (U256, U256, U256))
    requires
        b@ > 0,
    ensures
        (r.0@, r.1@, r.2@) == xgcd_spec(a@, b@),
        r.2@ == gcd(a@, b@),
        r.0@ * a@ + r.1@ * b@ == r.2@ + a@ * b@,
        (r.0@ * a@) % b@ == r.2@ % b@,
        r.0@ <= b@,
        a@ % b@ != 0 ==> r.0@ < b@,
        a@ >= 1 ==> r.1@ <= a@,
{
    let mut r0 = *a;
    let mut r1 = *b;
    let mut s0 = U256::one();
    let mut s1 = U256::zero();
    let mut t0 = U256::zero();
    let mut t1 = U256::one();
    let mut odd = false;
    let ghost mut n: int = 0;
    proof {
        lemma_xgcd_inv_initial(a@, b@);
    }
    while !r1.is_zero()
        invariant
            xgcd_inv(a@, b@, r0@, r1@, s0@, s1@, t0@, t1@, n),
            xgcd_run(r0@, r1@, s0@, s1@, t0@, t1@, n) == xgcd_run(a@, b@, 1, 0, 0, 1, 0),
            odd == (n % 2 == 1),
        decreases r1@,
    {
        proof {
            lemma_xgcd_inv_step(a@, b@, r0@, r1@, s0@, s1@, t0@, t1@, n);
            lemma_mod_bound(r0@, r1@);
        }
        let q = big_div(r0, r1);
        let r2 = big_sub(r0, big_mul(q, r1));
        let s2 = big_add(s0, big_mul(q, s1));
        let t2 = big_add(t0, big_mul(q, t1));
        r0 = r1;
        r1 = r2;
        s0 = s1;
        s1 = s2;
        t0 = t1;
        t1 = t2;
        odd = !odd;
        proof {
            n = n + 1;
        }
    }
    proof {
        lemma_xgcd_run(a@, b@, r0@, r1@, s0@, s1@, t0@, t1@, n);
        lemma_xgcd_spec(a@, b@);
    }
    if odd {
        (big_sub(*b, s0), t0, r0)
    } else {
        (s0, big_sub(*a, t0), r0)
    }
}

/// A field of integers modulo `p`. The modulus is meant to be prime; nothing
/// checks that it is, and what holds only of prime moduli says so.
#[derive(Clone, Copy, Debug, Hash)]
pub struct Field {
    pub p: U256,
}

impl PartialEq for Field {
    fn eq(&self, other: &Field) -> (r: bool) {
        self.p.equals(&other.p)
    }
}

impl Eq for Field {

}

impl vstd::std_specs::cmp::PartialEqSpecImpl for Field {
    open spec fn obeys_eq_spec() -> bool {
        true
    }

    open spec fn eq_spec(&self, other: &Field) -> bool {
        self.p@ == other.p@
    }
}

/// An element of a field: its canonical representative and the field.
#[derive(Clone, Copy, Debug, Hash)]
pub struct FieldElement {
    pub value: U256,
    pub field: Field,
}

impl PartialEq for FieldElement {
    fn eq(&self, other: &FieldElement) -> (r: bool) {
        self.value.equals(&other.value) && self.field.p.equals(&other.field.p)
    }
}

impl Eq for FieldElement {

}

impl vstd::std_specs::cmp::PartialEqSpecImpl for FieldElement {
    open spec fn obeys_eq_spec() -> bool {
        true
    }

    open spec fn eq_spec(&self, other: &FieldElement) -> bool {
        self.value@ == other.value@ && self.field.p@ == other.field.p@
    }
}

impl View for FieldElement {
    type V = int;

    /// The canonical representative.
    open spec fn view(&self) -> int {
        self.value@
    }
}

/// Two fields with the same modulus are one field, and two elements of one
/// field with the same representative are one element.
pub proof fn lemma_field_element_equal(a: FieldElement, b: FieldElement)
    ensures
        a.field.modulus() == b.field.modulus() <==> a.field == b.field,
        (a@ == b@ && a.field == b.field) <==> a == b,
{
    lemma_u256_view_injective(a.value, b.value);
    lemma_u256_view_injective(a.field.p, b.field.p);
}

impl Field {
    /// The modulus.
    pub open spec fn modulus(&self) -> int {
        self.p@
    }

    /// The modulus is positive.
    pub open spec fn wf(&self) -> bool {
        self.p@ > 0
    }

    /// The modulus is a prime number.
    pub open spec fn is_prime(&self) -> bool {
        is_prime(self.p@)
    }

    /// The field of integers modulo `p`.
    pub fn new(p: U256) -> (r: Field)
        requires
            p@ > 0,
        ensures
            r.p == p,
            r.wf(),
    {
        Field { p }
    }

    /// The additive identity.
    pub fn zero(&self) -> (r: FieldElement)
        requires
            self.wf(),
        ensures
            r@ == 0,
            r.in_field(*self),
    {
        FieldElement { value: U256::zero(), field: *self }
    }

    /// The multiplicative identity: one, reduced in the field of modulus one.
    pub fn one(&self) -> (r: FieldElement)
        requires
            self.wf(),
        ensures
            r@ == 1int % self.modulus(),
            r@ == (if self.modulus() == 1 {
                0int
            } else {
                1int
            }),
            r.in_field(*self),
    {
        let one = U256::one();
        proof {
            if self.p@ > 1 {
                lemma_small_mod(1, self.p@ as nat);
            } else {
                lemma_mod_self_0(1);
            }
        }
        if one.lt(&self.p) {
            FieldElement { value: one, field: *self }
        } else {
            FieldElement { value: U256::zero(), field: *self }
        }
    }

    /// The sum of two elements.
    pub fn add(&self, a: &FieldElement, b: &FieldElement) -> (r: FieldElement)
        requires
            a.in_field(*self),
            b.in_field(*self),
        ensures
            r@ == fadd(a@, b@, self.modulus()),
            r@ == (if a@ + b@ < self.modulus() {
                a@ + b@
            } else {
                a@ + b@ - self.modulus()
            }),
            r.in_field(*self),
    {
        // whether a + b reaches the modulus is asked as a >= p - b, which
        // cannot overflow
        let gap = big_sub(self.p, b.value);
        if a.value.lt(&gap) {
            proof {
                lemma_small_mod((a@ + b@) as nat, self.p@ as nat);
            }
            FieldElement { value: big_add(a.value, b.value), field: *self }
        } else {
            proof {
                lemma_mod_plus_multiple(a@ + b@, 1, self.p@);
                lemma_small_mod((a@ + b@ - self.p@) as nat, self.p@ as nat);
            }
            FieldElement { value: big_sub(a.value, gap), field: *self }
        }
    }

    /// The product of two elements, reduced from the full 512-bit product.
    pub fn multiply(&self, a: &FieldElement, b: &FieldElement) -> (r: FieldElement)
        requires
            a.in_field(*self),
            b.in_field(*self),
        ensures
            r@ == fmul(a@, b@, self.modulus()),
            a@ * b@ < self.modulus() ==> r@ == a@ * b@,
            r.in_field(*self),
    {
        let product = big_full_mul(a.value, b.value);
        let reduced = big_rem_wide(product, self.p.widen());
        proof {
            lemma_mod_bound(a@ * b@, self.p@);
            lemma_mul_nonnegative(a@, b@);
            if a@ * b@ < self.p@ {
                lemma_small_mod((a@ * b@) as nat, self.p@ as nat);
            }
        }
        FieldElement { value: reduced.narrow(), field: *self }
    }

    /// The difference of two elements: where the minuend is the smaller, the
    /// modulus is added before the subtraction.
    pub fn subtract(&self, a: &FieldElement, b: &FieldElement) -> (r: FieldElement)
        requires
            a.in_field(*self),
            b.in_field(*self),
        ensures
            r@ == fsub(a@, b@, self.modulus()),
            r@ == (if a@ >= b@ {
                a@ - b@
            } else {
                a@ - b@ + self.modulus()
            }),
            r.in_field(*self),
    {
        if a.value.lt(&b.value) {
            let gap = big_sub(self.p, b.value);
            proof {
                lemma_mod_plus_multiple(a@ - b@, 1, self.p@);
                lemma_small_mod((a@ - b@ + self.p@) as nat, self.p@ as nat);
            }
            FieldElement { value: big_add(a.value, gap), field: *self }
        } else {
            proof {
                lemma_small_mod((a@ - b@) as nat, self.p@ as nat);
            }
            FieldElement { value: big_sub(a.value, b.value), field: *self }
        }
    }

    /// The quotient of two elements; there is none by zero.
    pub fn divide(&self, a: &FieldElement, b: &FieldElement) -> (r: Result<
        FieldElement,
        FieldError,
    >)
        requires
            a.in_field(*self),
            b.in_field(*self),
        ensures
            b@ == 0 <==> r is Err,
            r is Err ==> r->Err_0.kind == ErrorKind::DivisionByZero,
            r is Ok ==> r->Ok_0@ == fdiv(a@, b@, self.modulus()) && r->Ok_0.in_field(*self),
            r is Ok && (self.is_prime() || gcd(b@, self.modulus()) == 1) ==> fmul(
                r->Ok_0@,
                b@,
                self.modulus(),
            ) == a@,
    {
        proof {
            if b@ != 0 && self.is_prime() {
                lemma_prime_coprime(b@, self.modulus());
            }
            if gcd(b@, self.modulus()) == 1 {
                lemma_divide_by_unit(a@, b@, self.modulus());
            }
        }
        match self.inverse(*b) {
            Ok(inv) => Ok(self.multiply(a, &inv)),
            Err(e) => Err(e),
        }
    }

    /// The additive inverse of an element.
    pub fn negate(&self, operand: FieldElement) -> (r: FieldElement)
        requires
            operand.in_field(*self),
        ensures
            r@ == fneg(operand@, self.modulus()),
            r@ == (if operand@ == 0 {
                0
            } else {
                self.modulus() - operand@
            }),
            r.in_field(*self),
    {
        if operand.value.is_zero() {
            proof {
                lemma_mod_self_0(self.p@);
            }
            FieldElement { value: U256::zero(), field: *self }
        } else {
            proof {
                lemma_small_mod((self.p@ - operand@) as nat, self.p@ as nat);
            }
            FieldElement { value: big_sub(self.p, operand.value), field: *self }
        }
    }

    /// The multiplicative inverse of an element, by the extended Euclidean
    /// algorithm on the element and the modulus; zero has none. Times the
    /// element, the result is their greatest common divisor, which is one
    /// wherever the modulus is prime.
    pub fn inverse(&self, operand: FieldElement) -> (r: Result<FieldElement, FieldError>)
        requires
            operand.in_field(*self),
        ensures
            operand@ == 0 <==> r is Err,
            r is Err ==> r->Err_0.kind == ErrorKind::DivisionByZero,
            r is Ok ==> r->Ok_0@ == finv(operand@, self.modulus()) && r->Ok_0.in_field(*self),
            r is Ok ==> fmul(r->Ok_0@, operand@, self.modulus()) == gcd(operand@, self.modulus())
                % self.modulus(),
            r is Ok && self.is_prime() ==> fmul(operand@, r->Ok_0@, self.modulus()) == 1,
    {
        if operand.value.is_zero() {
            return Err(FieldError::new(ErrorKind::DivisionByZero));
        }
        proof {
            lemma_small_mod(operand@ as nat, self.p@ as nat);
            if self.is_prime() {
                lemma_inverse_in_prime_field(operand);
            }
        }
        let (s, _t, _g) = xgcd(&operand.value, &self.p);
        Ok(FieldElement { value: s, field: *self })
    }

    /// The generator of the subgroup of order `2^119`, which is known for
    /// the reference field alone; it is of order `2^119`.
    pub fn generator(&self) -> (r: Result<FieldElement, FieldError>)
        requires
            self.wf(),
        ensures
            self.modulus() == REFERENCE_MODULUS <==> r is Ok,
            r is Err ==> r->Err_0.kind == ErrorKind::UnsupportedField,
            r is Ok ==> r->Ok_0@ == REFERENCE_GENERATOR && r->Ok_0.in_field(*self),
            r is Ok ==> has_order(r->Ok_0@, pow2(119) as int, self.modulus()),
    {
        proof {
            lemma_generator_order();
            lemma_small_mod(REFERENCE_GENERATOR as nat, REFERENCE_MODULUS as nat);
            lemma_order_of_root(REFERENCE_GENERATOR as int, 119, REFERENCE_MODULUS as int);
        }
        if self.p.equals(&U256::from_u128(REFERENCE_MODULUS)) {
            Ok(FieldElement { value: U256::from_u128(REFERENCE_GENERATOR), field: *self })
        } else {
            Err(FieldError::new(ErrorKind::UnsupportedField))
        }
    }

    /// The element that the limbs fold into: the accumulator starts at zero,
    /// and each limb in turn is combined into it by `(acc << 8) ^ limb` in
    /// 256 bits; the last accumulator is reduced in the field.
    pub fn sample(&self, byte_array: &[U256]) -> (r: FieldElement)
        requires
            self.wf(),
        ensures
            r@ == sample_fold(byte_array@.map_values(|limb: U256| limb@)) % self.modulus(),
            r.in_field(*self),
    {
        let mut acc = U256::zero();
        let ghost limbs = byte_array@.map_values(|limb: U256| limb@);
        let mut i: usize = 0;
        while i < byte_array.len()
            invariant
                i <= byte_array.len(),
                limbs == byte_array@.map_values(|limb: U256| limb@),
                acc@ == sample_fold(limbs.take(i as int)),
            decreases byte_array.len() - i,
        {
            let shifted = big_shl(acc, 8);
            let limb = byte_array[i];
            proof {
                let next = limbs.take(i + 1);
                assert(next.drop_last() =~= limbs.take(i as int));
                assert(next.last() == limb@);
                lemma_pow2_values();
                assert(shifted@ == (acc@ * 256) % u256_limit());
            }
            acc = big_xor(shifted, limb);
            i = i + 1;
        }
        proof {
            assert(limbs.take(i as int) =~= limbs);
            lemma_mod_bound(acc@, self.p@);
        }
        FieldElement { value: big_rem(acc, self.p), field: *self }
    }

    /// The primitive `n`-th root of unity of the reference field, for `n` a
    /// power of two up to `2^119`: the generator is squared, and its order
    /// halved, until the order is `n`. The root is of order `n`: raised to
    /// the power `n` it is one, and raised to no smaller positive exponent.
    pub fn primite_nth_root(&self, n: &U256) -> (r: Result<FieldElement, FieldError>)
        requires
            self.wf(),
        ensures
            r is Ok <==> self.modulus() == REFERENCE_MODULUS && is_supported_order(n@),
            r is Err ==> r->Err_0.kind == (if self.modulus() != REFERENCE_MODULUS {
                ErrorKind::UnsupportedField
            } else {
                ErrorKind::UnsupportedOrder
            }),
            r is Ok ==> r->Ok_0@ == fpow(
                REFERENCE_GENERATOR as int,
                (pow2(REFERENCE_ORDER_LOG as nat) as int / n@) as nat,
                self.modulus(),
            ) && r->Ok_0.in_field(*self),
            r is Ok ==> has_order(r->Ok_0@, n@, self.modulus()),
    {
        if !self.p.equals(&U256::from_u128(REFERENCE_MODULUS)) {
            return Err(FieldError::new(ErrorKind::UnsupportedField));
        }
        let mut root = FieldElement { value: U256::from_u128(REFERENCE_GENERATOR), field: *self };
        let mut order = big_shl(U256::one(), REFERENCE_ORDER_LOG as usize);
        let two = U256::from_u64(2);
        let mut k: u32 = REFERENCE_ORDER_LOG;
        proof {
            lemma_pow2_strictly_increases(119, 128);
            lemma_pow2_128();
            lemma_small_mod(pow2(119), u256_limit() as nat);
            lemma_pow1(REFERENCE_GENERATOR as int);
            lemma2_to64();
            lemma_small_mod(REFERENCE_GENERATOR as nat, self.p@ as nat);
        }
        while !order.equals(n)
            invariant
                k <= REFERENCE_ORDER_LOG,
                two@ == 2,
                self.modulus() == REFERENCE_MODULUS,
                order@ == pow2(k as nat),
                root.in_field(*self),
                root@ == fpow(
                    REFERENCE_GENERATOR as int,
                    pow2((REFERENCE_ORDER_LOG - k) as nat),
                    self.modulus(),
                ),
                forall|j: nat| k < j <= REFERENCE_ORDER_LOG ==> n@ != #[trigger] pow2(j),
            decreases k,
        {
            if k == 0 {
                proof {
                    assert forall|j: nat| j <= REFERENCE_ORDER_LOG implies n@ != #[trigger] pow2(
                        j,
                    ) by {
                        if j == 0 {
                        }
                    }
                }
                return Err(FieldError::new(ErrorKind::UnsupportedOrder));
            }
            proof {
                lemma_pow2_unfold(k as nat);
                lemma_pow2_unfold((REFERENCE_ORDER_LOG - k + 1) as nat);
                lemma_square_of_power(
                    REFERENCE_GENERATOR as int,
                    pow2((REFERENCE_ORDER_LOG - k) as nat),
                    self.modulus(),
                );
            }
            root = root.modexp(2);
            order = big_div(order, two);
            k = k - 1;
        }
        proof {
            // the order reached is n, so 2^119 / n is the exponent reached
            let reached = (REFERENCE_ORDER_LOG - k) as nat;
            lemma_pow2_adds(k as nat, reached);
            lemma_pow2_pos(k as nat);
            lemma_div_multiples_vanish(pow2(reached) as int, pow2(k as nat) as int);
            assert(is_supported_order(n@));
            lemma_root_order(k as nat);
            lemma_order_of_root(root@, k as nat, self.modulus());
        }
        Ok(root)
    }
}

impl FieldElement {
    /// The representative lies in `[0, modulus)`.
    pub open spec fn wf(&self) -> bool {
        self.field.wf() && 0 <= self.value@ < self.field.p@
    }

    /// This is a well-formed element of the field `f`.
    pub open spec fn in_field(&self, f: Field) -> bool {
        self.wf() && self.field == f
    }

    /// The element of `field` that `value` stands for: its remainder modulo
    /// the modulus.
    pub fn new(value: U256, field: Field) -> (r: FieldElement)
        requires
            field.wf(),
        ensures
            r@ == value@ % field.modulus(),
            value@ < field.modulus() ==> r@ == value@,
            r.in_field(field),
    {
        proof {
            lemma_mod_bound(value@, field.p@);
            if value@ < field.p@ {
                lemma_small_mod(value@ as nat, field.p@ as nat);
            }
        }
        FieldElement { value: big_rem(value, field.p), field }
    }

    /// Whether this is the additive identity.
    pub fn is_zero(&self) -> (r: bool)
        ensures
            r == (self@ == 0),
    {
        self.value.is_zero()
    }

    /// The sum with `rhs`.
    pub fn add(self, rhs: FieldElement) -> (r: FieldElement)
        requires
            self.wf(),
            rhs.in_field(self.field),
        ensures
            r@ == fadd(self@, rhs@, self.field.modulus()),
            r@ == (if self@ + rhs@ < self.field.modulus() {
                self@ + rhs@
            } else {
                self@ + rhs@ - self.field.modulus()
            }),
            r.in_field(self.field),
    {
        self.field.add(&self, &rhs)
    }

    /// The difference with `rhs`.
    pub fn sub(self, rhs: FieldElement) -> (r: FieldElement)
        requires
            self.wf(),
            rhs.in_field(self.field),
        ensures
            r@ == fsub(self@, rhs@, self.field.modulus()),
            r@ == (if self@ >= rhs@ {
                self@ - rhs@
            } else {
                self@ - rhs@ + self.field.modulus()
            }),
            r.in_field(self.field),
    {
        self.field.subtract(&self, &rhs)
    }

    /// The product with `rhs`.
    pub fn mul(self, rhs: FieldElement) -> (r: FieldElement)
        requires
            self.wf(),
            rhs.in_field(self.field),
        ensures
            r@ == fmul(self@, rhs@, self.field.modulus()),
            self@ * rhs@ < self.field.modulus() ==> r@ == self@ * rhs@,
            r.in_field(self.field),
    {
        self.field.multiply(&self, &rhs)
    }

    /// The quotient by `rhs`; there is none by zero.
    pub fn div(self, rhs: FieldElement) -> (r: Result<FieldElement, FieldError>)
        requires
            self.wf(),
            rhs.in_field(self.field),
        ensures
            rhs@ == 0 <==> r is Err,
            r is Err ==> r->Err_0.kind == ErrorKind::DivisionByZero,
            r is Ok ==> r->Ok_0@ == fdiv(self@, rhs@, self.field.modulus()) && r->Ok_0.in_field(
                self.field,
            ),
            r is Ok && (self.field.is_prime() || gcd(rhs@, self.field.modulus()) == 1) ==> fmul(
                r->Ok_0@,
                rhs@,
                self.field.modulus(),
            ) == self@,
    {
        self.field.divide(&self, &rhs)
    }

    /// The additive inverse.
    pub fn neg(self) -> (r: FieldElement)
        requires
            self.wf(),
        ensures
            r@ == fneg(self@, self.field.modulus()),
            r@ == (if self@ == 0 {
                0
            } else {
                self.field.modulus() - self@
            }),
            r.in_field(self.field),
    {
        self.field.negate(self)
    }

    /// The multiplicative inverse; zero has none.
    pub fn inverse(&self) -> (r: Result<FieldElement, FieldError>)
        requires
            self.wf(),
        ensures
            self@ == 0 <==> r is Err,
            r is Err ==> r->Err_0.kind == ErrorKind::DivisionByZero,
            r is Ok ==> r->Ok_0@ == finv(self@, self.field.modulus()) && r->Ok_0.in_field(
                self.field,
            ),
            r is Ok ==> fmul(r->Ok_0@, self@, self.field.modulus()) == gcd(
                self@,
                self.field.modulus(),
            ) % self.field.modulus(),
            r is Ok && self.field.is_prime() ==> fmul(self@, r->Ok_0@, self.field.modulus()) == 1,
    {
        self.field.inverse(*self)
    }

    /// The power with a natural exponent, by square and multiply over the
    /// bits of the exponent from the most significant down; the power with
    /// exponent zero is one.
    pub fn modexp(&self, exponent: usize) -> (r: FieldElement)
        requires
            self.wf(),
        ensures
            r@ == fpow(self@, exponent as nat, self.field.modulus()),
            r.in_field(self.field),
    {
        let e: u128 = exponent as u128;
        let mut acc = self.field.one();
        let mut i: u128 = bit_length(e);
        proof {
            lemma_pow0(self@);
        }
        while i > 0
            invariant
                i <= 128,
                self.wf(),
                acc.in_field(self.field),
                acc@ == fpow(self@, high_bits(e, i as nat), self.field.modulus()),
            decreases i,
        {
            i = i - 1;
            proof {
                lemma_bit_step(e, i);
                lemma_square_and_multiply(
                    self@,
                    high_bits(e, (i + 1) as nat),
                    self.field.modulus(),
                );
            }
            acc = acc.mul(acc);
            if (e >> i) & 1 == 1 {
                acc = acc.mul(*self);
            }
        }
        proof {
            lemma2_to64();
            assert(high_bits(e, 0) == e as nat / 1);
            assert(high_bits(e, 0) == exponent as nat);
        }
        acc
    }
}

/// A shift by eight bits is a multiplication by 256.
pub proof fn lemma_pow2_values()
    ensures
        pow2(8) == 256,
{
    lemma2_to64();
}

/// Squaring a power doubles its exponent, and one more factor adds one to
/// it.
pub proof fn lemma_square_and_multiply(b: int, h: nat, p: int)
    requires
        p > 0,
    ensures
        fmul(fpow(b, h, p), fpow(b, h, p), p) == fpow(b, 2 * h, p),
        fmul(fpow(b, 2 * h, p), b, p) == fpow(b, 2 * h + 1, p),
{
    lemma_pow_adds(b, h, h);
    lemma_mul_mod_noop(pow(b, h), pow(b, h), p);
    lemma_pow_adds(b, 2 * h, 1);
    lemma_pow1(b);
    lemma_mul_mod_noop_left(pow(b, 2 * h), b, p);
}

/// The square of a power of `b` is the power of `b` with twice the exponent.
pub proof fn lemma_square_of_power(b: int, m: nat, p: int)
    requires
        p > 0,
    ensures
        fpow(fpow(b, m, p), 2, p) == fpow(b, 2 * m, p),
{
    lemma_pow_mod_noop(pow(b, m), 2, p);
    lemma_pow_multiplies(b, m, 2);
}

/// Dividing by a number coprime to the modulus and multiplying by it again
/// gives the dividend back.
pub proof fn lemma_divide_by_unit(a: int, b: int, p: int)
    requires
        0 <= a < p,
        0 <= b,
        gcd(b, p) == 1,
    ensures
        fmul(fdiv(a, b, p), b, p) == a,
        fmul(finv(b, p), b, p) == 1int % p,
{
    lemma_xgcd_spec(b, p);
    let s = finv(b, p);
    // ((a * s) % p) * b == a * (s * b) == a * 1 (mod p)
    lemma_mul_mod_noop_left(a * s, b, p);
    assert((a * s) * b == a * (s * b)) by (nonlinear_arith);
    lemma_mul_mod_noop_right(a, s * b, p);
    lemma_mul_mod_noop_right(a, 1, p);
    assert(a * 1 == a);
    lemma_small_mod(a as nat, p as nat);
    assert(fdiv(a, b, p) == (a * s) % p);
}

/// Dividing by a nonzero element of a prime field and multiplying by it
/// again gives the dividend back.
pub proof fn lemma_divide_then_multiply(a: FieldElement, b: FieldElement)
    requires
        a.wf(),
        b.in_field(a.field),
        a.field.is_prime(),
        b@ != 0,
    ensures
        fmul(fdiv(a@, b@, a.field.modulus()), b@, a.field.modulus()) == a@,
{
    let p = a.field.modulus();
    lemma_inverse_in_prime_field(b);
    let s = finv(b@, p);
    // ((a * s) % p) * b == a * (s * b) == a * 1 (mod p)
    assert(fmul(s, b@, p) == 1);
    lemma_mul_mod_noop_left(a@ * s, b@, p);
    assert((a@ * s) * b@ == a@ * (s * b@)) by (nonlinear_arith);
    lemma_mul_mod_noop_right(a@, s * b@, p);
    assert(a@ * ((s * b@) % p) == a@) by (nonlinear_arith)
        requires
            (s * b@) % p == 1,
    ;
    lemma_small_mod(a@ as nat, p as nat);
    assert(fdiv(a@, b@, p) == (a@ * s) % p);
}

/// An element and its additive inverse sum to zero.
pub proof fn lemma_add_negation(a: FieldElement)
    requires
        a.wf(),
    ensures
        fadd(a@, fneg(a@, a.field.modulus()), a.field.modulus()) == 0,
{
    let p = a.field.modulus();
    lemma_add_mod_noop_right(a@, p - a@, p);
    lemma_mod_self_0(p);
}

/// In a prime field the inverse of a nonzero element is a nonzero element,
/// and their product is one.
pub proof fn lemma_inverse_in_prime_field(a: FieldElement)
    requires
        a.wf(),
        a.field.is_prime(),
        a@ != 0,
    ensures
        fmul(a@, finv(a@, a.field.modulus()), a.field.modulus()) == 1,
        fmul(finv(a@, a.field.modulus()), a@, a.field.modulus()) == 1,
        0 < finv(a@, a.field.modulus()) < a.field.modulus(),
{
    let p = a.field.modulus();
    lemma_prime_coprime(a@, p);
    lemma_xgcd_spec(a@, p);
    lemma_small_mod(a@ as nat, p as nat);
    lemma_small_mod(1, p as nat);
    let s = finv(a@, p);
    assert(a@ * s == s * a@) by (nonlinear_arith);
    if s == 0 {
        assert(s * a@ == 0) by (nonlinear_arith)
            requires
                s == 0,
        ;
        lemma_small_mod(0, p as nat);
    }
}

} // verus!
