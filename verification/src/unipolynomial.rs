//! Univariate polynomials over a prime field.
//!
//! A [`UPolynomial`] is a vector of coefficients, the coefficient of `x^i` at
//! index `i`, all of one field; the zero polynomial is the empty vector or
//! any vector of zeros. Its view is the sequence of the coefficients'
//! representatives, and every operation states its result over the model of
//! `poly_spec`.

use crate::algebra::{
    fadd, fmul, fneg, fpow, fsub, lemma_field_element_equal, ErrorKind, Field, FieldElement,
    FieldError,
};
use crate::number_theory::{bit_length, gcd, high_bits, lemma_bit_step, lemma_prime_coprime};
use crate::poly_laws::{
    is_division, lemma_distinct_units_apart, lemma_divide_general, lemma_interpolate_eval,
    lemma_modexp_zero_one, lemma_mul_degree, lemma_mul_degree_general, lemma_pow_adds_poly,
    lemma_pow_shape, lemma_scale_composes, lemma_zeroifier_degree, lemma_zeroifier_nonzero_outside,
    lemma_zeroifier_vanishes, units_apart,
};
use crate::poly_roots::{lemma_colinearity_prime, sampled_from};
use crate::poly_spec::{
    basis_factor, canonical, coeff, conv, degree, divide_steps, eval_sum, has_collision,
    lagrange_sum, lagrange_term, leading, lemma_basis_factor, lemma_conv_skip, lemma_degree,
    lemma_degree_unique, lemma_fsub_zero, lemma_linear_factor, lemma_mul, lemma_sub_shifted, longer,
    poly_add, poly_divide, poly_equiv, poly_eval, poly_interpolate, poly_modexp, poly_mul, poly_neg,
    poly_one, poly_pow, poly_scale, poly_sub, poly_zeroifier, sub_shifted,
};
use vstd::arithmetic::div_mod::*;
use vstd::arithmetic::power::*;
use vstd::arithmetic::power2::{lemma2_to64, lemma_pow2_pos, pow2};
use vstd::prelude::*;

verus! {

/// A polynomial in one variable over a field: its coefficients, the
/// coefficient of `x^i` at index `i`, and the field they belong to. The field
/// is held beside the coefficients so that the zero polynomial, which may
/// have none, still has its zero and its one.
#[derive(Debug)]
pub struct UPolynomial {
    pub coefficients: Vec<FieldElement>,
    pub field: Field,
}

impl PartialEq for UPolynomial {
    /// Whether both hold the same coefficients over the same field. Two
    /// sequences that spell the same polynomial with different numbers of
    /// zeros at their ends are not equal.
    fn eq(&self, other: &UPolynomial) -> (r: bool) {
        if !self.field.p.equals(&other.field.p) {
            return false;
        }
        if self.coefficients.len() != other.coefficients.len() {
            return false;
        }
        let mut i: usize = 0;
        while i < self.coefficients.len()
            invariant
                i <= self.coefficients.len(),
                self.coefficients.len() == other.coefficients.len(),
                forall|j: int| 0 <= j < i ==> self.coefficients@[j] == other.coefficients@[j],
            decreases self.coefficients.len() - i,
        {
            let a = self.coefficients[i];
            let b = other.coefficients[i];
            proof {
                lemma_field_element_equal(a, b);
            }
            if !(a.value.equals(&b.value) && a.field.p.equals(&b.field.p)) {
                return false;
            }
            i = i + 1;
        }
        assert(self.coefficients@ =~= other.coefficients@);
        true
    }
}

impl Eq for UPolynomial {

}

impl vstd::std_specs::cmp::PartialEqSpecImpl for UPolynomial {
    open spec fn obeys_eq_spec() -> bool {
        true
    }

    open spec fn eq_spec(&self, other: &UPolynomial) -> bool {
        self.coefficients@ == other.coefficients@ && self.field == other.field
    }
}

impl Clone for UPolynomial {
    /// A polynomial with the same coefficients over the same field.
    fn clone(&self) -> (r: UPolynomial)
        ensures
            r.coefficients@ == self.coefficients@,
            r.field == self.field,
            r@ == self@,
    {
        let mut coefficients: Vec<FieldElement> = Vec::new();
        let mut i: usize = 0;
        while i < self.coefficients.len()
            invariant
                i <= self.coefficients.len(),
                coefficients@ == self.coefficients@.take(i as int),
            decreases self.coefficients.len() - i,
        {
            coefficients.push(self.coefficients[i]);
            assert(coefficients@ =~= self.coefficients@.take(i + 1));
            i = i + 1;
        }
        assert(coefficients@ =~= self.coefficients@);
        UPolynomial { coefficients, field: self.field }
    }
}

/// The representatives of a sequence of field elements.
pub open spec fn values_of(elements: Seq<FieldElement>) -> Seq<int> {
    elements.map_values(|e: FieldElement| e@)
}

/// Every element of the sequence is a well-formed element of `field`.
pub open spec fn all_in_field(elements: Seq<FieldElement>, field: Field) -> bool {
    forall|i: int| 0 <= i < elements.len() ==> (#[trigger] elements[i]).in_field(field)
}

/// The first components of the points.
pub open spec fn abscissas(points: Seq<(FieldElement, FieldElement)>) -> Seq<int> {
    Seq::new(points.len(), |i: int| points[i].0@)
}

/// The second components of the points.
pub open spec fn ordinates(points: Seq<(FieldElement, FieldElement)>) -> Seq<int> {
    Seq::new(points.len(), |i: int| points[i].1@)
}

impl View for UPolynomial {
    type V = Seq<int>;

    /// The representatives of the coefficients.
    open spec fn view(&self) -> Seq<int> {
        values_of(self.coefficients@)
    }
}

/// The representatives of well-formed elements are canonical.
pub proof fn lemma_values_canonical(elements: Seq<FieldElement>, field: Field)
    requires
        all_in_field(elements, field),
    ensures
        canonical(values_of(elements), field.modulus()),
{
    let s = values_of(elements);
    assert forall|i: int| 0 <= i < s.len() implies 0 <= #[trigger] s[i] < field.modulus() by {
        assert(elements[i].in_field(field));
    }
}

impl UPolynomial {
    /// The field is well-formed and every coefficient belongs to it.
    pub open spec fn wf(&self) -> bool {
        &&& self.field.wf()
        &&& all_in_field(self.coefficients@, self.field)
    }

    /// The modulus of the polynomial's field.
    pub open spec fn modulus(&self) -> int {
        self.field.modulus()
    }

    /// This is a well-formed polynomial over `field`.
    pub open spec fn over(&self, field: Field) -> bool {
        self.wf() && self.field == field
    }

    /// The polynomial over `field` with the given coefficients, the
    /// coefficient of `x^i` at index `i`.
    pub fn new(field: Field, coefficients: Vec<FieldElement>) -> (r: UPolynomial)
        requires
            field.wf(),
            all_in_field(coefficients@, field),
        ensures
            r.coefficients == coefficients,
            r.over(field),
    {
        UPolynomial { coefficients, field }
    }

    /// The polynomial with no coefficients, which is zero.
    pub fn empty(field: Field) -> (r: UPolynomial)
        requires
            field.wf(),
        ensures
            r@ == Seq::<int>::empty(),
            r.over(field),
    {
        let r = UPolynomial { coefficients: Vec::new(), field };
        assert(r@ =~= Seq::<int>::empty());
        r
    }

    /// The constant polynomial `c`.
    pub fn constant(c: FieldElement) -> (r: UPolynomial)
        requires
            c.wf(),
        ensures
            r@ == seq![c@],
            r.over(c.field),
    {
        let mut coefficients = Vec::new();
        coefficients.push(c);
        let r = UPolynomial { coefficients, field: c.field };
        assert(r@ =~= seq![c@]);
        r
    }

    /// The highest index with a nonzero coefficient; `-1` for the zero
    /// polynomial.
    pub fn degree(&self) -> (r: i128)
        ensures
            r == degree(self@),
    {
        let mut i: usize = self.coefficients.len();
        while i > 0
            invariant
                i <= self.coefficients.len(),
                forall|j: int| i <= j < self.coefficients.len() ==> self@[j] == 0,
            decreases i,
        {
            if !self.coefficients[i - 1].is_zero() {
                proof {
                    lemma_degree_unique(self@, (i - 1) as int);
                }
                return (i - 1) as i128;
            }
            i = i - 1;
        }
        proof {
            lemma_degree_unique(self@, -1);
        }
        -1
    }

    /// Whether this is the zero polynomial.
    pub fn is_zero(&self) -> (r: bool)
        ensures
            r == (degree(self@) == -1),
    {
        self.degree() == -1
    }

    /// The coefficient at the degree; zero for the zero polynomial.
    pub fn leading_coefficient(&self) -> (r: FieldElement)
        requires
            self.wf(),
        ensures
            r@ == leading(self@),
            r.in_field(self.field),
    {
        let d = self.degree();
        proof {
            lemma_degree(self@);
            assert(self@.len() == self.coefficients@.len());
        }
        if d == -1 {
            self.field.zero()
        } else {
            let len = self.coefficients.len();
            assert(0 <= d < len);
            let index = d as usize;
            assert(self.coefficients@[index as int].in_field(self.field));
            assert(self@[index as int] == self.coefficients@[index as int]@);
            self.coefficients[index]
        }
    }

    /// The polynomial with every coefficient negated.
    pub fn neg(&self) -> (r: UPolynomial)
        requires
            self.wf(),
        ensures
            r@ == poly_neg(self@, self.modulus()),
            r.over(self.field),
    {
        let mut coefficients: Vec<FieldElement> = Vec::new();
        let mut i: usize = 0;
        while i < self.coefficients.len()
            invariant
                i <= self.coefficients.len(),
                self.wf(),
                coefficients@.len() == i,
                all_in_field(coefficients@, self.field),
                forall|j: int| 0 <= j < i ==> (#[trigger] coefficients@[j])@ == fneg(
                    self@[j],
                    self.modulus(),
                ),
            decreases self.coefficients.len() - i,
        {
            assert(self.coefficients@[i as int].in_field(self.field));
            coefficients.push(self.coefficients[i].neg());
            i = i + 1;
        }
        let r = UPolynomial { coefficients, field: self.field };
        assert(r@ =~= poly_neg(self@, self.modulus()));
        r
    }

    /// The coefficient of `x^i`, which is zero beyond the coefficients held.
    pub fn coefficient(&self, i: usize) -> (r: FieldElement)
        requires
            self.wf(),
        ensures
            r@ == coeff(self@, i as int),
            r.in_field(self.field),
    {
        if i < self.coefficients.len() {
            assert(self.coefficients@[i as int].in_field(self.field));
            self.coefficients[i]
        } else {
            self.field.zero()
        }
    }

    /// The sum with `rhs`. Where one of the two is zero the other is
    /// returned as it stands; else the shorter is padded with zeros.
    pub fn add(&self, rhs: &UPolynomial) -> (r: UPolynomial)
        requires
            self.wf(),
            rhs.over(self.field),
        ensures
            r@ == poly_add(self@, rhs@, self.modulus()),
            r.over(self.field),
    {
        if self.is_zero() {
            return rhs.clone();
        }
        if rhs.is_zero() {
            return self.clone();
        }
        let len = if self.coefficients.len() >= rhs.coefficients.len() {
            self.coefficients.len()
        } else {
            rhs.coefficients.len()
        };
        let mut coefficients: Vec<FieldElement> = Vec::new();
        let mut i: usize = 0;
        while i < len
            invariant
                i <= len,
                len == longer(self@.len(), rhs@.len()),
                self.wf(),
                rhs.over(self.field),
                coefficients@.len() == i,
                all_in_field(coefficients@, self.field),
                forall|j: int| 0 <= j < i ==> (#[trigger] coefficients@[j])@ == fadd(
                    coeff(self@, j),
                    coeff(rhs@, j),
                    self.modulus(),
                ),
            decreases len - i,
        {
            let a = self.coefficient(i);
            let b = rhs.coefficient(i);
            coefficients.push(a.add(b));
            i = i + 1;
        }
        let r = UPolynomial { coefficients, field: self.field };
        assert(r@ =~= poly_add(self@, rhs@, self.modulus()));
        r
    }

    /// The difference with `rhs`: the sum with its negation.
    pub fn sub(&self, rhs: &UPolynomial) -> (r: UPolynomial)
        requires
            self.wf(),
            rhs.over(self.field),
        ensures
            r@ == poly_sub(self@, rhs@, self.modulus()),
            r.over(self.field),
    {
        let negated = rhs.neg();
        self.add(&negated)
    }

    /// The product with `rhs`, the convolution of the coefficients: of
    /// length `len(self) + len(rhs) - 1`, and empty where a factor is empty.
    pub fn mul(&self, rhs: &UPolynomial) -> (r: UPolynomial)
        requires
            self.wf(),
            rhs.over(self.field),
            self@.len() == 0 || rhs@.len() == 0 || self@.len() + rhs@.len() - 1 <= usize::MAX,
        ensures
            r@ == poly_mul(self@, rhs@, self.modulus()),
            r@.len() == (if self@.len() == 0 || rhs@.len() == 0 {
                0
            } else {
                self@.len() + rhs@.len() - 1
            }),
            r.over(self.field),
            degree(self@) >= 0 && degree(rhs@) >= 0 && (self.field.is_prime() || fmul(
                leading(self@),
                leading(rhs@),
                self.modulus(),
            ) != 0) ==> degree(r@) == degree(self@) + degree(rhs@),
    {
        let la = self.coefficients.len();
        let lb = rhs.coefficients.len();
        proof {
            if degree(self@) >= 0 && degree(rhs@) >= 0 {
                lemma_values_canonical(self.coefficients@, self.field);
                lemma_values_canonical(rhs.coefficients@, self.field);
                if self.field.is_prime() {
                    lemma_mul_degree(self@, rhs@, self.modulus());
                } else if fmul(leading(self@), leading(rhs@), self.modulus()) != 0 {
                    lemma_mul_degree_general(self@, rhs@, self.modulus());
                }
            }
        }
        if la == 0 || lb == 0 {
            return UPolynomial::empty(self.field);
        }
        let len = la - 1 + lb;
        let zero = self.field.zero();
        let ghost p = self.modulus();
        let ghost a = self@;
        let ghost b = rhs@;
        let mut buf: Vec<FieldElement> = Vec::new();
        let mut k: usize = 0;
        while k < len
            invariant
                k <= len,
                zero.in_field(self.field),
                zero@ == 0,
                buf@.len() == k,
                all_in_field(buf@, self.field),
                forall|j: int| 0 <= j < k ==> (#[trigger] buf@[j])@ == 0,
            decreases len - k,
        {
            buf.push(zero);
            k = k + 1;
        }
        proof {
            assert forall|j: int| 0 <= j < len implies (#[trigger] buf@[j])@ == conv(a, b, j, 0)
                % p by {
                lemma_small_mod(0, p as nat);
            }
        }
        let mut i: usize = 0;
        while i < la
            invariant
                i <= la,
                la == self.coefficients.len(),
                lb == rhs.coefficients.len(),
                len == la - 1 + lb,
                la > 0,
                lb > 0,
                self.wf(),
                rhs.over(self.field),
                p == self.modulus(),
                a == self@,
                b == rhs@,
                buf@.len() == len,
                all_in_field(buf@, self.field),
                forall|j: int| 0 <= j < len ==> (#[trigger] buf@[j])@ == conv(a, b, j, i as int)
                    % p,
            decreases la - i,
        {
            let ai = self.coefficients[i];
            assert(self.coefficients@[i as int].in_field(self.field));
            if ai.is_zero() {
                proof {
                    assert forall|j: int| 0 <= j < len implies (#[trigger] buf@[j])@ == conv(
                        a,
                        b,
                        j,
                        i + 1,
                    ) % p by {
                        lemma_conv_skip(a, b, j, i as int);
                    }
                }
            } else {
                let mut j: usize = 0;
                while j < lb
                    invariant
                        j <= lb,
                        i < la,
                        la == self.coefficients.len(),
                        lb == rhs.coefficients.len(),
                        len == la - 1 + lb,
                        self.wf(),
                        rhs.over(self.field),
                        p == self.modulus(),
                        a == self@,
                        b == rhs@,
                        ai == self.coefficients@[i as int],
                        ai.in_field(self.field),
                        buf@.len() == len,
                        all_in_field(buf@, self.field),
                        forall|m: int|
                            0 <= m < len ==> (#[trigger] buf@[m])@ == (if i <= m < i + j {
                                conv(a, b, m, i + 1) % p
                            } else {
                                conv(a, b, m, i as int) % p
                            }),
                    decreases lb - j,
                {
                    let bj = rhs.coefficients[j];
                    assert(rhs.coefficients@[j as int].in_field(self.field));
                    let old_term = buf[i + j];
                    assert(buf@[i + j].in_field(self.field));
                    let new_term = old_term.add(ai.mul(bj));
                    proof {
                        // (conv % p + (a_i * b_j) % p) % p is the longer convolution
                        let term = a[i as int] * b[j as int];
                        lemma_add_mod_noop(conv(a, b, i + j, i as int), term, p);
                        assert(coeff(b, (i + j) - i) == b[j as int]);
                        assert(coeff(a, i as int) == a[i as int]);
                    }
                    buf.set(i + j, new_term);
                    j = j + 1;
                }
                proof {
                    assert forall|m: int| 0 <= m < len implies (#[trigger] buf@[m])@ == conv(
                        a,
                        b,
                        m,
                        i + 1,
                    ) % p by {
                        if !(i <= m < i + lb) {
                            lemma_conv_skip(a, b, m, i as int);
                        }
                    }
                }
            }
            i = i + 1;
        }
        let r = UPolynomial { coefficients: buf, field: self.field };
        assert(r@ =~= poly_mul(self@, rhs@, self.modulus()));
        r
    }

    /// The value at `point`: the sum of `coefficient[i] * point^i`, kept as
    /// a running sum beside a running power of the point.
    pub fn evaluate(&self, point: &FieldElement) -> (r: FieldElement)
        requires
            self.wf(),
            point.in_field(self.field),
        ensures
            r@ == poly_eval(self@, point@, self.modulus()),
            r.in_field(self.field),
    {
        let ghost p = self.modulus();
        let ghost x = point@;
        let mut xi = self.field.one();
        let mut value = self.field.zero();
        let mut i: usize = 0;
        proof {
            lemma_pow0(x);
            lemma_small_mod(0, p as nat);
        }
        while i < self.coefficients.len()
            invariant
                i <= self.coefficients.len(),
                self.wf(),
                point.in_field(self.field),
                p == self.modulus(),
                x == point@,
                xi.in_field(self.field),
                value.in_field(self.field),
                xi@ == pow(x, i as nat) % p,
                value@ == eval_sum(self@, x, i as int) % p,
            decreases self.coefficients.len() - i,
        {
            let c = self.coefficients[i];
            assert(self.coefficients@[i as int].in_field(self.field));
            proof {
                let power = pow(x, i as nat);
                lemma_mul_mod_noop_right(c@, power, p);
                lemma_add_mod_noop(eval_sum(self@, x, i as int), c@ * power, p);
                lemma_mul_mod_noop_left(power, x, p);
                lemma_pow_adds(x, i as nat, 1);
                lemma_pow1(x);
                assert(coeff(self@, i as int) == c@);
            }
            value = value.add(c.mul(xi));
            xi = xi.mul(*point);
            i = i + 1;
        }
        value
    }

    /// The values at the points of `domain`, in their order.
    pub fn evaluate_domain(&self, domain: &Vec<FieldElement>) -> (r: Vec<FieldElement>)
        requires
            self.wf(),
            all_in_field(domain@, self.field),
        ensures
            r@.len() == domain@.len(),
            all_in_field(r@, self.field),
            forall|i: int|
                0 <= i < domain@.len() ==> (#[trigger] r@[i])@ == poly_eval(
                    self@,
                    domain@[i]@,
                    self.modulus(),
                ),
    {
        let mut res: Vec<FieldElement> = Vec::new();
        let mut i: usize = 0;
        while i < domain.len()
            invariant
                i <= domain.len(),
                self.wf(),
                all_in_field(domain@, self.field),
                res@.len() == i,
                all_in_field(res@, self.field),
                forall|j: int|
                    0 <= j < i ==> (#[trigger] res@[j])@ == poly_eval(
                        self@,
                        domain@[j]@,
                        self.modulus(),
                    ),
            decreases domain.len() - i,
        {
            assert(domain@[i as int].in_field(self.field));
            let val = self.evaluate(&domain[i]);
            res.push(val);
            i = i + 1;
        }
        res
    }

    /// The polynomial composed with `x -> factor * x`: the coefficient of
    /// `x^i` is multiplied by `factor^i`.
    pub fn scale(&self, factor: &FieldElement) -> (r: UPolynomial)
        requires
            self.wf(),
            factor.in_field(self.field),
        ensures
            r@ == poly_scale(self@, factor@, self.modulus()),
            r.over(self.field),
            forall|x: int| #[trigger]
                poly_eval(r@, x, self.modulus()) == poly_eval(
                    self@,
                    fmul(factor@, x, self.modulus()),
                    self.modulus(),
                ),
    {
        proof {
            assert forall|x: int| #[trigger]
                poly_eval(poly_scale(self@, factor@, self.modulus()), x, self.modulus())
                    == poly_eval(self@, fmul(factor@, x, self.modulus()), self.modulus()) by {
                lemma_scale_composes(self@, factor@, x, self.modulus());
            }
        }
        let mut coefficients: Vec<FieldElement> = Vec::new();
        let mut i: usize = 0;
        while i < self.coefficients.len()
            invariant
                i <= self.coefficients.len(),
                self.wf(),
                factor.in_field(self.field),
                coefficients@.len() == i,
                all_in_field(coefficients@, self.field),
                forall|j: int|
                    0 <= j < i ==> (#[trigger] coefficients@[j])@ == fmul(
                        fpow(factor@, j as nat, self.modulus()),
                        self@[j],
                        self.modulus(),
                    ),
            decreases self.coefficients.len() - i,
        {
            assert(self.coefficients@[i as int].in_field(self.field));
            coefficients.push(factor.modexp(i).mul(self.coefficients[i]));
            i = i + 1;
        }
        let r = UPolynomial { coefficients, field: self.field };
        assert(r@ =~= poly_scale(self@, factor@, self.modulus()));
        r
    }

    /// The quotient and the remainder of the long division of `numerator`
    /// by `denominator`; there is none by the zero polynomial. Where the
    /// numerator's degree is below the denominator's, the quotient is empty
    /// and the remainder is the numerator. Else, while the remainder's
    /// degree is not below the denominator's, the quotient of the two
    /// leading coefficients is placed in the quotient at the difference of
    /// the degrees, and that multiple of the denominator is taken from the
    /// remainder. In a prime field, and wherever the leading coefficient of
    /// the denominator is coprime to the modulus, the numerator is the
    /// quotient times the denominator plus the remainder, and the
    /// remainder's degree is below the denominator's.
    pub fn divide(numerator: &UPolynomial, denominator: &UPolynomial) -> (r: Result<
        (UPolynomial, UPolynomial),
        FieldError,
    >)
        requires
            numerator.wf(),
            denominator.over(numerator.field),
        ensures
            degree(denominator@) == -1 <==> r is Err,
            r is Err ==> r->Err_0.kind == ErrorKind::DivisionByZero,
            r is Ok ==> (r->Ok_0.0@, r->Ok_0.1@) == poly_divide(
                numerator@,
                denominator@,
                numerator.modulus(),
            ),
            r is Ok ==> r->Ok_0.0.over(numerator.field) && r->Ok_0.1.over(numerator.field),
            r is Ok && (numerator.field.is_prime() || gcd(
                leading(denominator@),
                numerator.modulus(),
            ) == 1) ==> is_division(
                numerator@,
                denominator@,
                r->Ok_0.0@,
                r->Ok_0.1@,
                numerator.modulus(),
            ),
    {
        let field = numerator.field;
        let dn = numerator.degree();
        let dd = denominator.degree();
        proof {
            if dd != -1 {
                lemma_values_canonical(numerator.coefficients@, field);
                lemma_values_canonical(denominator.coefficients@, field);
                lemma_degree(denominator@);
                if field.is_prime() {
                    lemma_prime_coprime(leading(denominator@), field.modulus());
                }
                if gcd(leading(denominator@), field.modulus()) == 1 {
                    lemma_divide_general(numerator@, denominator@, field.modulus());
                }
            }
        }
        if dd == -1 {
            return Err(FieldError::new(ErrorKind::DivisionByZero));
        }
        if dn < dd {
            return Ok((UPolynomial::empty(field), numerator.clone()));
        }
        proof {
            lemma_degree(numerator@);
            lemma_degree(denominator@);
        }
        let n_len = numerator.coefficients.len();
        let d_len = denominator.coefficients.len();
        assert(dn < n_len && dd < d_len);
        let steps: usize = (dn - dd + 1) as usize;
        let dd_index: usize = dd as usize;
        let zero = field.zero();
        let ghost p = numerator.modulus();
        let ghost d = denominator@;
        let ghost target = poly_divide(numerator@, d, p);
        let mut quotient: Vec<FieldElement> = Vec::new();
        let mut k: usize = 0;
        while k < steps
            invariant
                k <= steps,
                zero.in_field(field),
                zero@ == 0,
                quotient@.len() == k,
                all_in_field(quotient@, field),
                forall|j: int| 0 <= j < k ==> (#[trigger] quotient@[j])@ == 0,
            decreases steps - k,
        {
            quotient.push(zero);
            k = k + 1;
        }
        let mut remainder = numerator.clone();
        let lead_d = denominator.leading_coefficient();
        let mut dr = dn;
        let mut count: usize = 0;
        proof {
            assert(values_of(quotient@) =~= Seq::new(steps as nat, |i: int| 0int));
        }
        while count < steps && dr >= dd
            invariant
                count <= steps,
                steps == dn - dd + 1,
                dd == degree(d),
                dd_index == dd,
                0 <= dd < d_len,
                d_len == denominator.coefficients.len(),
                dr == degree(remainder@),
                dr <= dn,
                p == field.modulus(),
                d == denominator@,
                denominator.over(field),
                remainder.over(field),
                quotient@.len() == steps,
                all_in_field(quotient@, field),
                lead_d@ == leading(d),
                lead_d@ != 0,
                lead_d.in_field(field),
                divide_steps(values_of(quotient@), remainder@, d, p, (steps - count) as nat)
                    == target,
            decreases steps - count,
        {
            proof {
                lemma_degree(remainder@);
                lemma_values_canonical(remainder.coefficients@, field);
            }
            let lead_r = remainder.leading_coefficient();
            let c = lead_r.div(lead_d).unwrap();
            let shift: usize = (dr - dd) as usize;
            let ghost old_r = remainder@;
            let ghost old_q = values_of(quotient@);
            let r_len = remainder.coefficients.len();
            assert(c.in_field(field));
            quotient.set(shift, c);
            let mut i: usize = 0;
            while i <= dd_index
                invariant
                    i <= dd_index + 1,
                    dd_index < d_len,
                    d_len == denominator.coefficients.len(),
                    shift + dd_index < old_r.len(),
                    old_r.len() == r_len,
                    p == field.modulus(),
                    d == denominator@,
                    denominator.over(field),
                    c.in_field(field),
                    field.wf(),
                    remainder.field == field,
                    remainder.coefficients@.len() == old_r.len(),
                    all_in_field(remainder.coefficients@, field),
                    forall|m: int|
                        0 <= m < old_r.len() ==> (#[trigger] remainder.coefficients@[m])@ == (if shift
                            <= m && m < shift + i {
                            fsub(old_r[m], fmul(c@, coeff(d, m - shift), p), p)
                        } else {
                            old_r[m]
                        }),
                decreases dd_index + 1 - i,
            {
                let at = i + shift;
                assert(denominator.coefficients@[i as int].in_field(field));
                assert(remainder.coefficients@[at as int].in_field(field));
                let term = c.mul(denominator.coefficients[i]);
                let updated = remainder.coefficients[at].sub(term);
                remainder.coefficients.set(at, updated);
                i = i + 1;
            }
            proof {
                lemma_sub_shifted(old_r, d, c@, p);
                let next_r = sub_shifted(old_r, d, c@, shift as int, p);
                assert(remainder@ =~= next_r) by {
                    assert forall|m: int| 0 <= m < old_r.len() implies remainder@[m]
                        == next_r[m] by {
                        assert(remainder@[m] == remainder.coefficients@[m]@);
                    }
                }
                assert(values_of(quotient@) =~= old_q.update(shift as int, c@));
            }
            dr = remainder.degree();
            count = count + 1;
        }
        let quotient = UPolynomial { coefficients: quotient, field };
        Ok((quotient, remainder))
    }

    /// The quotient of the division by `rhs`, for a division that leaves no
    /// remainder.
    pub fn div(&self, rhs: &UPolynomial) -> (r: Result<UPolynomial, FieldError>)
        requires
            self.wf(),
            rhs.over(self.field),
        ensures
            r is Ok <==> degree(rhs@) != -1 && degree(poly_divide(self@, rhs@, self.modulus()).1)
                == -1,
            r is Err ==> r->Err_0.kind == (if degree(rhs@) == -1 {
                ErrorKind::DivisionByZero
            } else {
                ErrorKind::DivisionNotExact
            }),
            r is Ok ==> r->Ok_0@ == poly_divide(self@, rhs@, self.modulus()).0 && r->Ok_0.over(
                self.field,
            ),
    {
        match UPolynomial::divide(self, rhs) {
            Ok((quotient, remainder)) => {
                if remainder.is_zero() {
                    Ok(quotient)
                } else {
                    Err(FieldError::new(ErrorKind::DivisionNotExact))
                }
            },
            Err(e) => Err(e),
        }
    }

    /// The remainder of the division by `rhs`.
    pub fn modulo(&self, rhs: &UPolynomial) -> (r: Result<UPolynomial, FieldError>)
        requires
            self.wf(),
            rhs.over(self.field),
        ensures
            degree(rhs@) == -1 <==> r is Err,
            r is Err ==> r->Err_0.kind == ErrorKind::DivisionByZero,
            r is Ok ==> r->Ok_0@ == poly_divide(self@, rhs@, self.modulus()).1 && r->Ok_0.over(
                self.field,
            ),
    {
        match UPolynomial::divide(self, rhs) {
            Ok((_quotient, remainder)) => Ok(remainder),
            Err(e) => Err(e),
        }
    }

    /// The polynomial `x` of the field.
    fn indeterminate(field: Field) -> (r: UPolynomial)
        requires
            field.wf(),
        ensures
            r@ == seq![0int, 1int % field.modulus()],
            r.over(field),
    {
        let mut coefficients: Vec<FieldElement> = Vec::new();
        coefficients.push(field.zero());
        coefficients.push(field.one());
        let r = UPolynomial { coefficients, field };
        assert(r@ =~= seq![0int, 1int % field.modulus()]);
        r
    }

    /// The monic polynomial whose roots are the points of `domain`, over the
    /// field of `self`: the product of `x - d` over the points `d`. It
    /// vanishes at every point of the domain, and in a prime field at no
    /// other point.
    pub fn zeroifier_domain(&self, domain: &Vec<FieldElement>) -> (r: UPolynomial)
        requires
            self.wf(),
            all_in_field(domain@, self.field),
            domain@.len() < usize::MAX,
        ensures
            r@ == poly_zeroifier(values_of(domain@), self.modulus()),
            r.over(self.field),
            forall|i: int|
                0 <= i < domain@.len() ==> poly_eval(r@, (#[trigger] domain@[i])@, self.modulus())
                    == 0,
            self.modulus() > 1 ==> degree(r@) == domain@.len() && leading(r@) == 1,
            self.field.is_prime() ==> forall|x: int|
                0 <= x < self.modulus() && !values_of(domain@).contains(x) ==> #[trigger] poly_eval(
                    r@,
                    x,
                    self.modulus(),
                ) != 0,
    {
        let field = self.field;
        let ghost p = field.modulus();
        let ghost points = values_of(domain@);
        proof {
            lemma_values_canonical(domain@, field);
            assert forall|i: int| 0 <= i < domain@.len() implies poly_eval(
                poly_zeroifier(points, p),
                (#[trigger] domain@[i])@,
                p,
            ) == 0 by {
                lemma_zeroifier_vanishes(points, i, p);
            }
            if p > 1 {
                lemma_zeroifier_degree(points, p);
            }
            if field.is_prime() {
                assert forall|x: int|
                    0 <= x < p && !points.contains(x) implies #[trigger] poly_eval(
                    poly_zeroifier(points, p),
                    x,
                    p,
                ) != 0 by {
                    assert forall|i: int| 0 <= i < points.len() implies points[i] != x by {
                        if points[i] == x {
                            assert(points.contains(x));
                        }
                    }
                    lemma_zeroifier_nonzero_outside(points, x, p);
                }
            }
        }
        let x = UPolynomial::indeterminate(field);
        let mut acc = UPolynomial::constant(field.one());
        let mut i: usize = 0;
        proof {
            assert(points.take(0) =~= Seq::<int>::empty());
        }
        while i < domain.len()
            invariant
                i <= domain.len(),
                domain@.len() < usize::MAX,
                field.wf(),
                p == field.modulus(),
                points == values_of(domain@),
                all_in_field(domain@, field),
                x@ == seq![0int, 1int % p],
                x.over(field),
                acc.over(field),
                acc@.len() <= i + 1,
                acc@ == poly_zeroifier(points.take(i as int), p),
            decreases domain.len() - i,
        {
            assert(domain@[i as int].in_field(field));
            let point = UPolynomial::constant(domain[i]);
            let factor = x.sub(&point);
            proof {
                lemma_linear_factor(domain@[i as int]@, p);
                lemma_mul(acc@, factor@, p);
                assert(points.take(i + 1).drop_last() =~= points.take(i as int));
                assert(points.take(i + 1).last() == domain@[i as int]@);
            }
            acc = acc.mul(&factor);
            i = i + 1;
        }
        proof {
            assert(points.take(i as int) =~= points);
        }
        acc
    }

    /// The Lagrange interpolant, over the field of `self`, through the
    /// points `(domain[i], values[i])`: the sum over `i` of `values[i]` times
    /// the product over `j != i` of `(x - domain[j]) / (domain[i] - domain[j])`.
    /// The points must be as many as the values and at least one, and no two
    /// of them may coincide. In a prime field the interpolant takes at each
    /// point the value given for it, its degree is below their number, and
    /// it is the one polynomial of which both hold.
    pub fn interpolate_domain(
        &self,
        domain: &Vec<FieldElement>,
        values: &Vec<FieldElement>,
    ) -> (r: Result<UPolynomial, FieldError>)
        requires
            self.wf(),
            all_in_field(domain@, self.field),
            all_in_field(values@, self.field),
            domain@.len() < usize::MAX,
        ensures
            r is Ok <==> domain@.len() == values@.len() && domain@.len() > 0 && !has_collision(
                values_of(domain@),
            ),
            r is Err ==> r->Err_0.kind == (if domain@.len() != values@.len() {
                ErrorKind::DomainLengthMismatch
            } else if domain@.len() == 0 {
                ErrorKind::EmptyDomain
            } else {
                ErrorKind::DivisionByZero
            }),
            r is Ok ==> r->Ok_0@ == poly_interpolate(
                values_of(domain@),
                values_of(values@),
                self.modulus(),
            ) && r->Ok_0.over(self.field),
            r is Ok && (self.field.is_prime() || units_apart(values_of(domain@), self.modulus()))
                ==> degree(r->Ok_0@) < domain@.len() && forall|k: int|
                0 <= k < domain@.len() ==> poly_eval(
                    r->Ok_0@,
                    (#[trigger] domain@[k])@,
                    self.modulus(),
                ) == values@[k]@,
            r is Ok && self.field.is_prime() ==> forall|g: Seq<int>|
                #[trigger] canonical(g, self.modulus()) && degree(g) < domain@.len()
                    && sampled_from(g, values_of(domain@), values_of(values@), self.modulus())
                    ==> poly_equiv(r->Ok_0@, g),
    {
        proof {
            let xs = values_of(domain@);
            let ys = values_of(values@);
            let p = self.modulus();
            lemma_values_canonical(domain@, self.field);
            lemma_values_canonical(values@, self.field);
            if self.field.is_prime() && !has_collision(xs) {
                lemma_distinct_units_apart(xs, p);
                assert forall|g: Seq<int>|
                    #[trigger] canonical(g, p) && degree(g) < domain@.len() && sampled_from(
                        g,
                        xs,
                        ys,
                        p,
                    ) implies poly_equiv(poly_interpolate(xs, ys, p), g) by {
                    lemma_colinearity_prime(g, xs, ys, p);
                }
            }
            if xs.len() == ys.len() && units_apart(xs, p) {
                assert forall|k: int| 0 <= k < domain@.len() implies poly_eval(
                    poly_interpolate(xs, ys, p),
                    (#[trigger] domain@[k])@,
                    p,
                ) == values@[k]@ by {
                    lemma_interpolate_eval(xs, ys, k, p);
                }
                if xs.len() > 0 {
                    lemma_interpolate_eval(xs, ys, 0, p);
                }
            }
        }
        if domain.len() != values.len() {
            return Err(FieldError::new(ErrorKind::DomainLengthMismatch));
        }
        if domain.len() == 0 {
            return Err(FieldError::new(ErrorKind::EmptyDomain));
        }
        let field = self.field;
        let n = domain.len();
        let ghost p = field.modulus();
        let ghost xs = values_of(domain@);
        let ghost ys = values_of(values@);
        let x = UPolynomial::indeterminate(field);
        let mut acc = UPolynomial::empty(field);
        let mut i: usize = 0;
        while i < n
            invariant
                i <= n,
                n == domain.len(),
                n == values.len(),
                n < usize::MAX,
                field.wf(),
                p == field.modulus(),
                xs == values_of(domain@),
                ys == values_of(values@),
                all_in_field(domain@, field),
                all_in_field(values@, field),
                x@ == seq![0int, 1int % p],
                x.over(field),
                acc.over(field),
                acc@ == lagrange_sum(xs, ys, i as int, p),
                forall|a: int, b: int| 0 <= a < i && 0 <= b < n && a != b ==> xs[a] != xs[b],
            decreases n - i,
        {
            assert(values@[i as int].in_field(field));
            assert(domain@[i as int].in_field(field));
            let mut prod = UPolynomial::constant(values[i]);
            let mut j: usize = 0;
            while j < n
                invariant
                    j <= n,
                    i < n,
                    n == domain.len(),
                    n == values.len(),
                    n < usize::MAX,
                    field.wf(),
                    p == field.modulus(),
                    xs == values_of(domain@),
                    ys == values_of(values@),
                    ys[i as int] == values@[i as int]@,
                    all_in_field(domain@, field),
                    x@ == seq![0int, 1int % p],
                    x.over(field),
                    prod.over(field),
                    prod@.len() <= j + 1,
                    prod@ == lagrange_term(xs, ys[i as int], i as int, j as int, p),
                    forall|b: int| 0 <= b < j && b != i ==> xs[i as int] != xs[b],
                decreases n - j,
            {
                if j != i {
                    assert(domain@[j as int].in_field(field));
                    assert(domain@[i as int].in_field(field));
                    let difference = domain[i].sub(domain[j]);
                    proof {
                        lemma_fsub_zero(xs[i as int], xs[j as int], p);
                    }
                    let inverse = match difference.inverse() {
                        Ok(inverse) => inverse,
                        Err(_) => {
                            proof {
                                let lo = if i < j {
                                    i as int
                                } else {
                                    j as int
                                };
                                let hi = if i < j {
                                    j as int
                                } else {
                                    i as int
                                };
                                assert(0 <= lo < hi < xs.len() && xs[lo] == xs[hi]);
                            }
                            return Err(FieldError::new(ErrorKind::DivisionByZero));
                        },
                    };
                    let poly_a = UPolynomial::constant(domain[j]);
                    let poly_b = UPolynomial::constant(inverse);
                    let numerator = x.sub(&poly_a);
                    proof {
                        lemma_linear_factor(xs[j as int], p);
                        lemma_basis_factor(xs[i as int], xs[j as int], p);
                        lemma_mul(prod@, basis_factor(xs[i as int], xs[j as int], p), p);
                    }
                    let factor = numerator.mul(&poly_b);
                    prod = prod.mul(&factor);
                }
                j = j + 1;
            }
            acc = acc.add(&prod);
            i = i + 1;
        }
        proof {
            if has_collision(xs) {
                let (a, b) = choose|a: int, b: int| 0 <= a < b < xs.len() && xs[a] == xs[b];
                assert(xs[a] != xs[b]);
            }
        }
        Ok(acc)
    }

    /// Whether the points lie on one line: whether the interpolant through
    /// them has degree at most one. It fails as the interpolation does, on
    /// no points and on two points with the same abscissa. In a prime field,
    /// points sampled from a polynomial of lower degree than their number
    /// are found colinear exactly if that polynomial has degree at most
    /// one.
    pub fn test_colinearity(&self, points: &Vec<(FieldElement, FieldElement)>) -> (r: Result<
        bool,
        FieldError,
    >)
        requires
            self.wf(),
            forall|i: int|
                0 <= i < points@.len() ==> (#[trigger] points@[i]).0.in_field(self.field)
                    && points@[i].1.in_field(self.field),
            points@.len() < usize::MAX,
        ensures
            r is Ok <==> points@.len() > 0 && !has_collision(abscissas(points@)),
            r is Err ==> r->Err_0.kind == (if points@.len() == 0 {
                ErrorKind::EmptyDomain
            } else {
                ErrorKind::DivisionByZero
            }),
            r is Ok ==> r->Ok_0 == (degree(
                poly_interpolate(abscissas(points@), ordinates(points@), self.modulus()),
            ) <= 1),
            r is Ok && self.field.is_prime() ==> forall|g: Seq<int>|
                #[trigger] canonical(g, self.modulus()) && degree(g) < points@.len()
                    && sampled_from(g, abscissas(points@), ordinates(points@), self.modulus())
                    ==> r->Ok_0 == (degree(g) <= 1),
    {
        proof {
            let xs = abscissas(points@);
            let ys = ordinates(points@);
            let p = self.modulus();
            if self.field.is_prime() && !has_collision(xs) {
                assert(canonical(xs, p)) by {
                    assert forall|i: int| 0 <= i < xs.len() implies 0 <= #[trigger] xs[i] < p by {
                        assert(points@[i].0.in_field(self.field));
                    }
                }
                assert forall|g: Seq<int>|
                    #[trigger] canonical(g, p) && degree(g) < points@.len() && sampled_from(
                        g,
                        xs,
                        ys,
                        p,
                    ) implies (degree(poly_interpolate(xs, ys, p)) <= 1) == (degree(g) <= 1) by {
                    lemma_colinearity_prime(g, xs, ys, p);
                }
            }
        }
        let mut domain: Vec<FieldElement> = Vec::new();
        let mut values: Vec<FieldElement> = Vec::new();
        let mut i: usize = 0;
        while i < points.len()
            invariant
                i <= points.len(),
                domain@.len() == i,
                values@.len() == i,
                all_in_field(domain@, self.field),
                all_in_field(values@, self.field),
                forall|j: int|
                    0 <= j < points@.len() ==> (#[trigger] points@[j]).0.in_field(self.field)
                        && points@[j].1.in_field(self.field),
                forall|j: int| 0 <= j < i ==> (#[trigger] domain@[j]) == points@[j].0,
                forall|j: int| 0 <= j < i ==> (#[trigger] values@[j]) == points@[j].1,
            decreases points.len() - i,
        {
            assert(points@[i as int].0.in_field(self.field));
            let pair = points[i];
            domain.push(pair.0);
            values.push(pair.1);
            i = i + 1;
        }
        proof {
            assert(values_of(domain@) =~= abscissas(points@));
            assert(values_of(values@) =~= ordinates(points@));
        }
        match self.interpolate_domain(&domain, &values) {
            Ok(polynomial) => Ok(polynomial.degree() <= 1),
            Err(e) => Err(e),
        }
    }

    /// The power with a natural exponent, by square and multiply over the
    /// bits of the exponent from the most significant down. The power with
    /// exponent zero is the constant one, whatever the base; a positive
    /// power of the zero polynomial is the empty polynomial.
    pub fn modexp(&self, exponent: i128) -> (r: UPolynomial)
        requires
            self.wf(),
            exponent >= 0,
            exponent == 0 || degree(self@) == -1 || (self@.len() - 1) * exponent + 1
                <= usize::MAX,
        ensures
            r@ == poly_modexp(self@, exponent as nat, self.modulus()),
            r.over(self.field),
            exponent == 0 ==> r@ == poly_one(self.modulus()),
            exponent == 1 && degree(self@) >= 0 ==> r@ == self@,
    {
        proof {
            lemma_values_canonical(self.coefficients@, self.field);
            lemma_modexp_zero_one(self@, self.modulus());
        }
        let one = UPolynomial::constant(self.field.one());
        if exponent == 0 {
            return one;
        }
        if self.is_zero() {
            return UPolynomial::empty(self.field);
        }
        let e: u128 = exponent as u128;
        let ghost p = self.modulus();
        let ghost f = self@;
        let mut acc = one;
        let mut i: u128 = bit_length(e);
        proof {
            lemma_degree(f);
        }
        while i > 0
            invariant
                i <= 128,
                self.wf(),
                p == self.modulus(),
                f == self@,
                f.len() >= 1,
                e == exponent,
                (f.len() - 1) * e + 1 <= usize::MAX,
                acc.over(self.field),
                acc@ == poly_pow(f, high_bits(e, i as nat), p),
            decreases i,
        {
            i = i - 1;
            let ghost h = high_bits(e, (i + 1) as nat);
            proof {
                lemma_bit_step(e, i);
                lemma_pow_adds_poly(f, h, h, p);
                lemma_pow_shape(f, h, p);
                lemma_pow_shape(f, 2 * h, p);
                lemma_pow_shape(f, 2 * h + 1, p);
                lemma_pow2_pos(i as nat);
                lemma_div_nonincreasing(e as int, pow2(i as nat) as int);
                let len = f.len() - 1;
                assert(len * (2 * h) == len * h + len * h) by (nonlinear_arith);
                assert(len * (2 * h) <= len * high_bits(e, i as nat)) by (nonlinear_arith)
                    requires
                        len >= 0,
                        2 * h <= high_bits(e, i as nat),
                ;
                assert(len * high_bits(e, i as nat) <= len * e) by (nonlinear_arith)
                    requires
                        len >= 0,
                        high_bits(e, i as nat) <= e,
                ;
            }
            acc = acc.mul(&acc);
            if (e >> i) & 1 == 1 {
                acc = acc.mul(self);
            }
        }
        proof {
            lemma2_to64();
            assert(high_bits(e, 0) == e as nat / 1);
        }
        acc
    }
}

} // verus!
