use stark_algebra::algebra::{ErrorKind, Field, FieldElement, REFERENCE_MODULUS};
use stark_algebra::polynomials::Polynomial;
use stark_algebra::uint::U256;
use stark_algebra::unipolynomial::UPolynomial;

fn reference_field() -> Field {
    Field::new(U256::from_u128(REFERENCE_MODULUS))
}

fn element(v: u128) -> FieldElement {
    FieldElement::new(U256::from_u128(v), reference_field())
}

fn negative(v: u128) -> FieldElement {
    element(v).neg()
}

fn poly(coefficients: &[u128]) -> UPolynomial {
    UPolynomial::new(reference_field(), coefficients.iter().map(|c| element(*c)).collect())
}

fn elements(values: &[u128]) -> Vec<FieldElement> {
    values.iter().map(|v| element(*v)).collect()
}

#[test]
fn degree_of_zero_polynomials_is_minus_one() {
    assert_eq!(poly(&[]).degree(), -1);
    assert_eq!(poly(&[0]).degree(), -1);
    assert_eq!(poly(&[0, 0, 0]).degree(), -1);
    assert!(poly(&[]).is_zero());
    assert!(poly(&[0, 0]).is_zero());
    assert!(!poly(&[0, 1]).is_zero());
}

#[test]
fn degree_skips_trailing_zeros() {
    assert_eq!(poly(&[1]).degree(), 0);
    assert_eq!(poly(&[1, 2, 3]).degree(), 2);
    assert_eq!(poly(&[1, 2, 0, 0]).degree(), 1);
    assert_eq!(poly(&[0, 0, 5, 0]).degree(), 2);
}

#[test]
fn leading_coefficient_of_zero_is_zero() {
    assert_eq!(poly(&[]).leading_coefficient(), element(0));
    assert_eq!(poly(&[0, 0]).leading_coefficient(), element(0));
    assert_eq!(poly(&[1, 2, 3, 0]).leading_coefficient(), element(3));
}

#[test]
fn add_pads_the_shorter_operand() {
    assert_eq!(poly(&[1, 2, 3]).add(&poly(&[10, 20])), poly(&[11, 22, 3]));
    assert_eq!(poly(&[10, 20]).add(&poly(&[1, 2, 3])), poly(&[11, 22, 3]));
}

#[test]
fn add_with_zero_returns_the_other_unchanged() {
    assert_eq!(poly(&[]).add(&poly(&[1, 2])), poly(&[1, 2]));
    assert_eq!(poly(&[1, 2]).add(&poly(&[])), poly(&[1, 2]));
    assert_eq!(poly(&[0, 0, 0]).add(&poly(&[1, 2])), poly(&[1, 2]));
    assert_eq!(poly(&[1, 2]).add(&poly(&[0, 0, 0])), poly(&[1, 2]));
}

#[test]
fn neg_negates_every_coefficient() {
    let r = poly(&[1, 0, 3]).neg();
    assert_eq!(r.coefficients, vec![negative(1), element(0), negative(3)]);
}

#[test]
fn sub_is_add_of_the_negation() {
    assert_eq!(poly(&[5, 7, 9]).sub(&poly(&[1, 2, 3])), poly(&[4, 5, 6]));
    assert_eq!(poly(&[1, 2]).sub(&poly(&[1, 2])), poly(&[0, 0]));
}

#[test]
fn mul_is_the_convolution() {
    // (1 + 2x)(3 + 4x + 5x^2) = 3 + 10x + 13x^2 + 10x^3
    assert_eq!(poly(&[1, 2]).mul(&poly(&[3, 4, 5])), poly(&[3, 10, 13, 10]));
    assert_eq!(poly(&[0, 1]).mul(&poly(&[0, 1])), poly(&[0, 0, 1]));
    assert_eq!(poly(&[1, 0, 2]).mul(&poly(&[1, 1])), poly(&[1, 1, 2, 2]));
}

#[test]
fn mul_with_empty_is_empty() {
    assert_eq!(poly(&[]).mul(&poly(&[1, 2])), poly(&[]));
    assert_eq!(poly(&[1, 2]).mul(&poly(&[])), poly(&[]));
}

#[test]
fn degree_of_a_product_is_the_sum_of_the_degrees() {
    let f = poly(&[1, 2, 3, 0]);
    let g = poly(&[4, 5, 0, 0, 0]);
    assert_eq!(f.mul(&g).degree(), f.degree() + g.degree());
}

#[test]
fn divide_scenario() {
    let f = poly(&[1, 2, 3, 4, 5]);
    let g = poly(&[1, 2, 3]);
    let (q, r) = UPolynomial::divide(&f, &g).unwrap();
    assert!(r.degree() < 2);
    let back = q.mul(&g).add(&r);
    assert_eq!(back.degree(), f.degree());
    for i in 0..5 {
        assert_eq!(back.coefficient(i), f.coefficient(i));
    }
}

#[test]
fn divide_exact_values() {
    // x^2 - 1 = (x - 1)(x + 1)
    let f = UPolynomial::new(reference_field(), vec![negative(1), element(0), element(1)]);
    let g = UPolynomial::new(reference_field(), vec![negative(1), element(1)]);
    let (q, r) = UPolynomial::divide(&f, &g).unwrap();
    assert_eq!(q, poly(&[1, 1]));
    assert_eq!(r, poly(&[0, 0, 0]));
    // 3x^2 + 5x + 7 = (x + 1)(3x + 2) + 5
    let (q, r) = UPolynomial::divide(&poly(&[7, 5, 3]), &poly(&[1, 1])).unwrap();
    assert_eq!(q, poly(&[2, 3]));
    assert_eq!(r, poly(&[5, 0, 0]));
}

#[test]
fn divide_by_a_polynomial_of_higher_degree() {
    let f = poly(&[1, 2]);
    let g = poly(&[1, 2, 3]);
    let (q, r) = UPolynomial::divide(&f, &g).unwrap();
    assert_eq!(q, poly(&[]));
    assert_eq!(r, f);
    let (q, r) = UPolynomial::divide(&poly(&[]), &g).unwrap();
    assert_eq!(q, poly(&[]));
    assert_eq!(r, poly(&[]));
}

#[test]
fn divide_by_zero_polynomial_fails() {
    let f = poly(&[1, 2, 3]);
    assert_eq!(UPolynomial::divide(&f, &poly(&[])).unwrap_err().kind, ErrorKind::DivisionByZero);
    let zeros = poly(&[0, 0]);
    assert_eq!(UPolynomial::divide(&f, &zeros).unwrap_err().kind, ErrorKind::DivisionByZero);
    assert_eq!(f.modulo(&poly(&[0])).unwrap_err().kind, ErrorKind::DivisionByZero);
    assert_eq!(f.div(&poly(&[0])).unwrap_err().kind, ErrorKind::DivisionByZero);
}

#[test]
fn exact_division_fails_on_a_remainder() {
    let f = poly(&[7, 5, 3]);
    let g = poly(&[1, 1]);
    assert_eq!(f.div(&g).unwrap_err().kind, ErrorKind::DivisionNotExact);
    let product = poly(&[1, 1]).mul(&poly(&[2, 3]));
    assert_eq!(product.div(&g).unwrap(), poly(&[2, 3]));
}

#[test]
fn modulo_is_the_remainder() {
    assert_eq!(poly(&[7, 5, 3]).modulo(&poly(&[1, 1])).unwrap(), poly(&[5, 0, 0]));
}

#[test]
fn evaluate_sums_the_powers() {
    // 1 + 2x + 3x^2 at 5 is 86
    assert_eq!(poly(&[1, 2, 3]).evaluate(&element(5)), element(86));
    assert_eq!(poly(&[]).evaluate(&element(5)), element(0));
    assert_eq!(poly(&[7]).evaluate(&element(5)), element(7));
    assert_eq!(poly(&[1, 2, 3]).evaluate(&element(0)), element(1));
}

#[test]
fn evaluate_domain_keeps_the_order() {
    let values = poly(&[1, 0, 1]).evaluate_domain(&elements(&[3, 1, 2]));
    assert_eq!(values, elements(&[10, 2, 5]));
    assert_eq!(poly(&[1, 0, 1]).evaluate_domain(&elements(&[])), elements(&[]));
}

#[test]
fn interpolate_scenario() {
    let domain = elements(&[1, 2, 3]);
    let f = poly(&[1, 0, 1]);
    let values = f.evaluate_domain(&domain);
    let interpolant = f.interpolate_domain(&domain, &values).unwrap();
    assert_eq!(interpolant, f);
}

#[test]
fn interpolant_passes_through_every_point() {
    let context = poly(&[]);
    let xs: Vec<u128> = vec![17, 3, 250, 40, 99, 1000003, 5, 64, 12, 77];
    let ys: Vec<u128> = vec![5, 900, 31, 0, 44, 2, 8, 123456789, 1, 60];
    for size in 1..=10 {
        let domain = elements(&xs[..size]);
        let values = elements(&ys[..size]);
        let interpolant = context.interpolate_domain(&domain, &values).unwrap();
        assert!(interpolant.degree() < size as i128);
        assert_eq!(interpolant.evaluate_domain(&domain), values);
    }
}

#[test]
fn interpolate_rejects_bad_domains() {
    let context = poly(&[]);
    let r = context.interpolate_domain(&elements(&[1, 2]), &elements(&[1]));
    assert_eq!(r.unwrap_err().kind, ErrorKind::DomainLengthMismatch);
    let r = context.interpolate_domain(&elements(&[]), &elements(&[]));
    assert_eq!(r.unwrap_err().kind, ErrorKind::EmptyDomain);
    let r = context.interpolate_domain(&elements(&[]), &elements(&[1]));
    assert_eq!(r.unwrap_err().kind, ErrorKind::DomainLengthMismatch);
    let r = context.interpolate_domain(&elements(&[4, 9, 4]), &elements(&[1, 2, 3]));
    assert_eq!(r.unwrap_err().kind, ErrorKind::DivisionByZero);
}

#[test]
fn zeroifier_vanishes_on_the_domain_only() {
    let context = poly(&[]);
    let domain = elements(&[1, 2, 3, 10]);
    let z = context.zeroifier_domain(&domain);
    assert_eq!(z.degree(), 4);
    assert_eq!(z.leading_coefficient(), element(1));
    for d in &domain {
        assert!(z.evaluate(d).is_zero());
    }
    assert!(!z.evaluate(&element(4)).is_zero());
    // (x - 1)(x - 2) = x^2 - 3x + 2
    let z = context.zeroifier_domain(&elements(&[1, 2]));
    assert_eq!(z.coefficients, vec![element(2), negative(3), element(1)]);
}

#[test]
fn zeroifier_of_no_points_is_one() {
    assert_eq!(poly(&[]).zeroifier_domain(&elements(&[])), poly(&[1]));
}

#[test]
fn scale_multiplies_by_powers_of_the_factor() {
    // coefficients 1, 2, 3 scaled by 2: 1, 4, 12
    assert_eq!(poly(&[1, 2, 3]).scale(&element(2)), poly(&[1, 4, 12]));
    let f = poly(&[4, 0, 7, 1]);
    let scaled = f.scale(&element(3));
    assert_eq!(scaled.evaluate(&element(5)), f.evaluate(&element(15)));
}

#[test]
fn colinearity_of_points_on_a_line() {
    let context = poly(&[]);
    let line = poly(&[3, 2]);
    let points: Vec<(FieldElement, FieldElement)> =
        [1u128, 5, 9].iter().map(|x| (element(*x), line.evaluate(&element(*x)))).collect();
    assert_eq!(context.test_colinearity(&points), Ok(true));
}

#[test]
fn colinearity_of_points_on_a_parabola() {
    let context = poly(&[]);
    let parabola = poly(&[3, 2, 1]);
    let points: Vec<(FieldElement, FieldElement)> =
        [1u128, 5, 9].iter().map(|x| (element(*x), parabola.evaluate(&element(*x)))).collect();
    assert_eq!(context.test_colinearity(&points), Ok(false));
}

#[test]
fn colinearity_fails_as_interpolation_does() {
    let context = poly(&[]);
    assert_eq!(context.test_colinearity(&vec![]).unwrap_err().kind, ErrorKind::EmptyDomain);
    let points = vec![(element(1), element(2)), (element(1), element(3))];
    assert_eq!(context.test_colinearity(&points).unwrap_err().kind, ErrorKind::DivisionByZero);
}

#[test]
fn modexp_by_zero_is_the_constant_one() {
    assert_eq!(poly(&[3, 4, 5]).modexp(0), poly(&[1]));
    assert_eq!(poly(&[]).modexp(0), poly(&[1]));
    assert_eq!(poly(&[0, 0]).modexp(0), poly(&[1]));
}

#[test]
fn modexp_by_one_is_the_polynomial() {
    assert_eq!(poly(&[3, 4, 5]).modexp(1), poly(&[3, 4, 5]));
    assert_eq!(poly(&[0, 1, 0]).modexp(1), poly(&[0, 1, 0]));
}

#[test]
fn modexp_of_zero_by_a_positive_exponent_is_empty() {
    assert_eq!(poly(&[]).modexp(5), poly(&[]));
    assert_eq!(poly(&[0, 0]).modexp(1), poly(&[]));
}

#[test]
fn modexp_is_the_repeated_product() {
    let f = poly(&[1, 1]);
    // (1 + x)^5 = 1 + 5x + 10x^2 + 10x^3 + 5x^4 + x^5
    assert_eq!(f.modexp(5), poly(&[1, 5, 10, 10, 5, 1]));
    let g = poly(&[2, 0, 3]);
    assert_eq!(g.modexp(3), g.mul(&g).mul(&g));
    assert_eq!(g.modexp(6), g.modexp(3).mul(&g.modexp(3)));
}

#[test]
fn product_is_associative_and_its_value_is_the_product_of_values() {
    let a = poly(&[1, 2, 3]);
    let b = poly(&[4, 0, 5, 6]);
    let c = poly(&[7, 8]);
    assert_eq!(a.mul(&b).mul(&c), a.mul(&b.mul(&c)));
    let x = element(11);
    assert_eq!(a.mul(&b).evaluate(&x), a.evaluate(&x).mul(b.evaluate(&x)));
    assert_eq!(a.add(&b).evaluate(&x), a.evaluate(&x).add(b.evaluate(&x)));
    assert_eq!(a.sub(&b).evaluate(&x), a.evaluate(&x).sub(b.evaluate(&x)));
}

#[test]
fn division_identity_over_a_small_field() {
    let field = Field::new(U256::from_u64(7));
    let make = |cs: &[u64]| {
        UPolynomial::new(
            field,
            cs.iter().map(|c| FieldElement::new(U256::from_u64(*c), field)).collect(),
        )
    };
    let n = make(&[3, 0, 6, 1, 5]);
    let d = make(&[2, 4, 3]);
    let (q, r) = UPolynomial::divide(&n, &d).unwrap();
    // the steps place 4, then 2, then 6, and leave the constant 5
    assert_eq!(q, make(&[6, 2, 4]));
    assert_eq!(r, make(&[5, 0, 0, 0, 0]));
    assert!(r.degree() < d.degree());
    let back = q.mul(&d).add(&r);
    for i in 0..6 {
        assert_eq!(back.coefficient(i), n.coefficient(i));
    }
}

#[test]
fn coefficient_beyond_the_length_is_zero() {
    let f = poly(&[1, 2]);
    assert_eq!(f.coefficient(0), element(1));
    assert_eq!(f.coefficient(1), element(2));
    assert_eq!(f.coefficient(2), element(0));
    assert_eq!(f.coefficient(usize::MAX), element(0));
}

#[test]
fn clone_and_constructors() {
    let f = poly(&[1, 2, 0]);
    assert_eq!(f.clone(), f);
    assert_eq!(UPolynomial::empty(reference_field()), poly(&[]));
    assert_eq!(UPolynomial::constant(element(9)), poly(&[9]));
}

#[test]
fn interpolant_of_a_polynomial_of_low_degree_is_that_polynomial() {
    let context = poly(&[]);
    let g = poly(&[5, 0, 2]);
    let domain = elements(&[10, 20, 30, 40, 50]);
    let values = g.evaluate_domain(&domain);
    let interpolant = context.interpolate_domain(&domain, &values).unwrap();
    assert_eq!(interpolant.degree(), 2);
    for i in 0..5 {
        assert_eq!(interpolant.coefficient(i), g.coefficient(i));
    }
}

#[test]
fn polynomial_is_the_same_type_under_its_short_name() {
    let f: Polynomial = Polynomial::new(reference_field(), elements(&[1, 2, 3]));
    assert_eq!(f.degree(), 2);
    assert_eq!(f, poly(&[1, 2, 3]));
    assert_eq!(f.leading_coefficient(), element(3));
    assert!(!f.is_zero());
    assert_eq!(f.modulo(&poly(&[0, 1])).unwrap(), poly(&[1, 0, 0]));
    assert_eq!(f.modexp(2), poly(&[1, 4, 10, 12, 9]));
}

#[test]
fn equality_compares_coefficients_and_field() {
    assert_eq!(poly(&[1, 2]), poly(&[1, 2]));
    assert_ne!(poly(&[1, 2]), poly(&[1, 3]));
    assert_ne!(poly(&[1, 2]), poly(&[1, 2, 0]));
    assert_ne!(poly(&[]), poly(&[0]));
    let other = Field::new(U256::from_u64(7));
    assert_ne!(UPolynomial::empty(other), poly(&[]));
}
