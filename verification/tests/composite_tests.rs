use stark_algebra::algebra::{Field, FieldElement};
use stark_algebra::uint::U256;
use stark_algebra::unipolynomial::UPolynomial;

fn small(v: u64, p: u64) -> FieldElement {
    FieldElement::new(U256::from_u64(v), Field::new(U256::from_u64(p)))
}

fn small_poly(coefficients: &[u64], p: u64) -> UPolynomial {
    UPolynomial::new(
        Field::new(U256::from_u64(p)),
        coefficients.iter().map(|c| small(*c, p)).collect(),
    )
}

#[test]
fn inverse_of_a_zero_divisor_is_no_inverse() {
    let two = small(2, 4);
    assert_ne!(two.mul(two.inverse().unwrap()), small(1, 4));
}

#[test]
fn product_of_zero_divisors_loses_degree() {
    let f = small_poly(&[2], 4);
    assert_eq!(f.degree(), 0);
    assert_eq!(f.mul(&f).degree(), -1);
}

#[test]
fn division_by_a_leading_zero_divisor_keeps_the_degree() {
    let n = small_poly(&[0, 1], 4);
    let d = small_poly(&[0, 2], 4);
    let (_q, r) = UPolynomial::divide(&n, &d).unwrap();
    assert!(r.degree() >= d.degree());
}

#[test]
fn interpolation_over_points_a_zero_divisor_apart() {
    let context = small_poly(&[], 4);
    let domain = vec![small(0, 4), small(2, 4)];
    let values = vec![small(0, 4), small(1, 4)];
    let interpolant = context.interpolate_domain(&domain, &values).unwrap();
    assert_ne!(interpolant.evaluate(&domain[1]), values[1]);
}

#[test]
fn zeroifier_over_a_composite_modulus_vanishes_outside_the_domain() {
    let context = small_poly(&[], 6);
    let z = context.zeroifier_domain(&vec![small(2, 6), small(3, 6)]);
    assert!(z.evaluate(&small(0, 6)).is_zero());
}

#[test]
fn first_power_of_a_zero_polynomial_with_coefficients_is_empty() {
    let f = small_poly(&[0], 7);
    assert_eq!(f.modexp(1), small_poly(&[], 7));
    assert_ne!(f.modexp(1), f);
}
