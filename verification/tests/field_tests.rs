use stark_algebra::algebra::{
    xgcd, ErrorKind, Field, FieldElement, FieldError, REFERENCE_GENERATOR, REFERENCE_MODULUS,
};
use stark_algebra::number_theory::bit_length;
use stark_algebra::uint::U256;

fn reference_field() -> Field {
    Field::new(U256::from_u128(REFERENCE_MODULUS))
}

fn small_field(p: u64) -> Field {
    Field::new(U256::from_u64(p))
}

fn element(v: u128) -> FieldElement {
    FieldElement::new(U256::from_u128(v), reference_field())
}

fn small(v: u64, p: u64) -> FieldElement {
    FieldElement::new(U256::from_u64(v), small_field(p))
}

#[test]
fn from_u128_splits_into_limbs() {
    let v = U256::from_u128(0x0123_4567_89ab_cdef_0011_2233_4455_6677);
    assert_eq!(v.limbs, [0x0011_2233_4455_6677, 0x0123_4567_89ab_cdef, 0, 0]);
}

#[test]
fn comparisons_go_by_the_most_significant_limb() {
    let low = U256 { limbs: [u64::MAX, 0, 0, 0] };
    let high = U256 { limbs: [0, 1, 0, 0] };
    assert!(low.lt(&high));
    assert!(!high.lt(&low));
    assert!(low.le(&low));
    assert!(!low.lt(&low));
    assert!(low.equals(&low));
    assert!(!low.equals(&high));
    assert!(U256::zero().is_zero());
    assert!(!U256::one().is_zero());
}

#[test]
fn widen_and_narrow_keep_the_value() {
    let v = U256 { limbs: [1, 2, 3, 4] };
    let wide = v.widen();
    assert_eq!(wide.limbs, [1, 2, 3, 4, 0, 0, 0, 0]);
    assert_eq!(wide.narrow(), v);
}

#[test]
fn reference_scenario_add_mul_div() {
    let a = element(10);
    let b = element(3);
    assert_eq!(a.add(b), element(13));
    assert_eq!(a.mul(b), element(30));
    let quotient = a.div(b).unwrap();
    assert_eq!(quotient.mul(b), a);
}

#[test]
fn new_reduces_into_the_field() {
    assert_eq!(small(23, 7).value, U256::from_u64(2));
    assert_eq!(small(7, 7).value, U256::zero());
    assert_eq!(small(6, 7).value, U256::from_u64(6));
}

#[test]
fn add_wraps_at_the_modulus() {
    assert_eq!(small(5, 7).add(small(4, 7)), small(2, 7));
    assert_eq!(small(3, 7).add(small(4, 7)), small(0, 7));
    assert_eq!(small(3, 7).add(small(3, 7)), small(6, 7));
}

#[test]
fn add_near_the_top_of_256_bits_does_not_overflow() {
    let p = U256 { limbs: [u64::MAX - 60, u64::MAX, u64::MAX, u64::MAX] };
    let field = Field::new(p);
    let a = FieldElement::new(U256 { limbs: [u64::MAX - 61, u64::MAX, u64::MAX, u64::MAX] }, field);
    let sum = a.add(a);
    // (p - 1) + (p - 1) = p - 2 (mod p)
    assert_eq!(sum.value, U256 { limbs: [u64::MAX - 62, u64::MAX, u64::MAX, u64::MAX] });
    let product = a.mul(a);
    // (-1) * (-1) = 1
    assert_eq!(product.value, U256::one());
}

#[test]
fn subtract_adds_the_modulus_when_the_minuend_is_smaller() {
    assert_eq!(small(2, 7).sub(small(5, 7)), small(4, 7));
    assert_eq!(small(5, 7).sub(small(2, 7)), small(3, 7));
    assert_eq!(small(5, 7).sub(small(5, 7)), small(0, 7));
}

#[test]
fn negate_of_zero_is_zero() {
    let field = small_field(7);
    assert_eq!(field.negate(field.zero()), field.zero());
    assert_eq!(small(3, 7).neg(), small(4, 7));
}

#[test]
fn element_plus_its_negation_is_zero() {
    let a = element(123456789);
    assert!(a.add(a.neg()).is_zero());
}

#[test]
fn multiply_reduces_the_full_product() {
    assert_eq!(small(5, 7).mul(small(4, 7)), small(6, 7));
    let a = element(REFERENCE_MODULUS - 1);
    assert_eq!(a.mul(a), element(1));
}

#[test]
fn inverse_times_element_is_one() {
    let field = reference_field();
    for v in [1u128, 2, 3, 10, 12345678901234567890, REFERENCE_MODULUS - 1] {
        let a = element(v);
        let inverse = a.inverse().unwrap();
        assert_eq!(a.mul(inverse), field.one());
    }
    assert_eq!(small(3, 7).inverse().unwrap(), small(5, 7));
}

#[test]
fn inverse_of_zero_fails_with_division_by_zero() {
    let field = reference_field();
    assert_eq!(field.inverse(field.zero()), Err(FieldError::new(ErrorKind::DivisionByZero)));
    assert_eq!(field.zero().inverse().unwrap_err().kind, ErrorKind::DivisionByZero);
}

#[test]
fn divide_by_zero_fails_with_division_by_zero() {
    let field = reference_field();
    let a = element(10);
    assert_eq!(field.divide(&a, &field.zero()).unwrap_err().kind, ErrorKind::DivisionByZero);
    assert_eq!(a.div(field.zero()).unwrap_err().kind, ErrorKind::DivisionByZero);
}

#[test]
fn divide_is_multiplication_by_the_inverse() {
    assert_eq!(small(6, 7).div(small(3, 7)).unwrap(), small(2, 7));
    assert_eq!(small(1, 7).div(small(3, 7)).unwrap(), small(5, 7));
}

#[test]
fn xgcd_returns_gcd_and_coefficients() {
    let a = U256::from_u64(240);
    let b = U256::from_u64(46);
    let (s, t, g) = xgcd(&a, &b);
    assert_eq!(g, U256::from_u64(2));
    // s * a + t * b == g + a * b
    let (s, t) = (s.limbs[0] as u128, t.limbs[0] as u128);
    assert_eq!(s * 240 + t * 46, 2 + 240 * 46);
    assert_eq!((s * 240) % 46, 2);
    assert_eq!((t * 46) % 240, 2);
}

#[test]
fn xgcd_of_zero_and_of_a_multiple() {
    let b = U256::from_u64(7);
    assert_eq!(xgcd(&U256::zero(), &b), (b, U256::one(), b));
    assert_eq!(xgcd(&U256::from_u64(21), &b), (b, U256::one(), b));
    assert_eq!(xgcd(&U256::from_u64(3), &b), (U256::from_u64(5), U256::from_u64(1), U256::one()));
}

#[test]
fn modexp_by_zero_is_one() {
    let field = reference_field();
    assert_eq!(element(5).modexp(0), field.one());
    assert_eq!(field.zero().modexp(0), field.one());
}

#[test]
fn modexp_small_powers() {
    assert_eq!(element(5).modexp(1), element(5));
    assert_eq!(element(5).modexp(2), element(25));
    assert_eq!(element(2).modexp(10), element(1024));
    assert_eq!(element(3).modexp(5), element(243));
    assert_eq!(small(3, 7).modexp(6), small(1, 7));
    assert_eq!(small(3, 7).modexp(4), small(4, 7));
}

#[test]
fn generator_of_the_reference_field() {
    let g = reference_field().generator().unwrap();
    assert_eq!(g, element(REFERENCE_GENERATOR));
}

#[test]
fn generator_of_another_field_is_unsupported() {
    assert_eq!(small_field(7).generator().unwrap_err().kind, ErrorKind::UnsupportedField);
}

#[test]
fn primitive_root_has_its_order() {
    let field = reference_field();
    let one = field.one();
    let root = field.primite_nth_root(&U256::from_u64(8)).unwrap();
    assert_eq!(root.modexp(8), one);
    assert_ne!(root.modexp(4), one);
    let root1 = field.primite_nth_root(&U256::from_u64(1)).unwrap();
    assert_eq!(root1, one);
    let top = field.primite_nth_root(&U256::from_u128(1u128 << 119)).unwrap();
    assert_eq!(top, field.generator().unwrap());
}

#[test]
fn primitive_root_of_an_unsupported_order() {
    let field = reference_field();
    for n in [0u128, 3, 6, 1u128 << 120, (1u128 << 119) + 1] {
        let r = field.primite_nth_root(&U256::from_u128(n));
        assert_eq!(r.unwrap_err().kind, ErrorKind::UnsupportedOrder);
    }
}

#[test]
fn primitive_root_of_an_unsupported_field() {
    let r = small_field(17).primite_nth_root(&U256::from_u64(4));
    assert_eq!(r.unwrap_err().kind, ErrorKind::UnsupportedField);
}

#[test]
fn sample_folds_limbs_by_shift_and_xor() {
    let field = reference_field();
    assert_eq!(field.sample(&[]), field.zero());
    assert_eq!(field.sample(&[U256::from_u64(1), U256::from_u64(2)]), element(258));
    // (0x01 << 8) ^ 0x1ff = 0x0ff
    assert_eq!(field.sample(&[U256::from_u64(1), U256::from_u64(0x1ff)]), element(0xff));
    assert_eq!(small_field(7).sample(&[U256::from_u64(1), U256::from_u64(2)]), small(258 % 7, 7));
}

#[test]
fn sample_drops_the_bits_shifted_out() {
    let field = reference_field();
    let top = U256 { limbs: [0, 0, 0, 0xff00_0000_0000_0000] };
    // the top byte leaves the 256 bits, the limb 5 remains
    assert_eq!(field.sample(&[top, U256::from_u64(5)]), element(5));
}

#[test]
fn one_of_the_field_of_modulus_one_is_zero() {
    let field = small_field(1);
    assert_eq!(field.one(), field.zero());
}

#[test]
fn error_messages() {
    assert_eq!(FieldError::new(ErrorKind::DivisionByZero).message(), "division by zero");
    assert_eq!(
        FieldError::new(ErrorKind::EmptyDomain).message(),
        "cannot interpolate over an empty domain"
    );
    assert_eq!(
        FieldError::new(ErrorKind::DivisionNotExact).message(),
        "polynomial division left a remainder"
    );
    assert_eq!(
        FieldError::new(ErrorKind::DomainLengthMismatch).message(),
        "domain and values differ in length"
    );
    assert_eq!(
        FieldError::new(ErrorKind::UnsupportedField).message(),
        "no generator is known for this field"
    );
    assert_eq!(
        FieldError::new(ErrorKind::UnsupportedOrder).message(),
        "the field has no root of unity of this order"
    );
}

#[test]
fn bytes_are_the_big_endian_representative() {
    let bytes = element(0x0102_0304).bytes();
    assert_eq!(bytes.len(), 32);
    let mut expected = vec![0u8; 32];
    expected[28] = 1;
    expected[29] = 2;
    expected[30] = 3;
    expected[31] = 4;
    assert_eq!(bytes, expected);
    let top = U256 { limbs: [0x0807_0605_0403_0201, 0, 0, 0xf0e0_d0c0_b0a0_9080] };
    let bytes = top.to_be_bytes();
    assert_eq!(&bytes[..8], &[0xf0, 0xe0, 0xd0, 0xc0, 0xb0, 0xa0, 0x90, 0x80]);
    assert_eq!(&bytes[24..], &[8, 7, 6, 5, 4, 3, 2, 1]);
}

#[test]
fn bytes_round_trip() {
    let field = reference_field();
    for v in [0u128, 1, 255, 256, 0xdead_beef, REFERENCE_MODULUS - 1] {
        let e = element(v);
        assert_eq!(FieldElement::from_bytes(&e.bytes(), field), Some(e));
    }
    let n = U256 { limbs: [1, 2, 3, 4] };
    assert_eq!(U256::from_be_bytes(&n.to_be_bytes()), Some(n));
}

#[test]
fn from_bytes_rejects_what_is_no_encoding() {
    let field = reference_field();
    assert_eq!(FieldElement::from_bytes(&[0u8; 31], field), None);
    assert_eq!(FieldElement::from_bytes(&[0u8; 33], field), None);
    assert_eq!(FieldElement::from_bytes(&[], field), None);
    // the modulus itself is no canonical representative
    let modulus = U256::from_u128(REFERENCE_MODULUS).to_be_bytes();
    assert_eq!(FieldElement::from_bytes(&modulus, field), None);
    assert_eq!(FieldElement::from_bytes(&[0xffu8; 32], field), None);
    assert_eq!(U256::from_be_bytes(&[0u8; 5]), None);
}

#[test]
fn division_then_multiplication_gives_the_dividend_back() {
    let top = REFERENCE_MODULUS - 1;
    for (a, b) in [(10u128, 3u128), (0, 5), (top, 2), (7, top)] {
        let (a, b) = (element(a), element(b));
        assert_eq!(a.div(b).unwrap().mul(b), a);
    }
}

#[test]
fn division_by_a_zero_divisor_of_a_composite_modulus() {
    // 2 has no inverse modulo 4: the quotient times 2 is not the dividend
    let one = small(1, 4);
    let two = small(2, 4);
    let quotient = one.div(two).unwrap();
    assert_ne!(quotient.mul(two), one);
    // 3 is coprime to 4
    assert_eq!(one.div(small(3, 4)).unwrap().mul(small(3, 4)), one);
}

#[test]
fn field_equality_is_equality_of_the_modulus() {
    assert_eq!(small_field(7), small_field(7));
    assert_ne!(small_field(7), small_field(11));
    assert_ne!(small(3, 7), small(3, 11));
    assert_eq!(small(3, 7), small(10, 7));
}

#[test]
fn bit_length_counts_the_bits() {
    assert_eq!(bit_length(0), 0);
    assert_eq!(bit_length(1), 1);
    assert_eq!(bit_length(2), 2);
    assert_eq!(bit_length(255), 8);
    assert_eq!(bit_length(256), 9);
    assert_eq!(bit_length(u128::MAX), 128);
}
