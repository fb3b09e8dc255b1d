use incidence_core::numerical_semantics::{
    bits_are_finite, NonFiniteValue, NonNegativeAmount, NonNegativeAmountError,
    NumericalSemanticsVersion, SignedBoundaryBalance, SignedBoundaryBalanceError,
};

#[test]
fn finiteness_follows_the_exponent_field() {
    assert!(bits_are_finite(1.5_f64.to_bits()));
    assert!(bits_are_finite((-0.0_f64).to_bits()));
    assert!(bits_are_finite(f64::MAX.to_bits()));
    assert!(bits_are_finite(f64::MIN_POSITIVE.to_bits()));
    assert!(!bits_are_finite(f64::INFINITY.to_bits()));
    assert!(!bits_are_finite(f64::NEG_INFINITY.to_bits()));
    assert!(!bits_are_finite(f64::NAN.to_bits()));
}

#[test]
fn normalize_canonicalises_signed_zero_and_rejects_non_finite_values() {
    let v1 = NumericalSemanticsVersion::V1;
    assert_eq!(v1.normalize((-0.0_f64).to_bits()), Ok(0));
    assert_eq!(v1.normalize(2.5_f64.to_bits()), Ok(2.5_f64.to_bits()));
    assert_eq!(v1.normalize((-2.5_f64).to_bits()), Ok((-2.5_f64).to_bits()));
    let nan = f64::NAN.to_bits();
    assert_eq!(v1.normalize(nan), Err(NonFiniteValue { bits: nan }));
}

#[test]
fn non_negative_amount_accepts_zero_and_positive_finite_values() {
    assert_eq!(NonNegativeAmount::zero().bits(), 0);
    let amount = NonNegativeAmount::from_bits(3.25_f64.to_bits()).expect("positive");
    assert_eq!(f64::from_bits(amount.bits()), 3.25);
    let zero = NonNegativeAmount::from_bits((-0.0_f64).to_bits()).expect("signed zero");
    assert_eq!(zero.bits(), 0);
}

#[test]
fn non_negative_amount_rejects_negative_and_non_finite_values() {
    let negative = (-1.0_f64).to_bits();
    assert_eq!(
        NonNegativeAmount::from_bits(negative),
        Err(NonNegativeAmountError::Negative { bits: negative })
    );
    let infinite = f64::INFINITY.to_bits();
    assert_eq!(
        NonNegativeAmount::from_bits(infinite),
        Err(NonNegativeAmountError::NonFinite { bits: infinite })
    );
}

#[test]
fn signed_boundary_balance_accepts_any_finite_value() {
    assert_eq!(SignedBoundaryBalance::zero().bits(), 0);
    let debit = SignedBoundaryBalance::from_bits((-4.0_f64).to_bits()).expect("finite");
    assert_eq!(f64::from_bits(debit.bits()), -4.0);
    let zero = SignedBoundaryBalance::from_bits((-0.0_f64).to_bits()).expect("finite");
    assert_eq!(zero.bits(), 0);
    let nan = f64::NAN.to_bits();
    assert_eq!(
        SignedBoundaryBalance::from_bits(nan),
        Err(SignedBoundaryBalanceError::NonFinite { bits: nan })
    );
}
