//! Numerical values held as IEEE-754 binary64 bit patterns, and the checks made on them.

use vstd::prelude::*;

verus! {

/// A caller-selected version of the numerical semantics.
#[derive(Copy, Clone, Debug, Eq, PartialEq, Structural)]
pub enum NumericalSemanticsVersion {
    /// Literal authoritative-order binary64 accumulation.
    V1,
}

/// An ordered comparison of two scalar values.
#[derive(Copy, Clone, Debug, Eq, PartialEq, Structural)]
pub enum ScalarComparison {
    Equal,
    NotEqual,
    LessThan,
    LessThanOrEqual,
    GreaterThan,
    GreaterThanOrEqual,
}

/// The bit pattern of binary64 negative zero.
pub const NEGATIVE_ZERO_BITS: u64 = 0x8000_0000_0000_0000;

/// The bit pattern of binary64 one.
pub const ONE_BITS: u64 = 0x3ff0_0000_0000_0000;

/// The biased exponent field of a binary64 bit pattern.
pub open spec fn exponent_field(bits: u64) -> int {
    (bits as int / 0x10_0000_0000_0000) % 0x800
}

/// The value is neither NaN nor infinite: its exponent field is not all ones.
pub open spec fn is_finite_bits(bits: u64) -> bool {
    exponent_field(bits) != 0x7ff
}

/// The sign bit is set.
pub open spec fn is_negative_bits(bits: u64) -> bool {
    bits >= NEGATIVE_ZERO_BITS
}

/// The canonical representative of a finite value: negative zero becomes positive zero.
pub open spec fn canonical_bits(bits: u64) -> u64 {
    if bits == NEGATIVE_ZERO_BITS {
        0
    } else {
        bits
    }
}

/// Whether the value encoded by `bits` is finite.
pub fn bits_are_finite(bits: u64) -> (r: bool)
    ensures
        r == is_finite_bits(bits),
{
    (bits / 0x10_0000_0000_0000) % 0x800 != 0x7ff
}

/// Reports a value that cannot be normalised because it is NaN or infinite.
#[derive(Clone, Copy, Debug, Eq, PartialEq, Structural)]
pub struct NonFiniteValue {
    pub bits: u64,
}

impl NumericalSemanticsVersion {
    /// Normalises a value: rejects NaN and infinities, maps negative zero to positive zero.
    pub fn normalize(self, bits: u64) -> (r: Result<u64, NonFiniteValue>)
        ensures
            r is Ok <==> is_finite_bits(bits),
            r matches Ok(b) ==> b == canonical_bits(bits),
            r matches Err(e) ==> e.bits == bits,
    {
        if !bits_are_finite(bits) {
            Err(NonFiniteValue { bits })
        } else if bits == NEGATIVE_ZERO_BITS {
            Ok(0)
        } else {
            Ok(bits)
        }
    }
}

/// A finite, non-negative extensive amount, held as its binary64 bit pattern.
#[derive(Copy, Clone, Debug, PartialEq, Eq, Structural)]
pub struct NonNegativeAmount {
    bits: u64,
}

impl View for NonNegativeAmount {
    type V = u64;

    closed spec fn view(&self) -> u64 {
        self.bits
    }
}

/// An error constructing a [`NonNegativeAmount`] from a raw value.
#[derive(Debug, Clone, Copy, PartialEq, Eq, Structural)]
pub enum NonNegativeAmountError {
    /// Fires when the input is NaN or either infinity.
    NonFinite { bits: u64 },
    /// Fires when the input is finite and strictly less than zero.
    Negative { bits: u64 },
}

/// The bit pattern encodes a finite value that is zero or positive, zero being positive zero.
pub open spec fn canonical_non_negative(bits: u64) -> bool {
    is_finite_bits(bits) && !is_negative_bits(bits)
}

impl NonNegativeAmount {
    #[verifier::type_invariant]
    closed spec fn canonical(self) -> bool {
        canonical_non_negative(self.bits)
    }

    /// Canonical positive zero.
    pub fn zero() -> (r: Self)
        ensures
            r@ == 0,
    {
        NonNegativeAmount { bits: 0 }
    }

    /// Parses a finite, non-negative amount and canonicalises signed zero.
    pub fn from_bits(bits: u64) -> (r: Result<Self, NonNegativeAmountError>)
        ensures
            !is_finite_bits(bits) ==> r == Err::<Self, NonNegativeAmountError>(
                NonNegativeAmountError::NonFinite { bits },
            ),
            is_finite_bits(bits) && is_negative_bits(bits) && bits != NEGATIVE_ZERO_BITS ==> r
                == Err::<Self, NonNegativeAmountError>(NonNegativeAmountError::Negative { bits }),
            is_finite_bits(bits) && (!is_negative_bits(bits) || bits == NEGATIVE_ZERO_BITS) ==> (
            r matches Ok(a) && a@ == canonical_bits(bits)),
    {
        if !bits_are_finite(bits) {
            return Err(NonNegativeAmountError::NonFinite { bits });
        }
        if bits > NEGATIVE_ZERO_BITS {
            return Err(NonNegativeAmountError::Negative { bits });
        }
        if bits == NEGATIVE_ZERO_BITS {
            return Ok(NonNegativeAmount { bits: 0 });
        }
        Ok(NonNegativeAmount { bits })
    }

    /// Returns the bit pattern of the finite, non-negative value.
    pub fn bits(self) -> (r: u64)
        ensures
            r == self@,
            canonical_non_negative(r),
    {
        proof {
            use_type_invariant(&self);
        }
        self.bits
    }
}

/// An error accumulating non-negative amounts in binary64 arithmetic.
#[derive(Debug, Clone, Copy, PartialEq, Eq, Structural)]
pub enum AccumulationError {
    /// Fires when an addition first produces a non-finite sum.
    NonFiniteSum {
        version: NumericalSemanticsVersion,
        index: usize,
        partial_sum_bits: u64,
        addend_bits: u64,
    },
    /// Fires when the checked final result is rejected as a non-negative amount.
    InvalidResult { version: NumericalSemanticsVersion, source: NonNegativeAmountError },
}

/// A finite signed boundary-ledger balance, held as its binary64 bit pattern.
#[derive(Copy, Clone, Debug, PartialEq, Eq, Structural)]
pub struct SignedBoundaryBalance {
    bits: u64,
}

impl View for SignedBoundaryBalance {
    type V = u64;

    closed spec fn view(&self) -> u64 {
        self.bits
    }
}

/// An error constructing a [`SignedBoundaryBalance`] from a raw value.
#[derive(Debug, Clone, Copy, PartialEq, Eq, Structural)]
pub enum SignedBoundaryBalanceError {
    /// Fires when the input is NaN or either infinity.
    NonFinite { bits: u64 },
}

impl SignedBoundaryBalance {
    /// Canonical positive zero.
    pub fn zero() -> (r: Self)
        ensures
            r@ == 0,
    {
        SignedBoundaryBalance { bits: 0 }
    }

    /// Parses a finite signed balance and canonicalises signed zero.
    pub fn from_bits(bits: u64) -> (r: Result<Self, SignedBoundaryBalanceError>)
        ensures
            r is Ok <==> is_finite_bits(bits),
            r matches Ok(b) ==> b@ == canonical_bits(bits),
            r matches Err(e) ==> e == (SignedBoundaryBalanceError::NonFinite { bits }),
    {
        if !bits_are_finite(bits) {
            return Err(SignedBoundaryBalanceError::NonFinite { bits });
        }
        if bits == NEGATIVE_ZERO_BITS {
            return Ok(SignedBoundaryBalance { bits: 0 });
        }
        Ok(SignedBoundaryBalance { bits })
    }

    /// Returns the bit pattern of the finite signed value.
    pub fn bits(self) -> (r: u64)
        ensures
            r == self@,
    {
        self.bits
    }
}

} // verus!
