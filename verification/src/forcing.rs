//! Forcing series: one canonical finite scalar, held as its binary64 bit pattern, for every
//! timestep of an inclusive run horizon.

use vstd::prelude::*;

use crate::numerical_semantics::{canonical_bits, is_finite_bits, NumericalSemanticsVersion};
use crate::presence::ValueState;
use crate::keyed::{Key, Keyed};
use crate::order::KeyOrder;
use crate::rule_reference::ForcingId;
use crate::temporal::{RunHorizon, TimestepIndex};

verus! {

/// An immutable finite scalar series covering one inclusive run horizon.
#[derive(Debug, Eq, PartialEq)]
pub struct ForcingSeries {
    id: ForcingId,
    horizon: RunHorizon,
    values: Vec<u64>,
}

/// Reports why a forcing series could not be constructed.
#[derive(Clone, Debug, Eq, PartialEq)]
pub enum ForcingSeriesError {
    /// Fires when the supplied value count differs from the inclusive horizon length.
    ValueCountMismatch { first_timestep: u64, last_timestep: u64, expected: u128, actual: usize },
    /// Fires when a supplied value is NaN or infinite.
    NonFiniteValue { timestep: u64, bits: u64 },
}

impl Keyed for ForcingSeries {
    open spec fn key(&self) -> Key {
        seq![self.spec_id()@]
    }

    fn compare_keys(&self, other: &Self) -> (r: KeyOrder) {
        self.id().compare_keys(other.id())
    }
}

impl ForcingSeries {
    #[verifier::type_invariant]
    closed spec fn covers_horizon(self) -> bool {
        self.values@.len() == self.horizon@.last - self.horizon@.first + 1
    }

    /// The forcing identity.
    pub closed spec fn spec_id(&self) -> ForcingId {
        self.id
    }

    /// The horizon covered.
    pub closed spec fn spec_horizon(&self) -> RunHorizon {
        self.horizon
    }

    /// The canonical value bits in timestep order.
    pub closed spec fn spec_values(&self) -> Seq<u64> {
        self.values@
    }

    /// Constructs a forcing series: one value per timestep of the horizon, in order; the first
    /// NaN or infinite value is rejected, and negative zero becomes positive zero.
    pub fn new(id: ForcingId, horizon: RunHorizon, values: Vec<u64>) -> (r: Result<Self, ForcingSeriesError>)
        ensures
            values@.len() != horizon@.last - horizon@.first + 1 ==> r == Err::<Self, ForcingSeriesError>(
                ForcingSeriesError::ValueCountMismatch {
                    first_timestep: horizon@.first,
                    last_timestep: horizon@.last,
                    expected: (horizon@.last - horizon@.first + 1) as u128,
                    actual: values@.len() as usize,
                },
            ),
            values@.len() == horizon@.last - horizon@.first + 1 ==> forall|i: int|
                0 <= i < values@.len() && !is_finite_bits(#[trigger] values@[i]) && (forall|k: int|
                    0 <= k < i ==> is_finite_bits(values@[k])) ==> r == Err::<Self, ForcingSeriesError>(
                    ForcingSeriesError::NonFiniteValue {
                        timestep: (horizon@.first + i) as u64,
                        bits: values@[i],
                    },
                ),
            r is Ok <==> values@.len() == horizon@.last - horizon@.first + 1 && forall|i: int|
                0 <= i < values@.len() ==> is_finite_bits(#[trigger] values@[i]),
            r matches Ok(s) ==> {
                &&& s.spec_id() == id
                &&& s.spec_horizon() == horizon
                &&& s.spec_values().len() == values@.len()
                &&& forall|i: int|
                    0 <= i < values@.len() ==> #[trigger] s.spec_values()[i] == canonical_bits(
                        values@[i],
                    )
            },
    {
        let first_timestep = horizon.first().value();
        let last_timestep = horizon.last().value();
        let expected: u128 = (last_timestep as u128) - (first_timestep as u128) + 1;
        if (values.len() as u128) != expected {
            return Err(
                ForcingSeriesError::ValueCountMismatch {
                    first_timestep,
                    last_timestep,
                    expected,
                    actual: values.len(),
                },
            );
        }
        let mut bits: Vec<u64> = Vec::new();
        let mut offset: usize = 0;
        while offset < values.len()
            invariant
                offset <= values@.len(),
                values@.len() == last_timestep - first_timestep + 1,
                first_timestep == horizon@.first,
                last_timestep == horizon@.last,
                bits@.len() == offset,
                forall|k: int| 0 <= k < offset ==> is_finite_bits(#[trigger] values@[k]),
                forall|k: int| 0 <= k < offset ==> #[trigger] bits@[k] == canonical_bits(values@[k]),
            decreases values.len() - offset,
        {
            let timestep = first_timestep + (offset as u64);
            match NumericalSemanticsVersion::V1.normalize(values[offset]) {
                Ok(b) => {
                    bits.push(b);
                },
                Err(_) => {
                    return Err(ForcingSeriesError::NonFiniteValue { timestep, bits: values[offset] });
                },
            }
            offset = offset + 1;
        }
        Ok(ForcingSeries { id, horizon, values: bits })
    }

    /// The forcing identity.
    pub fn id(&self) -> (r: &ForcingId)
        ensures
            *r == self.spec_id(),
    {
        &self.id
    }

    /// The horizon covered.
    pub fn horizon(&self) -> (r: RunHorizon)
        ensures
            r == self.spec_horizon(),
    {
        self.horizon
    }

    /// The number of timestep values.
    pub fn len(&self) -> (r: usize)
        ensures
            r == self.spec_values().len(),
    {
        self.values.len()
    }

    /// Whether the series holds no value.
    pub fn is_empty(&self) -> (r: bool)
        ensures
            r == (self.spec_values().len() == 0),
    {
        self.values.len() == 0
    }

    /// The value bits in authored timestep order.
    pub fn values(&self) -> (r: &[u64])
        ensures
            r@ == self.spec_values(),
    {
        self.values.as_slice()
    }

    /// The value bits at one timestep: absent outside the horizon.
    pub fn value_at(&self, timestep: TimestepIndex) -> (r: ValueState<u64>)
        ensures
            !(self.spec_horizon()@.first <= timestep@ <= self.spec_horizon()@.last) ==> r
                == ValueState::<u64>::Absent,
            self.spec_horizon()@.first <= timestep@ <= self.spec_horizon()@.last ==> r
                == ValueState::Present(self.spec_values()[timestep@ - self.spec_horizon()@.first]),
    {
        proof {
            use_type_invariant(self);
        }
        if !self.horizon.contains(timestep) {
            return ValueState::Absent;
        }
        let offset = timestep.value() - self.horizon.first().value();
        let n = self.values.len();
        proof {
            assert(offset < n);
        }
        let index = offset as usize;
        ValueState::Present(self.values[index])
    }
}

impl Clone for ForcingSeries {
    fn clone(&self) -> (r: Self)
        ensures
            r.spec_id() == self.spec_id(),
            r.spec_horizon() == self.spec_horizon(),
            r.spec_values() == self.spec_values(),
    {
        proof {
            use_type_invariant(self);
        }
        let values = self.values.clone();
        proof {
            assert(values@ =~= self.values@);
        }
        ForcingSeries { id: self.id.clone(), horizon: self.horizon, values }
    }
}

} // verus!
