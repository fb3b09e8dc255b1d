//! Interpolation tables: at least two finite coordinate pairs with strictly increasing abscissae,
//! held as canonical binary64 bit patterns, and a declared out-of-range behaviour.

use vstd::prelude::*;

use crate::numerical_semantics::{canonical_bits, is_finite_bits, is_negative_bits, NumericalSemanticsVersion, NEGATIVE_ZERO_BITS};
use crate::keyed::{Key, Keyed};
use crate::order::KeyOrder;
use crate::rule_reference::TableId;

verus! {

/// The closed behaviour declared for inputs outside a table's endpoint interval.
#[derive(Clone, Copy, Debug, Eq, Hash, Ord, PartialEq, PartialOrd, Structural)]
pub enum InterpolationBoundaryPolicy {
    Reject,
    ClampToEndpoint,
    LinearExtrapolate,
}

/// The finite binary64 value encoded by `a` is below that encoded by `b`, both being canonical
/// (negative zero written as positive zero): non-negative values order by their bits, negative
/// values in reverse, and every negative value lies below every non-negative one.
pub open spec fn finite_lt(a: u64, b: u64) -> bool {
    if !is_negative_bits(a) && !is_negative_bits(b) {
        a < b
    } else if is_negative_bits(a) && is_negative_bits(b) {
        a > b
    } else {
        is_negative_bits(a)
    }
}

/// The order on abscissae is a strict total order on bit patterns: no pattern lies below itself,
/// none lies both below and above another, it is transitive, and of two distinct patterns one
/// lies below the other. So a table with two equal adjacent abscissae is always rejected.
pub proof fn law_finite_order_strict(a: u64, b: u64, c: u64)
    ensures
        !finite_lt(a, a),
        finite_lt(a, b) ==> !finite_lt(b, a),
        finite_lt(a, b) && finite_lt(b, c) ==> finite_lt(a, c),
        a != b ==> finite_lt(a, b) || finite_lt(b, a),
{
}

/// Abscissae that increase step by step increase throughout: every abscissa lies below every
/// later one, so no two are equal.
pub proof fn law_increasing_abscissae(xs: Seq<u64>)
    requires
        forall|k: int| 0 <= k < xs.len() - 1 ==> finite_lt(#[trigger] xs[k], xs[k + 1]),
    ensures
        forall|i: int, j: int| 0 <= i < j < xs.len() ==> finite_lt(#[trigger] xs[i], #[trigger] xs[j]),
    decreases xs.len(),
{
    if xs.len() > 1 {
        let front = xs.drop_last();
        assert forall|k: int| 0 <= k < front.len() - 1 implies finite_lt(#[trigger] front[k], front[k + 1]) by {
            assert(front[k] == xs[k] && front[k + 1] == xs[k + 1]);
        }
        law_increasing_abscissae(front);
        assert forall|i: int, j: int| 0 <= i < j < xs.len() implies finite_lt(#[trigger] xs[i], #[trigger] xs[j]) by {
            if j < xs.len() - 1 {
                assert(front[i] == xs[i] && front[j] == xs[j]);
            } else if i < j - 1 {
                assert(front[i] == xs[i] && front[j - 1] == xs[j - 1]);
                assert(finite_lt(xs[j - 1], xs[j]));
                law_finite_order_strict(xs[i], xs[j - 1], xs[j]);
            }
        }
    }
}

/// Whether the finite canonical value encoded by `a` is below that encoded by `b`.
fn finite_less(a: u64, b: u64) -> (r: bool)
    ensures
        r == finite_lt(a, b),
{
    let a_negative = a >= NEGATIVE_ZERO_BITS;
    let b_negative = b >= NEGATIVE_ZERO_BITS;
    if !a_negative && !b_negative {
        a < b
    } else if a_negative && b_negative {
        a > b
    } else {
        a_negative
    }
}

/// Position `i` holds the first value that is not finite.
pub open spec fn first_non_finite_at(values: Seq<u64>, i: int) -> bool {
    &&& 0 <= i < values.len()
    &&& !is_finite_bits(values[i])
    &&& forall|k: int| 0 <= k < i ==> is_finite_bits(#[trigger] values[k])
}

/// Every value is finite.
pub open spec fn all_finite(values: Seq<u64>) -> bool {
    forall|k: int| 0 <= k < values.len() ==> is_finite_bits(#[trigger] values[k])
}

/// The canonical form of every value.
pub open spec fn canonical_all(values: Seq<u64>) -> Seq<u64> {
    values.map_values(|b: u64| canonical_bits(b))
}

/// An immutable ordered finite interpolation table.
#[derive(Debug, Eq, PartialEq)]
pub struct InterpolationTable {
    id: TableId,
    numerical_semantics_version: NumericalSemanticsVersion,
    boundary_policy: InterpolationBoundaryPolicy,
    abscissae: Vec<u64>,
    ordinates: Vec<u64>,
}

/// Reports why an interpolation table could not be constructed.
#[derive(Clone, Debug, Eq, PartialEq)]
pub enum InterpolationTableError {
    /// Fires when the abscissa and ordinate counts differ.
    CoordinateCountMismatch { abscissae: usize, ordinates: usize },
    /// Fires when fewer than two coordinate pairs are supplied.
    TooFewPoints { points: usize },
    /// Fires when an abscissa is NaN or infinite.
    NonFiniteAbscissa { index: usize, bits: u64 },
    /// Fires when an ordinate is NaN or infinite.
    NonFiniteOrdinate { index: usize, bits: u64 },
    /// Fires when adjacent abscissae are equal or decreasing.
    AbscissaeNotStrictlyIncreasing {
        left_index: usize,
        right_index: usize,
        left_bits: u64,
        right_bits: u64,
    },
}

/// The canonical values, rejecting the first that is not finite with its position.
fn canonicalize(values: &Vec<u64>) -> (r: Result<Vec<u64>, usize>)
    ensures
        r matches Ok(v) ==> all_finite(values@) && v@ == canonical_all(values@),
        r matches Err(i) ==> first_non_finite_at(values@, i as int),
        r is Ok <==> all_finite(values@),
{
    let mut out: Vec<u64> = Vec::new();
    let mut i: usize = 0;
    while i < values.len()
        invariant
            i <= values@.len(),
            out@ == canonical_all(values@.take(i as int)),
            forall|k: int| 0 <= k < i ==> is_finite_bits(#[trigger] values@[k]),
        decreases values.len() - i,
    {
        match NumericalSemanticsVersion::V1.normalize(values[i]) {
            Ok(b) => {
                out.push(b);
                proof {
                    assert(canonical_all(values@.take(i + 1)) =~= canonical_all(values@.take(i as int)).push(
                        canonical_bits(values@[i as int]),
                    ));
                }
            },
            Err(_) => {
                return Err(i);
            },
        }
        i = i + 1;
    }
    proof {
        assert(values@.take(i as int) =~= values@);
    }
    Ok(out)
}

impl Keyed for InterpolationTable {
    open spec fn key(&self) -> Key {
        seq![self.spec_id()@]
    }

    fn compare_keys(&self, other: &Self) -> (r: KeyOrder) {
        self.id().compare_keys(other.id())
    }
}

impl InterpolationTable {
    #[verifier::type_invariant]
    closed spec fn well_formed(self) -> bool {
        &&& self.abscissae@.len() == self.ordinates@.len()
        &&& self.abscissae@.len() >= 2
        &&& forall|k: int| 0 <= k < self.abscissae@.len() - 1 ==> finite_lt(
            #[trigger] self.abscissae@[k],
            self.abscissae@[k + 1],
        )
    }

    /// The table identity.
    pub closed spec fn spec_id(&self) -> TableId {
        self.id
    }

    /// The numerical semantics of the table.
    pub closed spec fn spec_semantics(&self) -> NumericalSemanticsVersion {
        self.numerical_semantics_version
    }

    /// The declared out-of-range behaviour.
    pub closed spec fn spec_policy(&self) -> InterpolationBoundaryPolicy {
        self.boundary_policy
    }

    /// The canonical abscissa bits in order.
    pub closed spec fn spec_abscissae(&self) -> Seq<u64> {
        self.abscissae@
    }

    /// The canonical ordinate bits in order.
    pub closed spec fn spec_ordinates(&self) -> Seq<u64> {
        self.ordinates@
    }

    /// Constructs an interpolation table. The checks are made in this order, the first failure
    /// deciding: equal coordinate counts, at least two points, finite abscissae, finite
    /// ordinates (each reporting the first offending position), then strictly increasing
    /// canonical abscissae (reporting the first offending adjacent pair).
    #[verifier::loop_isolation(false)]
    pub fn new(
        id: TableId,
        numerical_semantics_version: NumericalSemanticsVersion,
        boundary_policy: InterpolationBoundaryPolicy,
        abscissae: Vec<u64>,
        ordinates: Vec<u64>,
    ) -> (r: Result<Self, InterpolationTableError>)
        ensures
            abscissae@.len() != ordinates@.len() ==> r == Err::<Self, InterpolationTableError>(
                InterpolationTableError::CoordinateCountMismatch {
                    abscissae: abscissae@.len() as usize,
                    ordinates: ordinates@.len() as usize,
                },
            ),
            abscissae@.len() == ordinates@.len() && abscissae@.len() < 2 ==> r == Err::<
                Self,
                InterpolationTableError,
            >(InterpolationTableError::TooFewPoints { points: abscissae@.len() as usize }),
            abscissae@.len() == ordinates@.len() && abscissae@.len() >= 2 ==> forall|i: int|
                #[trigger] first_non_finite_at(abscissae@, i) ==> r == Err::<
                    Self,
                    InterpolationTableError,
                >(InterpolationTableError::NonFiniteAbscissa { index: i as usize, bits: abscissae@[i] }),
            abscissae@.len() == ordinates@.len() && abscissae@.len() >= 2 && all_finite(abscissae@)
                ==> forall|i: int|
                #[trigger] first_non_finite_at(ordinates@, i) ==> r == Err::<
                    Self,
                    InterpolationTableError,
                >(InterpolationTableError::NonFiniteOrdinate { index: i as usize, bits: ordinates@[i] }),
            abscissae@.len() == ordinates@.len() && abscissae@.len() >= 2 && all_finite(abscissae@)
                && all_finite(ordinates@) ==> forall|i: int|
                0 <= i < abscissae@.len() - 1 && !finite_lt(
                    #[trigger] canonical_all(abscissae@)[i],
                    canonical_all(abscissae@)[i + 1],
                ) && (forall|k: int|
                    0 <= k < i ==> finite_lt(#[trigger] canonical_all(abscissae@)[k], canonical_all(abscissae@)[k + 1]))
                    ==> r == Err::<Self, InterpolationTableError>(
                    InterpolationTableError::AbscissaeNotStrictlyIncreasing {
                        left_index: i as usize,
                        right_index: (i + 1) as usize,
                        left_bits: canonical_all(abscissae@)[i],
                        right_bits: canonical_all(abscissae@)[i + 1],
                    },
                ),
            r is Ok <==> abscissae@.len() == ordinates@.len() && abscissae@.len() >= 2 && all_finite(
                abscissae@,
            ) && all_finite(ordinates@) && forall|k: int|
                0 <= k < abscissae@.len() - 1 ==> finite_lt(
                    #[trigger] canonical_all(abscissae@)[k],
                    canonical_all(abscissae@)[k + 1],
                ),
            r matches Ok(t) ==> {
                &&& t.spec_id() == id
                &&& t.spec_semantics() == numerical_semantics_version
                &&& t.spec_policy() == boundary_policy
                &&& t.spec_abscissae() == canonical_all(abscissae@)
                &&& t.spec_ordinates() == canonical_all(ordinates@)
            },
    {
        if abscissae.len() != ordinates.len() {
            return Err(
                InterpolationTableError::CoordinateCountMismatch {
                    abscissae: abscissae.len(),
                    ordinates: ordinates.len(),
                },
            );
        }
        if abscissae.len() < 2 {
            return Err(InterpolationTableError::TooFewPoints { points: abscissae.len() });
        }
        let xs = match canonicalize(&abscissae) {
            Ok(v) => v,
            Err(index) => {
                return Err(InterpolationTableError::NonFiniteAbscissa { index, bits: abscissae[index] });
            },
        };
        let ys = match canonicalize(&ordinates) {
            Ok(v) => v,
            Err(index) => {
                return Err(InterpolationTableError::NonFiniteOrdinate { index, bits: ordinates[index] });
            },
        };
        let mut index: usize = 0;
        while index + 1 < xs.len()
            invariant
                xs@ == canonical_all(abscissae@),
                xs@.len() == abscissae@.len(),
                index + 1 <= xs@.len(),
                forall|k: int| 0 <= k < index ==> finite_lt(#[trigger] xs@[k], xs@[k + 1]),
            decreases xs.len() - index,
        {
            if !finite_less(xs[index], xs[index + 1]) {
                return Err(
                    InterpolationTableError::AbscissaeNotStrictlyIncreasing {
                        left_index: index,
                        right_index: index + 1,
                        left_bits: xs[index],
                        right_bits: xs[index + 1],
                    },
                );
            }
            index = index + 1;
        }
        Ok(
            InterpolationTable {
                id,
                numerical_semantics_version,
                boundary_policy,
                abscissae: xs,
                ordinates: ys,
            },
        )
    }

    /// The table identity.
    pub fn id(&self) -> (r: &TableId)
        ensures
            *r == self.spec_id(),
    {
        &self.id
    }

    /// The numerical semantics of the table.
    pub fn numerical_semantics_version(&self) -> (r: NumericalSemanticsVersion)
        ensures
            r == self.spec_semantics(),
    {
        self.numerical_semantics_version
    }

    /// The declared out-of-range behaviour.
    pub fn boundary_policy(&self) -> (r: InterpolationBoundaryPolicy)
        ensures
            r == self.spec_policy(),
    {
        self.boundary_policy
    }

    /// The number of coordinate pairs.
    pub fn len(&self) -> (r: usize)
        ensures
            r == self.spec_abscissae().len(),
            r >= 2,
    {
        proof {
            use_type_invariant(self);
        }
        self.abscissae.len()
    }

    /// Whether the table holds no point; never, since a table holds at least two.
    pub fn is_empty(&self) -> (r: bool)
        ensures
            r == (self.spec_abscissae().len() == 0),
            !r,
    {
        proof {
            use_type_invariant(self);
        }
        self.abscissae.len() == 0
    }

    /// The coordinate pairs as bit patterns, in increasing abscissa order.
    pub fn points(&self) -> (r: Vec<(u64, u64)>)
        ensures
            r@.len() == self.spec_abscissae().len(),
            forall|k: int|
                0 <= k < r@.len() ==> #[trigger] r@[k] == (self.spec_abscissae()[k], self.spec_ordinates()[k]),
    {
        proof {
            use_type_invariant(self);
        }
        let mut out: Vec<(u64, u64)> = Vec::new();
        let mut i: usize = 0;
        while i < self.abscissae.len()
            invariant
                i <= self.abscissae@.len(),
                self.abscissae@.len() == self.ordinates@.len(),
                out@.len() == i,
                forall|k: int|
                    0 <= k < i ==> #[trigger] out@[k] == (self.abscissae@[k], self.ordinates@[k]),
            decreases self.abscissae.len() - i,
        {
            out.push((self.abscissae[i], self.ordinates[i]));
            i = i + 1;
        }
        out
    }
}

impl Clone for InterpolationTable {
    fn clone(&self) -> (r: Self)
        ensures
            r.spec_id() == self.spec_id(),
            r.spec_semantics() == self.spec_semantics(),
            r.spec_policy() == self.spec_policy(),
            r.spec_abscissae() == self.spec_abscissae(),
            r.spec_ordinates() == self.spec_ordinates(),
    {
        proof {
            use_type_invariant(self);
        }
        let abscissae = self.abscissae.clone();
        let ordinates = self.ordinates.clone();
        proof {
            assert(abscissae@ =~= self.abscissae@);
            assert(ordinates@ =~= self.ordinates@);
        }
        InterpolationTable {
            id: self.id.clone(),
            numerical_semantics_version: self.numerical_semantics_version,
            boundary_policy: self.boundary_policy,
            abscissae,
            ordinates,
        }
    }
}

} // verus!
