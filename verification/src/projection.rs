//! Projection specifications: bounded lags, ordered rolling aggregates and closed finite
//! recurrences over authoritative facts, validated together as an acyclic, ordered set.

use vstd::prelude::*;

use crate::identity::{CompartmentId, SubstanceId};
use crate::keyed::{
    find_least_repeated, key_lt, keys_distinct, keys_of, keys_sorted, least_repeated_key,
    least_where, lemma_first_in_sorted_is_least, lemma_member_with_key_at,
    lemma_member_with_key_none, lemma_member_with_key_permutation, lemma_none_in_permutation,
    member_with_key, sort_unique, Key, Keyed,
};
use crate::numerical_semantics::{canonical_bits, is_finite_bits, NonFiniteValue, NumericalSemanticsVersion};
use crate::order::KeyOrder;
use crate::rule_expression::{lemma_leaves_nonempty, view_of_node, RuleExpr, RuleExprView, RuleNode};
use crate::rule_reference::{
    expression_kind, spec_expression_kind, ExpressionValueKind, InputId, InputRef, ParameterId,
    ParameterRef, ProjectionId, ProjectionRef, ProjectionValueKind,
};
use crate::versions::RuleIrVersion;

verus! {

/// The bound of a projection that must be positive.
#[derive(Clone, Copy, Debug, Eq, PartialEq, Structural)]
pub enum ProjectionBound {
    BoundedLagSteps,
    RollingWindow,
    RecurrenceStateSize,
}

/// A leaf that a finite recurrence may not read.
#[derive(Clone, Copy, Debug, Eq, PartialEq, Structural)]
pub enum ForbiddenRecurrenceLeaf {
    Forcing,
    InterpolatedTable,
}

/// Why a projection specification or a projection set was rejected.
#[derive(Clone, Debug, Eq, PartialEq)]
pub enum ProjectionError {
    /// Fires when a required projection bound is zero.
    NonPositiveBound { projection: ProjectionId, bound: ProjectionBound, attempted: usize },
    /// Fires when an initial numeric value is NaN or infinite.
    NonFiniteInitialValue { projection: ProjectionId, index: usize, bits: u64 },
    /// Fires when a projection identity is declared more than once.
    DuplicateProjection { projection: ProjectionId },
    /// Fires when initial state is declared more than once for a projection.
    DuplicateInitialState { projection: ProjectionId },
    /// Fires when a projection has no initial state declaration.
    MissingInitialState { projection: ProjectionId },
    /// Fires when initial state names no declared projection.
    UnknownInitialState { projection: ProjectionId },
    /// Fires when initial state has the wrong number of values.
    InitialStateLength { projection: ProjectionId, expected: usize, actual: usize },
    /// Fires when an initial-state slot has the wrong value kind.
    InitialStateKind {
        projection: ProjectionId,
        index: usize,
        expected: ProjectionValueKind,
        actual: ProjectionValueKind,
    },
    /// Fires when a projection refers to an undeclared projection.
    UnknownProjectionReference { owner: ProjectionId, reference: ProjectionId },
    /// Fires when a projection reference declares the wrong value kind.
    ProjectionReferenceKind {
        owner: ProjectionId,
        reference: ProjectionId,
        expected: ProjectionValueKind,
        actual: ProjectionValueKind,
    },
    /// Fires when projection dependencies form a directed cycle.
    CyclicDependency { cycle: Vec<ProjectionId> },
    /// Fires when a dependency is not earlier in authored evaluation order.
    DependencyNotEarlier {
        owner: ProjectionId,
        reference: ProjectionId,
        owner_index: usize,
        reference_index: usize,
    },
    /// Fires when a recurrence declares an input binding more than once.
    DuplicateInputBinding { projection: ProjectionId, input: InputId },
    /// Fires when a recurrence input leaf or declaration has no counterpart.
    MissingInputBinding { projection: ProjectionId, input: InputId },
    /// Fires when a recurrence input leaf and binding have incompatible kinds.
    InputBindingKind {
        projection: ProjectionId,
        input: InputId,
        expected: ExpressionValueKind,
        actual: ExpressionValueKind,
    },
    /// Fires when a prior-state binding indexes outside the recurrence state.
    PreviousStateIndex { projection: ProjectionId, input: InputId, state_len: usize, attempted: usize },
    /// Fires when a prior-state binding declares the wrong slot kind.
    PreviousStateKind {
        projection: ProjectionId,
        input: InputId,
        index: usize,
        expected: ProjectionValueKind,
        actual: ProjectionValueKind,
    },
    /// Fires when a recurrence declares a parameter more than once.
    DuplicateParameterDeclaration { projection: ProjectionId, parameter: ParameterId },
    /// Fires when a recurrence parameter leaf or declaration has no counterpart.
    MissingParameterDeclaration { projection: ProjectionId, parameter: ParameterId },
    /// Fires when a recurrence parameter leaf and declaration have incompatible kinds.
    ParameterDeclarationKind {
        projection: ProjectionId,
        parameter: ParameterId,
        expected: ExpressionValueKind,
        actual: ExpressionValueKind,
    },
    /// Fires when a recurrence contains a leaf outside its authority contract.
    ForbiddenRecurrenceLeaf { projection: ProjectionId, leaf: ForbiddenRecurrenceLeaf },
    /// Fires when recurrence update count differs from state size.
    RecurrenceUpdateCount { projection: ProjectionId, expected: usize, actual: usize },
    /// Fires when a recurrence update has the wrong result kind for its slot.
    RecurrenceUpdateKind {
        projection: ProjectionId,
        index: usize,
        expected: ProjectionValueKind,
        actual: ExpressionValueKind,
    },
    /// Fires when the recurrence output slot is outside its state.
    RecurrenceOutputIndex { projection: ProjectionId, state_len: usize, attempted: usize },
}

/// An authoritative fact that a projection may read: the amount of a substance transferred into
/// or out of a compartment during a step.
#[derive(Debug, Eq, PartialEq)]
pub enum AuthoritativeFactSelector {
    IncomingTransferAmount { compartment: CompartmentId, substance: SubstanceId },
    OutgoingTransferAmount { compartment: CompartmentId, substance: SubstanceId },
}

impl AuthoritativeFactSelector {
    /// Transfer amounts are extensive.
    pub fn value_kind(&self) -> (r: ProjectionValueKind)
        ensures
            r == ProjectionValueKind::Extensive,
    {
        ProjectionValueKind::Extensive
    }

    /// The selected compartment.
    pub fn compartment(&self) -> (r: &CompartmentId)
        ensures
            *r == match *self {
                AuthoritativeFactSelector::IncomingTransferAmount { compartment, .. } => compartment,
                AuthoritativeFactSelector::OutgoingTransferAmount { compartment, .. } => compartment,
            },
    {
        match self {
            AuthoritativeFactSelector::IncomingTransferAmount { compartment, .. } => compartment,
            AuthoritativeFactSelector::OutgoingTransferAmount { compartment, .. } => compartment,
        }
    }

    /// The selected substance.
    pub fn substance(&self) -> (r: &SubstanceId)
        ensures
            *r == match *self {
                AuthoritativeFactSelector::IncomingTransferAmount { substance, .. } => substance,
                AuthoritativeFactSelector::OutgoingTransferAmount { substance, .. } => substance,
            },
    {
        match self {
            AuthoritativeFactSelector::IncomingTransferAmount { substance, .. } => substance,
            AuthoritativeFactSelector::OutgoingTransferAmount { substance, .. } => substance,
        }
    }
}

impl Clone for AuthoritativeFactSelector {
    fn clone(&self) -> (r: Self)
        ensures
            r == *self,
    {
        match self {
            AuthoritativeFactSelector::IncomingTransferAmount { compartment, substance } => {
                AuthoritativeFactSelector::IncomingTransferAmount {
                    compartment: compartment.clone(),
                    substance: substance.clone(),
                }
            },
            AuthoritativeFactSelector::OutgoingTransferAmount { compartment, substance } => {
                AuthoritativeFactSelector::OutgoingTransferAmount {
                    compartment: compartment.clone(),
                    substance: substance.clone(),
                }
            },
        }
    }
}

/// What a bounded lag or rolling aggregate reads.
#[derive(Debug, Eq, PartialEq)]
pub enum ProjectionSource {
    AuthoritativeFact(AuthoritativeFactSelector),
    Projection(ProjectionRef),
}

/// The value kind a source yields.
pub open spec fn source_kind(source: ProjectionSource) -> ProjectionValueKind {
    match source {
        ProjectionSource::AuthoritativeFact(_) => ProjectionValueKind::Extensive,
        ProjectionSource::Projection(reference) => reference@.1,
    }
}

impl ProjectionSource {
    /// The value kind the source yields.
    pub fn value_kind(&self) -> (r: ProjectionValueKind)
        ensures
            r == source_kind(*self),
    {
        match self {
            ProjectionSource::AuthoritativeFact(selector) => selector.value_kind(),
            ProjectionSource::Projection(reference) => reference.value_kind(),
        }
    }
}

impl Clone for ProjectionSource {
    fn clone(&self) -> (r: Self)
        ensures
            r == *self,
    {
        match self {
            ProjectionSource::AuthoritativeFact(selector) => ProjectionSource::AuthoritativeFact(
                selector.clone(),
            ),
            ProjectionSource::Projection(reference) => ProjectionSource::Projection(reference.clone()),
        }
    }
}

/// How a rolling window is aggregated.
#[derive(Clone, Copy, Debug, Eq, PartialEq, Structural)]
pub enum RollingAggregate {
    SumOldestToNewest,
}

/// A raw initial value as authored: numeric values as binary64 bit patterns.
#[derive(Clone, Copy, Debug, Eq, PartialEq, Structural)]
pub enum InitialProjectionValue {
    Extensive(u64),
    Scalar(u64),
    Truth(bool),
}

/// A canonical finite projector value, held as its binary64 bit pattern.
#[derive(Clone, Copy, Debug, Eq, PartialEq, Structural)]
pub struct FiniteProjectionValue {
    bits: u64,
}

impl View for FiniteProjectionValue {
    type V = u64;

    closed spec fn view(&self) -> u64 {
        self.bits
    }
}

impl FiniteProjectionValue {
    /// Constructs a canonical finite projector value: NaN and infinities are rejected and
    /// negative zero becomes positive zero.
    pub fn new(semantics: NumericalSemanticsVersion, bits: u64) -> (r: Result<Self, NonFiniteValue>)
        ensures
            r is Ok <==> is_finite_bits(bits),
            r matches Ok(v) ==> v@ == canonical_bits(bits),
            r matches Err(e) ==> e.bits == bits,
    {
        match semantics.normalize(bits) {
            Ok(b) => Ok(FiniteProjectionValue { bits: b }),
            Err(e) => Err(e),
        }
    }

    /// The bit pattern of the value.
    pub fn bits(self) -> (r: u64)
        ensures
            r == self@,
    {
        self.bits
    }
}

/// A stored projector value.
#[derive(Clone, Copy, Debug, Eq, PartialEq, Structural)]
pub enum ProjectionValue {
    Extensive(FiniteProjectionValue),
    Scalar(FiniteProjectionValue),
    Truth(bool),
}

/// The kind of a stored projector value.
pub open spec fn value_kind_of(v: ProjectionValue) -> ProjectionValueKind {
    match v {
        ProjectionValue::Extensive(_) => ProjectionValueKind::Extensive,
        ProjectionValue::Scalar(_) => ProjectionValueKind::Scalar,
        ProjectionValue::Truth(_) => ProjectionValueKind::Truth,
    }
}

impl ProjectionValue {
    /// The kind of the value.
    pub fn value_kind(self) -> (r: ProjectionValueKind)
        ensures
            r == value_kind_of(self),
    {
        match self {
            ProjectionValue::Extensive(_) => ProjectionValueKind::Extensive,
            ProjectionValue::Scalar(_) => ProjectionValueKind::Scalar,
            ProjectionValue::Truth(_) => ProjectionValueKind::Truth,
        }
    }

    /// The bit pattern of a numeric value.
    pub fn bits(self) -> (r: Option<u64>)
        ensures
            r == match self {
                ProjectionValue::Extensive(v) => Some(v@),
                ProjectionValue::Scalar(v) => Some(v@),
                ProjectionValue::Truth(_) => None::<u64>,
            },
    {
        match self {
            ProjectionValue::Extensive(v) => Some(v.bits()),
            ProjectionValue::Scalar(v) => Some(v.bits()),
            ProjectionValue::Truth(_) => None,
        }
    }

    /// The truth value of a truth-valued value.
    pub fn truth(self) -> (r: Option<bool>)
        ensures
            r == match self {
                ProjectionValue::Truth(b) => Some(b),
                _ => None::<bool>,
            },
    {
        match self {
            ProjectionValue::Truth(b) => Some(b),
            _ => None,
        }
    }
}

/// The numeric bit pattern of a raw value, if it is numeric.
pub open spec fn raw_bits(v: InitialProjectionValue) -> Option<u64> {
    match v {
        InitialProjectionValue::Extensive(b) => Some(b),
        InitialProjectionValue::Scalar(b) => Some(b),
        InitialProjectionValue::Truth(_) => None,
    }
}

/// The raw value is numeric and not finite.
pub open spec fn raw_non_finite(v: InitialProjectionValue) -> bool {
    raw_bits(v) matches Some(b) && !is_finite_bits(b)
}

/// `stored` is the canonical stored form of the raw value `raw`.
pub open spec fn stores(raw: InitialProjectionValue, stored: ProjectionValue) -> bool {
    match (raw, stored) {
        (InitialProjectionValue::Extensive(b), ProjectionValue::Extensive(v)) => v@ == canonical_bits(b),
        (InitialProjectionValue::Scalar(b), ProjectionValue::Scalar(v)) => v@ == canonical_bits(b),
        (InitialProjectionValue::Truth(b), ProjectionValue::Truth(c)) => b == c,
        _ => false,
    }
}

/// The initial state of one projection's projector.
#[derive(Debug, Eq, PartialEq)]
pub struct InitialProjectorState {
    projection: ProjectionId,
    values: Vec<ProjectionValue>,
}

impl InitialProjectorState {
    /// The projection the state belongs to.
    pub closed spec fn spec_projection(&self) -> ProjectionId {
        self.projection
    }

    /// The stored values.
    pub closed spec fn spec_values(&self) -> Seq<ProjectionValue> {
        self.values@
    }

    /// Converts raw initial values into canonical stored values; the first non-finite numeric
    /// value in ascending slot order is rejected.
    pub fn new(
        projection: ProjectionId,
        semantics: NumericalSemanticsVersion,
        values: Vec<InitialProjectionValue>,
    ) -> (r: Result<Self, ProjectionError>)
        ensures
            (forall|i: int| 0 <= i < values@.len() ==> !raw_non_finite(#[trigger] values@[i]))
                ==> {
                &&& r is Ok
                &&& r->Ok_0.spec_projection() == projection
                &&& r->Ok_0.spec_values().len() == values@.len()
                &&& forall|i: int|
                    0 <= i < values@.len() ==> stores(values@[i], #[trigger] r->Ok_0.spec_values()[i])
            },
            forall|i: int|
                0 <= i < values@.len() && raw_non_finite(#[trigger] values@[i]) && (forall|j: int|
                    0 <= j < i ==> !raw_non_finite(values@[j])) ==> r == Err::<Self, ProjectionError>(
                    ProjectionError::NonFiniteInitialValue {
                        projection,
                        index: i as usize,
                        bits: raw_bits(values@[i])->0,
                    },
                ),
    {
        let mut stored: Vec<ProjectionValue> = Vec::new();
        let mut index: usize = 0;
        while index < values.len()
            invariant
                index <= values@.len(),
                stored@.len() == index,
                forall|i: int| 0 <= i < index ==> !raw_non_finite(#[trigger] values@[i]),
                forall|i: int| 0 <= i < index ==> stores(values@[i], #[trigger] stored@[i]),
            decreases values.len() - index,
        {
            let raw = values[index];
            let value = match raw {
                InitialProjectionValue::Extensive(bits) => match FiniteProjectionValue::new(semantics, bits) {
                    Ok(v) => ProjectionValue::Extensive(v),
                    Err(_) => {
                        return Err(ProjectionError::NonFiniteInitialValue { projection, index, bits });
                    },
                },
                InitialProjectionValue::Scalar(bits) => match FiniteProjectionValue::new(semantics, bits) {
                    Ok(v) => ProjectionValue::Scalar(v),
                    Err(_) => {
                        return Err(ProjectionError::NonFiniteInitialValue { projection, index, bits });
                    },
                },
                InitialProjectionValue::Truth(b) => ProjectionValue::Truth(b),
            };
            stored.push(value);
            index = index + 1;
        }
        Ok(InitialProjectorState { projection, values: stored })
    }

    /// The projection the state belongs to.
    pub fn projection(&self) -> (r: &ProjectionId)
        ensures
            *r == self.spec_projection(),
    {
        &self.projection
    }

    /// The stored values, in slot order.
    pub fn values(&self) -> (r: &[ProjectionValue])
        ensures
            r@ == self.spec_values(),
    {
        self.values.as_slice()
    }
}

/// Where a recurrence input is read from.
#[derive(Debug, Eq, PartialEq)]
pub enum RecurrenceInputSource {
    AuthoritativeFact(AuthoritativeFactSelector),
    PreviousState { index: usize, value_kind: ProjectionValueKind },
}

/// The projection value kind a recurrence input source yields.
pub open spec fn input_source_kind(source: RecurrenceInputSource) -> ProjectionValueKind {
    match source {
        RecurrenceInputSource::AuthoritativeFact(_) => ProjectionValueKind::Extensive,
        RecurrenceInputSource::PreviousState { value_kind, .. } => value_kind,
    }
}

impl RecurrenceInputSource {
    fn projection_kind(&self) -> (r: ProjectionValueKind)
        ensures
            r == input_source_kind(*self),
    {
        match self {
            RecurrenceInputSource::AuthoritativeFact(_) => ProjectionValueKind::Extensive,
            RecurrenceInputSource::PreviousState { value_kind, .. } => *value_kind,
        }
    }

    fn expression_kind(&self) -> (r: ExpressionValueKind)
        ensures
            r == spec_expression_kind(input_source_kind(*self)),
    {
        expression_kind(self.projection_kind())
    }
}

impl Clone for RecurrenceInputSource {
    fn clone(&self) -> (r: Self)
        ensures
            r == *self,
    {
        match self {
            RecurrenceInputSource::AuthoritativeFact(selector) => {
                RecurrenceInputSource::AuthoritativeFact(selector.clone())
            },
            RecurrenceInputSource::PreviousState { index, value_kind } => {
                RecurrenceInputSource::PreviousState { index: *index, value_kind: *value_kind }
            },
        }
    }
}

/// Binds a recurrence input reference to its source.
#[derive(Debug, Eq, PartialEq)]
pub struct RecurrenceInputBinding {
    reference: InputRef,
    source: RecurrenceInputSource,
}

impl RecurrenceInputBinding {
    /// The bound input reference.
    pub closed spec fn spec_reference(&self) -> InputRef {
        self.reference
    }

    /// The source of the input.
    pub closed spec fn spec_source(&self) -> RecurrenceInputSource {
        self.source
    }

    /// Binds `reference` to `source`.
    pub fn new(reference: InputRef, source: RecurrenceInputSource) -> (r: Self)
        ensures
            r.spec_reference() == reference,
            r.spec_source() == source,
    {
        RecurrenceInputBinding { reference, source }
    }

    /// The bound input reference.
    pub fn reference(&self) -> (r: &InputRef)
        ensures
            *r == self.spec_reference(),
    {
        &self.reference
    }

    /// The source of the input.
    pub fn input_source(&self) -> (r: &RecurrenceInputSource)
        ensures
            *r == self.spec_source(),
    {
        &self.source
    }
}

impl Clone for RecurrenceInputBinding {
    fn clone(&self) -> (r: Self)
        ensures
            r == *self,
    {
        RecurrenceInputBinding { reference: self.reference.clone(), source: self.source.clone() }
    }
}

impl Keyed for RecurrenceInputBinding {
    open spec fn key(&self) -> Key {
        seq![self.spec_reference()@.0]
    }

    fn compare_keys(&self, other: &Self) -> (r: KeyOrder) {
        self.reference.compare_keys(&other.reference)
    }
}

/// A projection that reads its source a fixed positive number of steps back.
#[derive(Debug, Eq, PartialEq)]
pub struct BoundedLagSpec {
    rule_ir: RuleIrVersion,
    semantics: NumericalSemanticsVersion,
    id: ProjectionId,
    source: ProjectionSource,
    steps: usize,
}

impl BoundedLagSpec {
    #[verifier::type_invariant]
    closed spec fn positive(self) -> bool {
        self.steps > 0
    }

    /// The identity of the projection.
    pub closed spec fn spec_id(&self) -> ProjectionId {
        self.id
    }

    /// The rule IR version.
    pub closed spec fn spec_rule_ir(&self) -> RuleIrVersion {
        self.rule_ir
    }

    /// The numerical semantics.
    pub closed spec fn spec_semantics(&self) -> NumericalSemanticsVersion {
        self.semantics
    }

    /// The source read.
    pub closed spec fn spec_source(&self) -> ProjectionSource {
        self.source
    }

    /// The lag in steps.
    pub closed spec fn spec_steps(&self) -> usize {
        self.steps
    }

    /// Constructs a bounded-lag specification; a lag of zero steps is rejected.
    pub fn new(
        rule_ir: RuleIrVersion,
        semantics: NumericalSemanticsVersion,
        id: ProjectionId,
        source: ProjectionSource,
        steps: usize,
    ) -> (r: Result<Self, ProjectionError>)
        ensures
            steps == 0 ==> r == Err::<Self, ProjectionError>(
                ProjectionError::NonPositiveBound {
                    projection: id,
                    bound: ProjectionBound::BoundedLagSteps,
                    attempted: 0,
                },
            ),
            steps > 0 ==> r is Ok && r->Ok_0.spec_id() == id && r->Ok_0.spec_rule_ir() == rule_ir
                && r->Ok_0.spec_semantics() == semantics && r->Ok_0.spec_source() == source
                && r->Ok_0.spec_steps() == steps,
    {
        if steps == 0 {
            return Err(
                ProjectionError::NonPositiveBound {
                    projection: id,
                    bound: ProjectionBound::BoundedLagSteps,
                    attempted: steps,
                },
            );
        }
        Ok(BoundedLagSpec { rule_ir, semantics, id, source, steps })
    }

    /// The identity of the projection.
    pub fn id(&self) -> (r: &ProjectionId)
        ensures
            *r == self.spec_id(),
    {
        &self.id
    }

    /// The rule IR version.
    pub fn rule_ir_version(&self) -> (r: RuleIrVersion)
        ensures
            r == self.spec_rule_ir(),
    {
        self.rule_ir
    }

    /// The numerical semantics.
    pub fn numerical_semantics_version(&self) -> (r: NumericalSemanticsVersion)
        ensures
            r == self.spec_semantics(),
    {
        self.semantics
    }

    /// The source read.
    pub fn source(&self) -> (r: &ProjectionSource)
        ensures
            *r == self.spec_source(),
    {
        &self.source
    }

    /// The lag in steps (positive).
    pub fn steps(&self) -> (r: usize)
        ensures
            r == self.spec_steps(),
            r > 0,
    {
        proof {
            use_type_invariant(self);
        }
        self.steps
    }

    /// The value kind: that of the source.
    pub fn value_kind(&self) -> (r: ProjectionValueKind)
        ensures
            r == source_kind(self.spec_source()),
    {
        self.source.value_kind()
    }
}

impl Clone for BoundedLagSpec {
    fn clone(&self) -> (r: Self)
        ensures
            r == *self,
    {
        proof {
            use_type_invariant(self);
        }
        BoundedLagSpec {
            rule_ir: self.rule_ir,
            semantics: self.semantics,
            id: self.id.clone(),
            source: self.source.clone(),
            steps: self.steps,
        }
    }
}

/// A projection that aggregates a positive window of its source's most recent values.
#[derive(Debug, Eq, PartialEq)]
pub struct OrderedRollingAggregateSpec {
    rule_ir: RuleIrVersion,
    semantics: NumericalSemanticsVersion,
    id: ProjectionId,
    source: ProjectionSource,
    window: usize,
    aggregate: RollingAggregate,
}

impl OrderedRollingAggregateSpec {
    #[verifier::type_invariant]
    closed spec fn positive(self) -> bool {
        self.window > 0
    }

    /// The identity of the projection.
    pub closed spec fn spec_id(&self) -> ProjectionId {
        self.id
    }

    /// The rule IR version.
    pub closed spec fn spec_rule_ir(&self) -> RuleIrVersion {
        self.rule_ir
    }

    /// The numerical semantics.
    pub closed spec fn spec_semantics(&self) -> NumericalSemanticsVersion {
        self.semantics
    }

    /// The source read.
    pub closed spec fn spec_source(&self) -> ProjectionSource {
        self.source
    }

    /// The window length in steps.
    pub closed spec fn spec_window(&self) -> usize {
        self.window
    }

    /// The aggregate taken over the window.
    pub closed spec fn spec_aggregate(&self) -> RollingAggregate {
        self.aggregate
    }

    /// Constructs an ordered rolling-aggregate specification; an empty window is rejected.
    pub fn new(
        rule_ir: RuleIrVersion,
        semantics: NumericalSemanticsVersion,
        id: ProjectionId,
        source: ProjectionSource,
        window: usize,
        aggregate: RollingAggregate,
    ) -> (r: Result<Self, ProjectionError>)
        ensures
            window == 0 ==> r == Err::<Self, ProjectionError>(
                ProjectionError::NonPositiveBound {
                    projection: id,
                    bound: ProjectionBound::RollingWindow,
                    attempted: 0,
                },
            ),
            window > 0 ==> r is Ok && r->Ok_0.spec_id() == id && r->Ok_0.spec_rule_ir() == rule_ir
                && r->Ok_0.spec_semantics() == semantics && r->Ok_0.spec_source() == source
                && r->Ok_0.spec_window() == window && r->Ok_0.spec_aggregate() == aggregate,
    {
        if window == 0 {
            return Err(
                ProjectionError::NonPositiveBound {
                    projection: id,
                    bound: ProjectionBound::RollingWindow,
                    attempted: window,
                },
            );
        }
        Ok(OrderedRollingAggregateSpec { rule_ir, semantics, id, source, window, aggregate })
    }

    /// The identity of the projection.
    pub fn id(&self) -> (r: &ProjectionId)
        ensures
            *r == self.spec_id(),
    {
        &self.id
    }

    /// The rule IR version.
    pub fn rule_ir_version(&self) -> (r: RuleIrVersion)
        ensures
            r == self.spec_rule_ir(),
    {
        self.rule_ir
    }

    /// The numerical semantics.
    pub fn numerical_semantics_version(&self) -> (r: NumericalSemanticsVersion)
        ensures
            r == self.spec_semantics(),
    {
        self.semantics
    }

    /// The source read.
    pub fn source(&self) -> (r: &ProjectionSource)
        ensures
            *r == self.spec_source(),
    {
        &self.source
    }

    /// The window length in steps (positive).
    pub fn window(&self) -> (r: usize)
        ensures
            r == self.spec_window(),
            r > 0,
    {
        proof {
            use_type_invariant(self);
        }
        self.window
    }

    /// The aggregate taken over the window.
    pub fn aggregate(&self) -> (r: RollingAggregate)
        ensures
            r == self.spec_aggregate(),
    {
        self.aggregate
    }

    /// The value kind: that of the source.
    pub fn value_kind(&self) -> (r: ProjectionValueKind)
        ensures
            r == source_kind(self.spec_source()),
    {
        self.source.value_kind()
    }
}

impl Clone for OrderedRollingAggregateSpec {
    fn clone(&self) -> (r: Self)
        ensures
            r == *self,
    {
        proof {
            use_type_invariant(self);
        }
        OrderedRollingAggregateSpec {
            rule_ir: self.rule_ir,
            semantics: self.semantics,
            id: self.id.clone(),
            source: self.source.clone(),
            window: self.window,
            aggregate: self.aggregate,
        }
    }
}

/// The error a finite recurrence reports for one leaf of an update, if any: an input must be
/// bound with a matching kind, a parameter declared with a matching kind, and forcings and table
/// lookups are not allowed.
pub open spec fn leaf_error(
    projection: ProjectionId,
    leaf: RuleNode,
    inputs: Seq<RecurrenceInputBinding>,
    parameters: Seq<ParameterRef>,
) -> Option<ProjectionError> {
    match leaf {
        RuleNode::Input(reference) => match member_with_key(inputs, seq![reference@.0]) {
            None => Some(
                ProjectionError::MissingInputBinding { projection, input: reference.spec_id() },
            ),
            Some(binding) => {
                let actual = spec_expression_kind(input_source_kind(binding.spec_source()));
                if reference@.1 != actual {
                    Some(
                        ProjectionError::InputBindingKind {
                            projection,
                            input: reference.spec_id(),
                            expected: reference@.1,
                            actual,
                        },
                    )
                } else {
                    None
                }
            },
        },
        RuleNode::Parameter(reference) => match member_with_key(parameters, seq![reference@.0]) {
            None => Some(
                ProjectionError::MissingParameterDeclaration {
                    projection,
                    parameter: reference.spec_id(),
                },
            ),
            Some(declaration) => if reference@.1 != declaration@.1 {
                Some(
                    ProjectionError::ParameterDeclarationKind {
                        projection,
                        parameter: reference.spec_id(),
                        expected: reference@.1,
                        actual: declaration@.1,
                    },
                )
            } else {
                None
            },
        },
        RuleNode::Forcing(_) => Some(
            ProjectionError::ForbiddenRecurrenceLeaf {
                projection,
                leaf: ForbiddenRecurrenceLeaf::Forcing,
            },
        ),
        RuleNode::InterpolatedTable { .. } => Some(
            ProjectionError::ForbiddenRecurrenceLeaf {
                projection,
                leaf: ForbiddenRecurrenceLeaf::InterpolatedTable,
            },
        ),
        _ => None,
    }
}

/// The leaf errors of a sequence of leaves, in order.
pub open spec fn leaf_errors(
    projection: ProjectionId,
    leaves: Seq<RuleNode>,
    inputs: Seq<RecurrenceInputBinding>,
    parameters: Seq<ParameterRef>,
) -> Seq<Option<ProjectionError>> {
    leaves.map_values(|leaf: RuleNode| leaf_error(projection, leaf, inputs, parameters))
}

/// The first error of a sequence of checks.
pub open spec fn first_error(checks: Seq<Option<ProjectionError>>) -> Option<ProjectionError>
    decreases checks.len(),
{
    if checks.len() == 0 {
        None
    } else if checks[0] is Some {
        checks[0]
    } else {
        first_error(checks.drop_first())
    }
}

/// The projection references among a sequence of leaves, in order.
pub open spec fn projection_leaves(leaves: Seq<RuleNode>) -> Seq<ProjectionRef>
    decreases leaves.len(),
{
    if leaves.len() == 0 {
        seq![]
    } else {
        let rest = projection_leaves(leaves.drop_last());
        match leaves.last() {
            RuleNode::Projection(reference) => rest.push(reference),
            _ => rest,
        }
    }
}

/// Some leaf reads the input with identity `id`.
pub open spec fn reads_input(leaves: Seq<RuleNode>, id: Seq<char>) -> bool {
    exists|k: int| 0 <= k < leaves.len() && #[trigger] input_leaf(leaves[k], id)
}

/// The leaf reads the input with identity `id`.
pub open spec fn input_leaf(leaf: RuleNode, id: Seq<char>) -> bool {
    leaf matches RuleNode::Input(reference) && reference@.0 == id
}

/// Some leaf reads the parameter with identity `id`.
pub open spec fn reads_parameter(leaves: Seq<RuleNode>, id: Seq<char>) -> bool {
    exists|k: int| 0 <= k < leaves.len() && #[trigger] parameter_leaf(leaves[k], id)
}

/// The leaf reads the parameter with identity `id`.
pub open spec fn parameter_leaf(leaf: RuleNode, id: Seq<char>) -> bool {
    leaf matches RuleNode::Parameter(reference) && reference@.0 == id
}

proof fn lemma_first_error_append(a: Seq<Option<ProjectionError>>, b: Seq<Option<ProjectionError>>)
    ensures
        first_error(a + b) == if first_error(a) is Some {
            first_error(a)
        } else {
            first_error(b)
        },
    decreases a.len(),
{
    if a.len() == 0 {
        assert(a + b =~= b);
    } else {
        assert((a + b)[0] == a[0]);
        assert((a + b).drop_first() =~= a.drop_first() + b);
        lemma_first_error_append(a.drop_first(), b);
    }
}

proof fn lemma_projection_leaves_append(a: Seq<RuleNode>, b: Seq<RuleNode>)
    ensures
        projection_leaves(a + b) == projection_leaves(a) + projection_leaves(b),
    decreases b.len(),
{
    if b.len() == 0 {
        assert(a + b =~= a);
        assert(projection_leaves(a) + projection_leaves(b) =~= projection_leaves(a));
    } else {
        assert((a + b).drop_last() =~= a + b.drop_last());
        assert((a + b).last() == b.last());
        lemma_projection_leaves_append(a, b.drop_last());
        match b.last() {
            RuleNode::Projection(reference) => {
                assert(projection_leaves(a) + projection_leaves(b) =~= (projection_leaves(a)
                    + projection_leaves(b.drop_last())).push(reference));
            },
            _ => {},
        }
    }
}

proof fn lemma_leaves_append(
    projection: ProjectionId,
    a: Seq<RuleNode>,
    b: Seq<RuleNode>,
    inputs: Seq<RecurrenceInputBinding>,
    parameters: Seq<ParameterRef>,
)
    ensures
        leaf_errors(projection, a + b, inputs, parameters) == leaf_errors(
            projection,
            a,
            inputs,
            parameters,
        ) + leaf_errors(projection, b, inputs, parameters),
        projection_leaves(a + b) == projection_leaves(a) + projection_leaves(b),
        forall|id: Seq<char>| reads_input(a + b, id) <==> reads_input(a, id) || reads_input(b, id),
        forall|id: Seq<char>|
            reads_parameter(a + b, id) <==> reads_parameter(a, id) || reads_parameter(b, id),
{
    assert(leaf_errors(projection, a + b, inputs, parameters) =~= leaf_errors(
        projection,
        a,
        inputs,
        parameters,
    ) + leaf_errors(projection, b, inputs, parameters));
    lemma_projection_leaves_append(a, b);
    assert forall|id: Seq<char>| reads_input(a + b, id) <==> reads_input(a, id) || reads_input(b, id) by {
        if reads_input(a + b, id) {
            let k = choose|k: int| 0 <= k < (a + b).len() && #[trigger] input_leaf((a + b)[k], id);
            if k >= a.len() {
                assert(input_leaf(b[k - a.len()], id));
            } else {
                assert(input_leaf(a[k], id));
            }
        }
        if reads_input(a, id) {
            let k = choose|k: int| 0 <= k < a.len() && #[trigger] input_leaf(a[k], id);
            assert(input_leaf((a + b)[k], id));
        }
        if reads_input(b, id) {
            let k = choose|k: int| 0 <= k < b.len() && #[trigger] input_leaf(b[k], id);
            assert(input_leaf((a + b)[k + a.len()], id));
        }
    }
    assert forall|id: Seq<char>|
        reads_parameter(a + b, id) <==> reads_parameter(a, id) || reads_parameter(b, id) by {
        if reads_parameter(a + b, id) {
            let k = choose|k: int|
                0 <= k < (a + b).len() && #[trigger] parameter_leaf((a + b)[k], id);
            if k >= a.len() {
                assert(parameter_leaf(b[k - a.len()], id));
            } else {
                assert(parameter_leaf(a[k], id));
            }
        }
        if reads_parameter(a, id) {
            let k = choose|k: int| 0 <= k < a.len() && #[trigger] parameter_leaf(a[k], id);
            assert(parameter_leaf((a + b)[k], id));
        }
        if reads_parameter(b, id) {
            let k = choose|k: int| 0 <= k < b.len() && #[trigger] parameter_leaf(b[k], id);
            assert(parameter_leaf((a + b)[k + a.len()], id));
        }
    }
}

proof fn lemma_single_leaf(
    projection: ProjectionId,
    leaf: RuleNode,
    inputs: Seq<RecurrenceInputBinding>,
    parameters: Seq<ParameterRef>,
)
    ensures
        first_error(leaf_errors(projection, seq![leaf], inputs, parameters)) == leaf_error(
            projection,
            leaf,
            inputs,
            parameters,
        ),
        forall|id: Seq<char>| reads_input(seq![leaf], id) <==> input_leaf(leaf, id),
        forall|id: Seq<char>| reads_parameter(seq![leaf], id) <==> parameter_leaf(leaf, id),
        projection_leaves(seq![leaf]) == match leaf {
            RuleNode::Projection(reference) => seq![reference],
            _ => Seq::<ProjectionRef>::empty(),
        },
{
    let errors = leaf_errors(projection, seq![leaf], inputs, parameters);
    assert(errors =~= seq![leaf_error(projection, leaf, inputs, parameters)]);
    assert(errors.drop_first() =~= Seq::<Option<ProjectionError>>::empty());
    assert(first_error(errors.drop_first()) is None);
    assert(seq![leaf].drop_last() =~= Seq::<RuleNode>::empty());
    assert(projection_leaves(seq![leaf].drop_last()) =~= Seq::<ProjectionRef>::empty());
    assert(seq![leaf][0] == leaf);
    assert forall|id: Seq<char>| reads_input(seq![leaf], id) <==> input_leaf(leaf, id) by {
        if input_leaf(leaf, id) {
            assert(input_leaf(seq![leaf][0], id));
        }
    }
    assert forall|id: Seq<char>| reads_parameter(seq![leaf], id) <==> parameter_leaf(leaf, id) by {
        if parameter_leaf(leaf, id) {
            assert(parameter_leaf(seq![leaf][0], id));
        }
    }
    match leaf {
        RuleNode::Projection(reference) => {
            assert(Seq::<ProjectionRef>::empty().push(reference) =~= seq![reference]);
        },
        _ => {},
    }
}

/// The position of the binding for input identity `id`, if one is declared.
fn find_binding(inputs: &Vec<RecurrenceInputBinding>, id: &InputId) -> (r: Option<usize>)
    ensures
        r matches Some(j) ==> j < inputs@.len() && inputs@[j as int].spec_reference()@.0 == id@,
        r is None ==> forall|q: int|
            0 <= q < inputs@.len() ==> (#[trigger] inputs@[q]).spec_reference()@.0 != id@,
{
    let mut j: usize = 0;
    while j < inputs.len()
        invariant
            j <= inputs@.len(),
            forall|q: int| 0 <= q < j ==> (#[trigger] inputs@[q]).spec_reference()@.0 != id@,
        decreases inputs.len() - j,
    {
        if inputs[j].reference.id() == id {
            return Some(j);
        }
        j = j + 1;
    }
    None
}

/// The position of the declaration for parameter identity `id`, if one is declared.
fn find_declaration(parameters: &Vec<ParameterRef>, id: &ParameterId) -> (r: Option<usize>)
    ensures
        r matches Some(j) ==> j < parameters@.len() && parameters@[j as int]@.0 == id@,
        r is None ==> forall|q: int| 0 <= q < parameters@.len() ==> (#[trigger] parameters@[q])@.0 != id@,
{
    let mut j: usize = 0;
    while j < parameters.len()
        invariant
            j <= parameters@.len(),
            forall|q: int| 0 <= q < j ==> (#[trigger] parameters@[q])@.0 != id@,
        decreases parameters.len() - j,
    {
        if parameters[j].id() == id {
            return Some(j);
        }
        j = j + 1;
    }
    None
}

/// Walks the leaves of an update in pre-order: each is checked against the declared input
/// bindings and parameters, the bindings and parameters read are marked, and projection
/// references are collected.
fn walk_update(
    projection: &ProjectionId,
    expr: &RuleExpr,
    inputs: &Vec<RecurrenceInputBinding>,
    parameters: &Vec<ParameterRef>,
    reached_inputs: &mut Vec<bool>,
    reached_parameters: &mut Vec<bool>,
    dependencies: &mut Vec<ProjectionRef>,
) -> (r: Result<(), ProjectionError>)
    requires
        keys_distinct(keys_of(inputs@)),
        keys_distinct(keys_of(parameters@)),
        old(reached_inputs)@.len() == inputs@.len(),
        old(reached_parameters)@.len() == parameters@.len(),
    ensures
        final(reached_inputs)@.len() == inputs@.len(),
        final(reached_parameters)@.len() == parameters@.len(),
        r matches Err(e) ==> first_error(
            leaf_errors(*projection, expr.leaves(), inputs@, parameters@),
        ) == Some(e),
        r is Ok ==> first_error(leaf_errors(*projection, expr.leaves(), inputs@, parameters@)) is None,
        r is Ok ==> forall|k: int|
            0 <= k < inputs@.len() ==> #[trigger] final(reached_inputs)@[k] == (old(
                reached_inputs,
            )@[k] || reads_input(expr.leaves(), inputs@[k].spec_reference()@.0)),
        r is Ok ==> forall|k: int|
            0 <= k < parameters@.len() ==> #[trigger] final(reached_parameters)@[k] == (old(
                reached_parameters,
            )@[k] || reads_parameter(expr.leaves(), parameters@[k]@.0)),
        r is Ok ==> final(dependencies)@ == old(dependencies)@ + projection_leaves(expr.leaves()),
    decreases expr.leaves().len(),
{
    let ghost leaves = expr.leaves();
    let ghost node = expr.node();
    let ghost ins = inputs@;
    let ghost pars = parameters@;
    match expr.view() {
        RuleExprView::Input(reference) => {
            proof {
                assert(leaves == seq![node]);
                lemma_single_leaf(*projection, node, ins, pars);
            }
            match find_binding(inputs, reference.id()) {
                None => {
                    proof {
                        assert forall|q: int| 0 <= q < ins.len() implies (#[trigger] ins[q]).key()
                            != seq![reference@.0] by {
                            assert(ins[q].spec_reference()@.0 != reference@.0);
                            assert(ins[q].key()[0] == ins[q].spec_reference()@.0);
                        }
                        lemma_member_with_key_none(ins, seq![reference@.0]);
                    }
                    return Err(
                        ProjectionError::MissingInputBinding {
                            projection: projection.clone(),
                            input: reference.id().clone(),
                        },
                    );
                },
                Some(j) => {
                    proof {
                        lemma_member_with_key_at(ins, j as int);
                        assert(ins[j as int].key() =~= seq![reference@.0]);
                    }
                    let actual = inputs[j].source.expression_kind();
                    if reference.value_kind() != actual {
                        return Err(
                            ProjectionError::InputBindingKind {
                                projection: projection.clone(),
                                input: reference.id().clone(),
                                expected: reference.value_kind(),
                                actual,
                            },
                        );
                    }
                    let ghost before = reached_inputs@;
                    reached_inputs.set(j, true);
                    proof {
                        assert(node == RuleNode::Input(*reference));
                        assert forall|k: int| 0 <= k < ins.len() implies #[trigger] reached_inputs@[k]
                            == (before[k] || reads_input(leaves, ins[k].spec_reference()@.0)) by {
                            assert(reads_input(leaves, ins[k].spec_reference()@.0) == input_leaf(
                                node,
                                ins[k].spec_reference()@.0,
                            ));
                            if k != j {
                                assert(keys_of(ins)[k] != keys_of(ins)[j as int]);
                                assert(ins[k].key() =~= seq![ins[k].spec_reference()@.0]);
                            }
                        }
                    }
                },
            }
            Ok(())
        },
        RuleExprView::Parameter(reference) => {
            proof {
                assert(leaves == seq![node]);
                lemma_single_leaf(*projection, node, ins, pars);
            }
            match find_declaration(parameters, reference.id()) {
                None => {
                    proof {
                        assert forall|q: int| 0 <= q < pars.len() implies (#[trigger] pars[q]).key()
                            != seq![reference@.0] by {
                            assert(pars[q].key()[0] == pars[q]@.0);
                        }
                        lemma_member_with_key_none(pars, seq![reference@.0]);
                    }
                    return Err(
                        ProjectionError::MissingParameterDeclaration {
                            projection: projection.clone(),
                            parameter: reference.id().clone(),
                        },
                    );
                },
                Some(j) => {
                    proof {
                        lemma_member_with_key_at(pars, j as int);
                        assert(pars[j as int].key() =~= seq![reference@.0]);
                    }
                    let actual = parameters[j].value_kind();
                    if reference.value_kind() != actual {
                        return Err(
                            ProjectionError::ParameterDeclarationKind {
                                projection: projection.clone(),
                                parameter: reference.id().clone(),
                                expected: reference.value_kind(),
                                actual,
                            },
                        );
                    }
                    let ghost before = reached_parameters@;
                    reached_parameters.set(j, true);
                    proof {
                        assert(node == RuleNode::Parameter(*reference));
                        assert forall|k: int| 0 <= k < pars.len() implies #[trigger] reached_parameters@[k]
                            == (before[k] || reads_parameter(leaves, pars[k]@.0)) by {
                            assert(reads_parameter(leaves, pars[k]@.0) == parameter_leaf(
                                node,
                                pars[k]@.0,
                            ));
                            if k != j {
                                assert(keys_of(pars)[k] != keys_of(pars)[j as int]);
                                assert(pars[k].key() =~= seq![pars[k]@.0]);
                            }
                        }
                    }
                },
            }
            Ok(())
        },
        RuleExprView::Forcing(_) => {
            proof {
                assert(leaves == seq![node]);
                lemma_single_leaf(*projection, node, ins, pars);
            }
            Err(
                ProjectionError::ForbiddenRecurrenceLeaf {
                    projection: projection.clone(),
                    leaf: ForbiddenRecurrenceLeaf::Forcing,
                },
            )
        },
        RuleExprView::InterpolatedTable { .. } => {
            proof {
                assert(leaves == seq![node]);
                lemma_single_leaf(*projection, node, ins, pars);
            }
            Err(
                ProjectionError::ForbiddenRecurrenceLeaf {
                    projection: projection.clone(),
                    leaf: ForbiddenRecurrenceLeaf::InterpolatedTable,
                },
            )
        },
        RuleExprView::Projection(reference) => {
            proof {
                assert(leaves == seq![node]);
                lemma_single_leaf(*projection, node, ins, pars);
            }
            dependencies.push(reference.clone());
            Ok(())
        },
        RuleExprView::Literal(_) => {
            proof {
                assert(leaves == seq![node]);
                lemma_single_leaf(*projection, node, ins, pars);
                assert(dependencies@ =~= dependencies@ + Seq::<ProjectionRef>::empty());
            }
            Ok(())
        },
        RuleExprView::Add { lhs, rhs }
        | RuleExprView::Subtract { lhs, rhs }
        | RuleExprView::Multiply { lhs, rhs }
        | RuleExprView::Divide { lhs, rhs }
        | RuleExprView::Minimum { lhs, rhs }
        | RuleExprView::Maximum { lhs, rhs }
        | RuleExprView::Comparison { lhs, rhs, .. } => {
            proof {
                assert(leaves == lhs.leaves() + rhs.leaves());
                lemma_leaves_nonempty(*lhs);
                lemma_leaves_nonempty(*rhs);
            }
            walk_pair(
                projection,
                lhs,
                rhs,
                inputs,
                parameters,
                reached_inputs,
                reached_parameters,
                dependencies,
            )
        },
        RuleExprView::Clamp { value: a, lower: b, upper: c }
        | RuleExprView::Select { condition: a, when_true: b, when_false: c } => {
            proof {
                assert(leaves == a.leaves() + b.leaves() + c.leaves());
                lemma_leaves_nonempty(*a);
                lemma_leaves_nonempty(*b);
                lemma_leaves_nonempty(*c);
            }
            let ghost ri = reached_inputs@;
            let ghost rp = reached_parameters@;
            let ghost deps = dependencies@;
            let first = walk_pair(
                projection,
                a,
                b,
                inputs,
                parameters,
                reached_inputs,
                reached_parameters,
                dependencies,
            );
            proof {
                lemma_leaves_append(*projection, a.leaves() + b.leaves(), c.leaves(), ins, pars);
                lemma_first_error_append(
                    leaf_errors(*projection, a.leaves() + b.leaves(), ins, pars),
                    leaf_errors(*projection, c.leaves(), ins, pars),
                );
            }
            match first {
                Err(e) => {
                    return Err(e);
                },
                Ok(()) => {},
            }
            let ghost ri1 = reached_inputs@;
            let ghost rp1 = reached_parameters@;
            let ghost deps1 = dependencies@;
            let last = walk_update(
                projection,
                c,
                inputs,
                parameters,
                reached_inputs,
                reached_parameters,
                dependencies,
            );
            match last {
                Err(e) => {
                    return Err(e);
                },
                Ok(()) => {},
            }
            proof {
                assert(dependencies@ =~= deps + projection_leaves(leaves));
                assert forall|k: int| 0 <= k < ins.len() implies #[trigger] reached_inputs@[k] == (
                ri[k] || reads_input(leaves, ins[k].spec_reference()@.0)) by {
                    assert(ri1[k] == (ri[k] || reads_input(
                        a.leaves() + b.leaves(),
                        ins[k].spec_reference()@.0,
                    )));
                }
                assert forall|k: int| 0 <= k < pars.len() implies #[trigger] reached_parameters@[k]
                    == (rp[k] || reads_parameter(leaves, pars[k]@.0)) by {
                    assert(rp1[k] == (rp[k] || reads_parameter(a.leaves() + b.leaves(), pars[k]@.0)));
                }
            }
            Ok(())
        },
    }
}

/// Walks two sub-expressions in turn, as `walk_update` walks one.
fn walk_pair(
    projection: &ProjectionId,
    lhs: &RuleExpr,
    rhs: &RuleExpr,
    inputs: &Vec<RecurrenceInputBinding>,
    parameters: &Vec<ParameterRef>,
    reached_inputs: &mut Vec<bool>,
    reached_parameters: &mut Vec<bool>,
    dependencies: &mut Vec<ProjectionRef>,
) -> (r: Result<(), ProjectionError>)
    requires
        keys_distinct(keys_of(inputs@)),
        keys_distinct(keys_of(parameters@)),
        old(reached_inputs)@.len() == inputs@.len(),
        old(reached_parameters)@.len() == parameters@.len(),
    ensures
        final(reached_inputs)@.len() == inputs@.len(),
        final(reached_parameters)@.len() == parameters@.len(),
        r matches Err(e) ==> first_error(
            leaf_errors(*projection, lhs.leaves() + rhs.leaves(), inputs@, parameters@),
        ) == Some(e),
        r is Ok ==> first_error(
            leaf_errors(*projection, lhs.leaves() + rhs.leaves(), inputs@, parameters@),
        ) is None,
        r is Ok ==> forall|k: int|
            0 <= k < inputs@.len() ==> #[trigger] final(reached_inputs)@[k] == (old(
                reached_inputs,
            )@[k] || reads_input(lhs.leaves() + rhs.leaves(), inputs@[k].spec_reference()@.0)),
        r is Ok ==> forall|k: int|
            0 <= k < parameters@.len() ==> #[trigger] final(reached_parameters)@[k] == (old(
                reached_parameters,
            )@[k] || reads_parameter(lhs.leaves() + rhs.leaves(), parameters@[k]@.0)),
        r is Ok ==> final(dependencies)@ == old(dependencies)@ + projection_leaves(
            lhs.leaves() + rhs.leaves(),
        ),
    decreases lhs.leaves().len() + rhs.leaves().len(), 0int,
{
    let ghost ins = inputs@;
    let ghost pars = parameters@;
    proof {
        lemma_leaves_nonempty(*lhs);
        lemma_leaves_nonempty(*rhs);
        lemma_leaves_append(*projection, lhs.leaves(), rhs.leaves(), ins, pars);
        lemma_first_error_append(
            leaf_errors(*projection, lhs.leaves(), ins, pars),
            leaf_errors(*projection, rhs.leaves(), ins, pars),
        );
    }
    let ghost ri = reached_inputs@;
    let ghost rp = reached_parameters@;
    let ghost deps = dependencies@;
    match walk_update(projection, lhs, inputs, parameters, reached_inputs, reached_parameters, dependencies) {
        Err(e) => {
            return Err(e);
        },
        Ok(()) => {},
    }
    let ghost ri1 = reached_inputs@;
    let ghost rp1 = reached_parameters@;
    let ghost deps1 = dependencies@;
    match walk_update(projection, rhs, inputs, parameters, reached_inputs, reached_parameters, dependencies) {
        Err(e) => {
            return Err(e);
        },
        Ok(()) => {},
    }
    proof {
        assert(dependencies@ =~= deps + projection_leaves(lhs.leaves() + rhs.leaves()));
        assert forall|k: int| 0 <= k < ins.len() implies #[trigger] reached_inputs@[k] == (ri[k]
            || reads_input(lhs.leaves() + rhs.leaves(), ins[k].spec_reference()@.0)) by {
            assert(ri1[k] == (ri[k] || reads_input(lhs.leaves(), ins[k].spec_reference()@.0)));
        }
        assert forall|k: int| 0 <= k < pars.len() implies #[trigger] reached_parameters@[k] == (
        rp[k] || reads_parameter(lhs.leaves() + rhs.leaves(), pars[k]@.0)) by {
            assert(rp1[k] == (rp[k] || reads_parameter(lhs.leaves(), pars[k]@.0)));
        }
    }
    Ok(())
}

/// The error a recurrence reports when update `index`, for a slot of kind `expected`, evaluates
/// to another kind.
pub open spec fn update_kind_error(
    projection: ProjectionId,
    expected: ProjectionValueKind,
    update: RuleExpr,
    index: int,
) -> Option<ProjectionError> {
    if spec_expression_kind(expected) != update.kind() {
        Some(
            ProjectionError::RecurrenceUpdateKind {
                projection,
                index: index as usize,
                expected,
                actual: update.kind(),
            },
        )
    } else {
        None
    }
}

/// The checks a recurrence makes over its updates, in order: for each update its result kind,
/// then its leaves in pre-order.
pub open spec fn recurrence_checks(
    projection: ProjectionId,
    kinds: Seq<ProjectionValueKind>,
    updates: Seq<RuleExpr>,
    inputs: Seq<RecurrenceInputBinding>,
    parameters: Seq<ParameterRef>,
) -> Seq<Option<ProjectionError>>
    decreases updates.len(),
{
    if updates.len() == 0 {
        seq![]
    } else {
        let i = updates.len() - 1;
        recurrence_checks(projection, kinds, updates.drop_last(), inputs, parameters) + seq![
            update_kind_error(projection, kinds[i], updates[i], i),
        ] + leaf_errors(projection, updates[i].leaves(), inputs, parameters)
    }
}

/// The leaves of all updates, update by update, each in pre-order.
pub open spec fn all_leaves(updates: Seq<RuleExpr>) -> Seq<RuleNode>
    decreases updates.len(),
{
    if updates.len() == 0 {
        seq![]
    } else {
        all_leaves(updates.drop_last()) + updates.last().leaves()
    }
}

/// The error a prior-state binding reports when its slot is outside the state or of another
/// kind.
pub open spec fn previous_state_error(
    projection: ProjectionId,
    kinds: Seq<ProjectionValueKind>,
    binding: RecurrenceInputBinding,
) -> Option<ProjectionError> {
    match binding.spec_source() {
        RecurrenceInputSource::PreviousState { index, value_kind } => if index >= kinds.len() {
            Some(
                ProjectionError::PreviousStateIndex {
                    projection,
                    input: binding.spec_reference().spec_id(),
                    state_len: kinds.len() as usize,
                    attempted: index,
                },
            )
        } else if kinds[index as int] != value_kind {
            Some(
                ProjectionError::PreviousStateKind {
                    projection,
                    input: binding.spec_reference().spec_id(),
                    index,
                    expected: kinds[index as int],
                    actual: value_kind,
                },
            )
        } else {
            None
        },
        _ => None,
    }
}

/// The state, update and output shape of a recurrence is admissible.
pub open spec fn recurrence_shape_valid(
    kinds: Seq<ProjectionValueKind>,
    updates: Seq<RuleExpr>,
    output_index: usize,
) -> bool {
    kinds.len() > 0 && updates.len() == kinds.len() && output_index < kinds.len()
}

/// Input bindings and parameter declarations are unique and prior-state bindings fit the state.
pub open spec fn recurrence_bindings_valid(
    projection: ProjectionId,
    kinds: Seq<ProjectionValueKind>,
    inputs: Seq<RecurrenceInputBinding>,
    parameters: Seq<ParameterRef>,
) -> bool {
    &&& keys_distinct(keys_of(inputs))
    &&& keys_distinct(keys_of(parameters))
    &&& forall|j: int|
        0 <= j < inputs.len() ==> (#[trigger] previous_state_error(projection, kinds, inputs[j])) is None
}

/// The binding is read by no leaf.
pub open spec fn input_unread(leaves: Seq<RuleNode>, binding: RecurrenceInputBinding) -> bool {
    !reads_input(leaves, binding.spec_reference()@.0)
}

/// The declaration is read by no leaf.
pub open spec fn parameter_unread(leaves: Seq<RuleNode>, parameter: ParameterRef) -> bool {
    !reads_parameter(leaves, parameter@.0)
}

proof fn lemma_checks_congruent(
    projection: ProjectionId,
    kinds: Seq<ProjectionValueKind>,
    updates: Seq<RuleExpr>,
    inputs: Seq<RecurrenceInputBinding>,
    parameters: Seq<ParameterRef>,
    inputs2: Seq<RecurrenceInputBinding>,
    parameters2: Seq<ParameterRef>,
)
    requires
        forall|k: Key| member_with_key(inputs, k) == member_with_key(inputs2, k),
        forall|k: Key| member_with_key(parameters, k) == member_with_key(parameters2, k),
    ensures
        recurrence_checks(projection, kinds, updates, inputs, parameters) == recurrence_checks(
            projection,
            kinds,
            updates,
            inputs2,
            parameters2,
        ),
    decreases updates.len(),
{
    if updates.len() > 0 {
        let i = updates.len() - 1;
        lemma_checks_congruent(
            projection,
            kinds,
            updates.drop_last(),
            inputs,
            parameters,
            inputs2,
            parameters2,
        );
        assert(leaf_errors(projection, updates[i].leaves(), inputs, parameters) =~= leaf_errors(
            projection,
            updates[i].leaves(),
            inputs2,
            parameters2,
        ));
    }
}

proof fn lemma_checks_prefix(
    projection: ProjectionId,
    kinds: Seq<ProjectionValueKind>,
    updates: Seq<RuleExpr>,
    inputs: Seq<RecurrenceInputBinding>,
    parameters: Seq<ParameterRef>,
    m: int,
)
    requires
        0 <= m <= updates.len(),
        first_error(recurrence_checks(projection, kinds, updates.take(m), inputs, parameters)) is Some,
    ensures
        first_error(recurrence_checks(projection, kinds, updates, inputs, parameters)) == first_error(
            recurrence_checks(projection, kinds, updates.take(m), inputs, parameters),
        ),
    decreases updates.len() - m,
{
    if m == updates.len() {
        assert(updates.take(m) =~= updates);
    } else {
        let shorter = updates.drop_last();
        assert(shorter.take(m) =~= updates.take(m));
        lemma_checks_prefix(projection, kinds, shorter, inputs, parameters, m);
        let i = updates.len() - 1;
        lemma_first_error_append(
            recurrence_checks(projection, kinds, shorter, inputs, parameters),
            seq![update_kind_error(projection, kinds[i], updates[i], i)],
        );
        lemma_first_error_append(
            recurrence_checks(projection, kinds, shorter, inputs, parameters) + seq![
                update_kind_error(projection, kinds[i], updates[i], i),
            ],
            leaf_errors(projection, updates[i].leaves(), inputs, parameters),
        );
    }
}

/// A closed finite recurrence: a state of typed slots, each updated by a rule expression over
/// bound inputs, declared parameters, literals and earlier projections.
#[derive(Debug, Eq, PartialEq)]
pub struct FiniteRecurrenceSpec {
    rule_ir: RuleIrVersion,
    semantics: NumericalSemanticsVersion,
    id: ProjectionId,
    state_kinds: Vec<ProjectionValueKind>,
    inputs: Vec<RecurrenceInputBinding>,
    parameters: Vec<ParameterRef>,
    updates: Vec<RuleExpr>,
    output_index: usize,
    dependencies: Vec<ProjectionRef>,
}

impl FiniteRecurrenceSpec {
    #[verifier::type_invariant]
    closed spec fn well_formed(self) -> bool {
        &&& recurrence_shape_valid(self.state_kinds@, self.updates@, self.output_index)
        &&& keys_sorted(keys_of(self.inputs@))
        &&& keys_sorted(keys_of(self.parameters@))
    }

    /// The identity of the projection.
    pub closed spec fn spec_id(&self) -> ProjectionId {
        self.id
    }

    /// The rule IR version.
    pub closed spec fn spec_rule_ir(&self) -> RuleIrVersion {
        self.rule_ir
    }

    /// The numerical semantics.
    pub closed spec fn spec_semantics(&self) -> NumericalSemanticsVersion {
        self.semantics
    }

    /// The kinds of the state slots.
    pub closed spec fn spec_state_kinds(&self) -> Seq<ProjectionValueKind> {
        self.state_kinds@
    }

    /// The input bindings, in canonical input order.
    pub closed spec fn spec_inputs(&self) -> Seq<RecurrenceInputBinding> {
        self.inputs@
    }

    /// The parameter declarations, in canonical parameter order.
    pub closed spec fn spec_parameters(&self) -> Seq<ParameterRef> {
        self.parameters@
    }

    /// The slot updates, in slot order.
    pub closed spec fn spec_updates(&self) -> Seq<RuleExpr> {
        self.updates@
    }

    /// The slot whose value the projection yields.
    pub closed spec fn spec_output_index(&self) -> usize {
        self.output_index
    }

    /// The projections the updates read, in update and pre-order.
    pub closed spec fn spec_dependencies(&self) -> Seq<ProjectionRef> {
        self.dependencies@
    }

    /// Constructs and validates a closed finite recurrence. The checks are made in this order,
    /// the first failure deciding: a non-empty state, one update per slot, an output slot inside
    /// the state, unique input bindings and parameter declarations (the least repeated identity
    /// is reported), prior-state bindings inside the state and of the slot's kind (the binding
    /// with the least input identity is reported), then update by update its result kind and
    /// its leaves in pre-order, then that every binding and every declaration is read (the least
    /// unread identity is reported).
    #[verifier::loop_isolation(false)]
    pub fn new(
        rule_ir: RuleIrVersion,
        semantics: NumericalSemanticsVersion,
        id: ProjectionId,
        state_kinds: Vec<ProjectionValueKind>,
        inputs: Vec<RecurrenceInputBinding>,
        parameters: Vec<ParameterRef>,
        updates: Vec<RuleExpr>,
        output_index: usize,
    ) -> (r: Result<Self, ProjectionError>)
        ensures
            state_kinds@.len() == 0 ==> r == Err::<Self, ProjectionError>(
                ProjectionError::NonPositiveBound {
                    projection: id,
                    bound: ProjectionBound::RecurrenceStateSize,
                    attempted: 0,
                },
            ),
            state_kinds@.len() > 0 && updates@.len() != state_kinds@.len() ==> r == Err::<
                Self,
                ProjectionError,
            >(
                ProjectionError::RecurrenceUpdateCount {
                    projection: id,
                    expected: state_kinds@.len() as usize,
                    actual: updates@.len() as usize,
                },
            ),
            state_kinds@.len() > 0 && updates@.len() == state_kinds@.len() && output_index
                >= state_kinds@.len() ==> r == Err::<Self, ProjectionError>(
                ProjectionError::RecurrenceOutputIndex {
                    projection: id,
                    state_len: state_kinds@.len() as usize,
                    attempted: output_index,
                },
            ),
            recurrence_shape_valid(state_kinds@, updates@, output_index) && !keys_distinct(
                keys_of(inputs@),
            ) ==> {
                &&& r matches Err(ProjectionError::DuplicateInputBinding { projection, input })
                &&& projection == id
                &&& least_repeated_key(keys_of(inputs@), seq![input@])
            },
            recurrence_shape_valid(state_kinds@, updates@, output_index) && keys_distinct(
                keys_of(inputs@),
            ) && !keys_distinct(keys_of(parameters@)) ==> {
                &&& r matches Err(
                    ProjectionError::DuplicateParameterDeclaration { projection, parameter },
                )
                &&& projection == id
                &&& least_repeated_key(keys_of(parameters@), seq![parameter@])
            },
            recurrence_shape_valid(state_kinds@, updates@, output_index) && keys_distinct(
                keys_of(inputs@),
            ) && keys_distinct(keys_of(parameters@)) && !recurrence_bindings_valid(
                id,
                state_kinds@,
                inputs@,
                parameters@,
            ) ==> exists|b: RecurrenceInputBinding|
                least_where(
                    inputs@,
                    |x: RecurrenceInputBinding| previous_state_error(id, state_kinds@, x) is Some,
                    b,
                ) && r == Err::<Self, ProjectionError>(
                    previous_state_error(id, state_kinds@, b)->0,
                ),
            recurrence_shape_valid(state_kinds@, updates@, output_index) && recurrence_bindings_valid(
                id,
                state_kinds@,
                inputs@,
                parameters@,
            ) && first_error(
                recurrence_checks(id, state_kinds@, updates@, inputs@, parameters@),
            ) is Some ==> r == Err::<Self, ProjectionError>(
                first_error(recurrence_checks(id, state_kinds@, updates@, inputs@, parameters@))->0,
            ),
            recurrence_shape_valid(state_kinds@, updates@, output_index) && recurrence_bindings_valid(
                id,
                state_kinds@,
                inputs@,
                parameters@,
            ) && first_error(
                recurrence_checks(id, state_kinds@, updates@, inputs@, parameters@),
            ) is None && (exists|j: int|
                0 <= j < inputs@.len() && input_unread(all_leaves(updates@), #[trigger] inputs@[j]))
                ==> exists|b: RecurrenceInputBinding|
                least_where(
                    inputs@,
                    |x: RecurrenceInputBinding| input_unread(all_leaves(updates@), x),
                    b,
                ) && r == Err::<Self, ProjectionError>(
                    ProjectionError::MissingInputBinding {
                        projection: id,
                        input: b.spec_reference().spec_id(),
                    },
                ),
            recurrence_shape_valid(state_kinds@, updates@, output_index) && recurrence_bindings_valid(
                id,
                state_kinds@,
                inputs@,
                parameters@,
            ) && first_error(
                recurrence_checks(id, state_kinds@, updates@, inputs@, parameters@),
            ) is None && (forall|j: int|
                0 <= j < inputs@.len() ==> !input_unread(all_leaves(updates@), #[trigger] inputs@[j]))
                && (exists|j: int|
                0 <= j < parameters@.len() && parameter_unread(
                    all_leaves(updates@),
                    #[trigger] parameters@[j],
                )) ==> exists|p: ParameterRef|
                least_where(
                    parameters@,
                    |x: ParameterRef| parameter_unread(all_leaves(updates@), x),
                    p,
                ) && r == Err::<Self, ProjectionError>(
                    ProjectionError::MissingParameterDeclaration {
                        projection: id,
                        parameter: p.spec_id(),
                    },
                ),
            r is Ok <==> recurrence_shape_valid(state_kinds@, updates@, output_index)
                && recurrence_bindings_valid(id, state_kinds@, inputs@, parameters@) && first_error(
                recurrence_checks(id, state_kinds@, updates@, inputs@, parameters@),
            ) is None && (forall|j: int|
                0 <= j < inputs@.len() ==> !input_unread(all_leaves(updates@), #[trigger] inputs@[j]))
                && (forall|j: int|
                0 <= j < parameters@.len() ==> !parameter_unread(
                    all_leaves(updates@),
                    #[trigger] parameters@[j],
                )),
            r matches Ok(s) ==> {
                &&& s.spec_id() == id
                &&& s.spec_rule_ir() == rule_ir
                &&& s.spec_semantics() == semantics
                &&& s.spec_state_kinds() == state_kinds@
                &&& s.spec_updates() == updates@
                &&& s.spec_output_index() == output_index
                &&& keys_sorted(keys_of(s.spec_inputs()))
                &&& s.spec_inputs().to_multiset() == inputs@.to_multiset()
                &&& keys_sorted(keys_of(s.spec_parameters()))
                &&& s.spec_parameters().to_multiset() == parameters@.to_multiset()
                &&& s.spec_dependencies() == projection_leaves(all_leaves(updates@))
            },
    {
        if state_kinds.len() == 0 {
            return Err(
                ProjectionError::NonPositiveBound {
                    projection: id,
                    bound: ProjectionBound::RecurrenceStateSize,
                    attempted: 0,
                },
            );
        }
        if updates.len() != state_kinds.len() {
            return Err(
                ProjectionError::RecurrenceUpdateCount {
                    projection: id,
                    expected: state_kinds.len(),
                    actual: updates.len(),
                },
            );
        }
        if output_index >= state_kinds.len() {
            return Err(
                ProjectionError::RecurrenceOutputIndex {
                    projection: id,
                    state_len: state_kinds.len(),
                    attempted: output_index,
                },
            );
        }
        match find_least_repeated(&inputs) {
            Some(b) => {
                proof {
                    assert(keys_of(inputs@)[b as int] =~= seq![inputs@[b as int].spec_reference()@.0]);
                }
                let input = inputs[b].reference.id().clone();
                return Err(ProjectionError::DuplicateInputBinding { projection: id, input });
            },
            None => {},
        }
        match find_least_repeated(&parameters) {
            Some(b) => {
                proof {
                    assert(keys_of(parameters@)[b as int] =~= seq![parameters@[b as int]@.0]);
                }
                let parameter = parameters[b].id().clone();
                return Err(ProjectionError::DuplicateParameterDeclaration { projection: id, parameter });
            },
            None => {},
        }
        let ghost raw_inputs = inputs@;
        let ghost raw_parameters = parameters@;
        let ghost kinds = state_kinds@;
        let inputs = match sort_unique(inputs) {
            Ok(v) => v,
            Err(_) => unreached(),
        };
        let parameters = match sort_unique(parameters) {
            Ok(v) => v,
            Err(_) => unreached(),
        };
        proof {
            crate::keyed::lemma_sorted_distinct(keys_of(inputs@));
            crate::keyed::lemma_sorted_distinct(keys_of(parameters@));
            assert forall|k: Key| member_with_key(inputs@, k) == member_with_key(raw_inputs, k) by {
                lemma_member_with_key_permutation(inputs@, raw_inputs, k);
            }
            assert forall|k: Key| member_with_key(parameters@, k) == member_with_key(
                raw_parameters,
                k,
            ) by {
                lemma_member_with_key_permutation(parameters@, raw_parameters, k);
            }
        }
        let ghost prev_fails = |x: RecurrenceInputBinding| previous_state_error(id, kinds, x) is Some;
        let mut k: usize = 0;
        while k < inputs.len()
            invariant
                k <= inputs@.len(),
                kinds == state_kinds@,
                forall|j: int| 0 <= j < k ==> !prev_fails(#[trigger] inputs@[j]),
            decreases inputs.len() - k,
        {
            let check = previous_state_check(&id, &state_kinds, &inputs[k]);
            proof {
                assert(prev_fails(inputs@[k as int]) == (check is Some));
            }
            match check {
                Some(e) => {
                    proof {
                        lemma_first_in_sorted_is_least(inputs@, raw_inputs, prev_fails, k as int);
                    }
                    return Err(e);
                },
                None => {},
            }
            k = k + 1;
        }
        proof {
            lemma_none_in_permutation(inputs@, raw_inputs, prev_fails);
            assert forall|j: int| 0 <= j < raw_inputs.len() implies (#[trigger] previous_state_error(
                id,
                kinds,
                raw_inputs[j],
            )) is None by {
                assert(!prev_fails(raw_inputs[j]));
            }
        }
        let mut reached_inputs = all_false(inputs.len());
        let mut reached_parameters = all_false(parameters.len());
        let mut dependencies: Vec<ProjectionRef> = Vec::new();
        let mut i: usize = 0;
        proof {
            assert(updates@.take(0) =~= Seq::<RuleExpr>::empty());
            assert(dependencies@ =~= projection_leaves(all_leaves(updates@.take(0))));
        }
        while i < updates.len()
            invariant
                i <= updates@.len(),
                updates@.len() == state_kinds@.len(),
                kinds == state_kinds@,
                keys_distinct(keys_of(inputs@)),
                keys_distinct(keys_of(parameters@)),
                reached_inputs@.len() == inputs@.len(),
                reached_parameters@.len() == parameters@.len(),
                first_error(
                    recurrence_checks(id, kinds, updates@.take(i as int), inputs@, parameters@),
                ) is None,
                forall|q: int|
                    0 <= q < inputs@.len() ==> #[trigger] reached_inputs@[q] == reads_input(
                        all_leaves(updates@.take(i as int)),
                        inputs@[q].spec_reference()@.0,
                    ),
                forall|q: int|
                    0 <= q < parameters@.len() ==> #[trigger] reached_parameters@[q]
                        == reads_parameter(all_leaves(updates@.take(i as int)), parameters@[q]@.0),
                dependencies@ == projection_leaves(all_leaves(updates@.take(i as int))),
            decreases updates.len() - i,
        {
            let ghost before = updates@.take(i as int);
            let ghost after = updates@.take(i + 1);
            let ghost update = updates@[i as int];
            proof {
                assert(after.drop_last() =~= before);
                assert(after.last() == update);
                assert(after[i as int] == update);
                lemma_first_error_append(
                    recurrence_checks(id, kinds, before, inputs@, parameters@),
                    seq![update_kind_error(id, kinds[i as int], update, i as int)],
                );
                lemma_first_error_append(
                    recurrence_checks(id, kinds, before, inputs@, parameters@) + seq![
                        update_kind_error(id, kinds[i as int], update, i as int),
                    ],
                    leaf_errors(id, update.leaves(), inputs@, parameters@),
                );
                let single = seq![update_kind_error(id, kinds[i as int], update, i as int)];
                assert(single.drop_first() =~= Seq::<Option<ProjectionError>>::empty());
                assert(first_error(single.drop_first()) is None);
                lemma_leaves_append(id, all_leaves(before), update.leaves(), inputs@, parameters@);
            }
            let expected = state_kinds[i];
            if expression_kind(expected) != updates[i].value_kind() {
                proof {
                    lemma_checks_prefix(id, kinds, updates@, inputs@, parameters@, i + 1);
                    lemma_checks_congruent(
                        id,
                        kinds,
                        updates@,
                        inputs@,
                        parameters@,
                        raw_inputs,
                        raw_parameters,
                    );
                }
                return Err(
                    ProjectionError::RecurrenceUpdateKind {
                        projection: id,
                        index: i,
                        expected,
                        actual: updates[i].value_kind(),
                    },
                );
            }
            let ghost ri = reached_inputs@;
            let ghost rp = reached_parameters@;
            match walk_update(
                &id,
                &updates[i],
                &inputs,
                &parameters,
                &mut reached_inputs,
                &mut reached_parameters,
                &mut dependencies,
            ) {
                Err(e) => {
                    proof {
                        lemma_checks_prefix(id, kinds, updates@, inputs@, parameters@, i + 1);
                        lemma_checks_congruent(
                            id,
                            kinds,
                            updates@,
                            inputs@,
                            parameters@,
                            raw_inputs,
                            raw_parameters,
                        );
                    }
                    return Err(e);
                },
                Ok(()) => {},
            }
            i = i + 1;
        }
        proof {
            assert(updates@.take(i as int) =~= updates@);
            lemma_checks_congruent(
                id,
                kinds,
                updates@,
                inputs@,
                parameters@,
                raw_inputs,
                raw_parameters,
            );
        }
        let ghost leaves = all_leaves(updates@);
        let ghost unread_input = |x: RecurrenceInputBinding| input_unread(leaves, x);
        let mut k: usize = 0;
        while k < inputs.len()
            invariant
                k <= inputs@.len(),
                reached_inputs@.len() == inputs@.len(),
                forall|q: int|
                    0 <= q < inputs@.len() ==> #[trigger] reached_inputs@[q] == reads_input(
                        leaves,
                        inputs@[q].spec_reference()@.0,
                    ),
                forall|j: int| 0 <= j < k ==> !unread_input(#[trigger] inputs@[j]),
            decreases inputs.len() - k,
        {
            if !reached_inputs[k] {
                proof {
                    lemma_first_in_sorted_is_least(inputs@, raw_inputs, unread_input, k as int);
                }
                let input = inputs[k].reference.id().clone();
                return Err(ProjectionError::MissingInputBinding { projection: id, input });
            }
            k = k + 1;
        }
        proof {
            lemma_none_in_permutation(inputs@, raw_inputs, unread_input);
        }
        let ghost unread_parameter = |x: ParameterRef| parameter_unread(leaves, x);
        let mut k: usize = 0;
        while k < parameters.len()
            invariant
                k <= parameters@.len(),
                reached_parameters@.len() == parameters@.len(),
                forall|q: int|
                    0 <= q < parameters@.len() ==> #[trigger] reached_parameters@[q]
                        == reads_parameter(leaves, parameters@[q]@.0),
                forall|j: int| 0 <= j < k ==> !unread_parameter(#[trigger] parameters@[j]),
            decreases parameters.len() - k,
        {
            if !reached_parameters[k] {
                proof {
                    lemma_first_in_sorted_is_least(
                        parameters@,
                        raw_parameters,
                        unread_parameter,
                        k as int,
                    );
                }
                let parameter = parameters[k].id().clone();
                return Err(ProjectionError::MissingParameterDeclaration { projection: id, parameter });
            }
            k = k + 1;
        }
        proof {
            lemma_none_in_permutation(parameters@, raw_parameters, unread_parameter);
        }
        Ok(
            FiniteRecurrenceSpec {
                rule_ir,
                semantics,
                id,
                state_kinds,
                inputs,
                parameters,
                updates,
                output_index,
                dependencies,
            },
        )
    }

    /// The identity of the projection.
    pub fn id(&self) -> (r: &ProjectionId)
        ensures
            *r == self.spec_id(),
    {
        &self.id
    }

    /// The rule IR version.
    pub fn rule_ir_version(&self) -> (r: RuleIrVersion)
        ensures
            r == self.spec_rule_ir(),
    {
        self.rule_ir
    }

    /// The numerical semantics.
    pub fn numerical_semantics_version(&self) -> (r: NumericalSemanticsVersion)
        ensures
            r == self.spec_semantics(),
    {
        self.semantics
    }

    /// The kinds of the state slots.
    pub fn state_kinds(&self) -> (r: &[ProjectionValueKind])
        ensures
            r@ == self.spec_state_kinds(),
    {
        self.state_kinds.as_slice()
    }

    /// The input bindings, in canonical input order.
    pub fn inputs(&self) -> (r: &[RecurrenceInputBinding])
        ensures
            r@ == self.spec_inputs(),
    {
        self.inputs.as_slice()
    }

    /// The parameter declarations, in canonical parameter order.
    pub fn parameters(&self) -> (r: &[ParameterRef])
        ensures
            r@ == self.spec_parameters(),
    {
        self.parameters.as_slice()
    }

    /// The slot updates, in slot order.
    pub fn updates(&self) -> (r: &[RuleExpr])
        ensures
            r@ == self.spec_updates(),
    {
        self.updates.as_slice()
    }

    /// The slot whose value the projection yields.
    pub fn output_index(&self) -> (r: usize)
        ensures
            r == self.spec_output_index(),
            r < self.spec_state_kinds().len(),
    {
        proof {
            use_type_invariant(self);
        }
        self.output_index
    }

    /// The value kind: that of the output slot.
    pub fn value_kind(&self) -> (r: ProjectionValueKind)
        ensures
            r == self.spec_state_kinds()[self.spec_output_index() as int],
    {
        proof {
            use_type_invariant(self);
        }
        self.state_kinds[self.output_index]
    }

    /// The projections the updates read, in update and pre-order.
    pub fn dependencies(&self) -> (r: &[ProjectionRef])
        ensures
            r@ == self.spec_dependencies(),
    {
        self.dependencies.as_slice()
    }
}

/// Checks a prior-state binding against the state kinds.
fn previous_state_check(
    projection: &ProjectionId,
    kinds: &Vec<ProjectionValueKind>,
    binding: &RecurrenceInputBinding,
) -> (r: Option<ProjectionError>)
    ensures
        r == previous_state_error(*projection, kinds@, *binding),
{
    match &binding.source {
        RecurrenceInputSource::PreviousState { index, value_kind } => {
            if *index >= kinds.len() {
                Some(
                    ProjectionError::PreviousStateIndex {
                        projection: projection.clone(),
                        input: binding.reference.id().clone(),
                        state_len: kinds.len(),
                        attempted: *index,
                    },
                )
            } else if kinds[*index] != *value_kind {
                Some(
                    ProjectionError::PreviousStateKind {
                        projection: projection.clone(),
                        input: binding.reference.id().clone(),
                        index: *index,
                        expected: kinds[*index],
                        actual: *value_kind,
                    },
                )
            } else {
                None
            }
        },
        _ => None,
    }
}

/// A vector of `n` false flags.
fn all_false(n: usize) -> (r: Vec<bool>)
    ensures
        r@.len() == n,
        forall|q: int| 0 <= q < n ==> !(#[trigger] r@[q]),
{
    let mut v: Vec<bool> = Vec::new();
    let mut i: usize = 0;
    while i < n
        invariant
            i <= n,
            v@.len() == i,
            forall|q: int| 0 <= q < i ==> !(#[trigger] v@[q]),
        decreases n - i,
    {
        v.push(false);
        i = i + 1;
    }
    v
}

/// A validated projection specification of one of the three families.
#[derive(Debug, Eq, PartialEq)]
pub enum ProjectionSpec {
    BoundedLag(BoundedLagSpec),
    OrderedRollingAggregate(OrderedRollingAggregateSpec),
    FiniteRecurrence(FiniteRecurrenceSpec),
}

/// A borrowed view of a projection specification.
pub enum ProjectionSpecView<'a> {
    BoundedLag(&'a BoundedLagSpec),
    OrderedRollingAggregate(&'a OrderedRollingAggregateSpec),
    FiniteRecurrence(&'a FiniteRecurrenceSpec),
}

/// The identity of a specification.
pub open spec fn spec_projection_id(s: ProjectionSpec) -> ProjectionId {
    match s {
        ProjectionSpec::BoundedLag(v) => v.spec_id(),
        ProjectionSpec::OrderedRollingAggregate(v) => v.spec_id(),
        ProjectionSpec::FiniteRecurrence(v) => v.spec_id(),
    }
}

/// The value kind of a specification.
pub open spec fn spec_projection_kind(s: ProjectionSpec) -> ProjectionValueKind {
    match s {
        ProjectionSpec::BoundedLag(v) => source_kind(v.spec_source()),
        ProjectionSpec::OrderedRollingAggregate(v) => source_kind(v.spec_source()),
        ProjectionSpec::FiniteRecurrence(v) => v.spec_state_kinds()[v.spec_output_index() as int],
    }
}

/// The projections a source reads.
pub open spec fn source_dependencies(source: ProjectionSource) -> Seq<ProjectionRef> {
    match source {
        ProjectionSource::Projection(reference) => seq![reference],
        _ => seq![],
    }
}

/// The projections a specification reads, in order.
pub open spec fn spec_projection_dependencies(s: ProjectionSpec) -> Seq<ProjectionRef> {
    match s {
        ProjectionSpec::BoundedLag(v) => source_dependencies(v.spec_source()),
        ProjectionSpec::OrderedRollingAggregate(v) => source_dependencies(v.spec_source()),
        ProjectionSpec::FiniteRecurrence(v) => v.spec_dependencies(),
    }
}

/// The view `v` presents the specification `s`.
pub open spec fn projection_view_of(v: ProjectionSpecView, s: ProjectionSpec) -> bool {
    match (v, s) {
        (ProjectionSpecView::BoundedLag(a), ProjectionSpec::BoundedLag(b)) => *a == b,
        (ProjectionSpecView::OrderedRollingAggregate(a), ProjectionSpec::OrderedRollingAggregate(b)) => *a == b,
        (ProjectionSpecView::FiniteRecurrence(a), ProjectionSpec::FiniteRecurrence(b)) => *a == b,
        _ => false,
    }
}

impl ProjectionSpec {
    /// The identity of the projection.
    pub fn id(&self) -> (r: &ProjectionId)
        ensures
            *r == spec_projection_id(*self),
    {
        match self {
            ProjectionSpec::BoundedLag(v) => v.id(),
            ProjectionSpec::OrderedRollingAggregate(v) => v.id(),
            ProjectionSpec::FiniteRecurrence(v) => v.id(),
        }
    }

    /// The rule IR version.
    pub fn rule_ir_version(&self) -> (r: RuleIrVersion)
        ensures
            r == match *self {
                ProjectionSpec::BoundedLag(v) => v.spec_rule_ir(),
                ProjectionSpec::OrderedRollingAggregate(v) => v.spec_rule_ir(),
                ProjectionSpec::FiniteRecurrence(v) => v.spec_rule_ir(),
            },
    {
        match self {
            ProjectionSpec::BoundedLag(v) => v.rule_ir_version(),
            ProjectionSpec::OrderedRollingAggregate(v) => v.rule_ir_version(),
            ProjectionSpec::FiniteRecurrence(v) => v.rule_ir_version(),
        }
    }

    /// The numerical semantics.
    pub fn numerical_semantics_version(&self) -> (r: NumericalSemanticsVersion)
        ensures
            r == match *self {
                ProjectionSpec::BoundedLag(v) => v.spec_semantics(),
                ProjectionSpec::OrderedRollingAggregate(v) => v.spec_semantics(),
                ProjectionSpec::FiniteRecurrence(v) => v.spec_semantics(),
            },
    {
        match self {
            ProjectionSpec::BoundedLag(v) => v.numerical_semantics_version(),
            ProjectionSpec::OrderedRollingAggregate(v) => v.numerical_semantics_version(),
            ProjectionSpec::FiniteRecurrence(v) => v.numerical_semantics_version(),
        }
    }

    /// The value kind of the projection.
    pub fn value_kind(&self) -> (r: ProjectionValueKind)
        ensures
            r == spec_projection_kind(*self),
    {
        match self {
            ProjectionSpec::BoundedLag(v) => v.value_kind(),
            ProjectionSpec::OrderedRollingAggregate(v) => v.value_kind(),
            ProjectionSpec::FiniteRecurrence(v) => v.value_kind(),
        }
    }

    /// A borrowed view of the specification.
    pub fn view(&self) -> (r: ProjectionSpecView<'_>)
        ensures
            projection_view_of(r, *self),
    {
        match self {
            ProjectionSpec::BoundedLag(v) => ProjectionSpecView::BoundedLag(v),
            ProjectionSpec::OrderedRollingAggregate(v) => ProjectionSpecView::OrderedRollingAggregate(v),
            ProjectionSpec::FiniteRecurrence(v) => ProjectionSpecView::FiniteRecurrence(v),
        }
    }

    /// The projections the specification reads, in order.
    pub fn dependencies(&self) -> (r: Vec<&ProjectionRef>)
        ensures
            r@.len() == spec_projection_dependencies(*self).len(),
            forall|t: int|
                0 <= t < r@.len() ==> *(#[trigger] r@[t]) == spec_projection_dependencies(*self)[t],
    {
        match self {
            ProjectionSpec::BoundedLag(v) => match v.source() {
                ProjectionSource::Projection(reference) => vec![reference],
                _ => Vec::new(),
            },
            ProjectionSpec::OrderedRollingAggregate(v) => match v.source() {
                ProjectionSource::Projection(reference) => vec![reference],
                _ => Vec::new(),
            },
            ProjectionSpec::FiniteRecurrence(v) => {
                let deps = v.dependencies();
                let mut out: Vec<&ProjectionRef> = Vec::new();
                let mut t: usize = 0;
                while t < deps.len()
                    invariant
                        t <= deps@.len(),
                        deps@ == v.spec_dependencies(),
                        out@.len() == t,
                        forall|q: int| 0 <= q < t ==> *(#[trigger] out@[q]) == deps@[q],
                    decreases deps.len() - t,
                {
                    out.push(&deps[t]);
                    t = t + 1;
                }
                out
            },
        }
    }
}

impl From<BoundedLagSpec> for ProjectionSpec {
    fn from(v: BoundedLagSpec) -> (r: Self) {
        ProjectionSpec::BoundedLag(v)
    }
}

impl vstd::std_specs::convert::FromSpecImpl<BoundedLagSpec> for ProjectionSpec {
    open spec fn obeys_from_spec() -> bool {
        true
    }

    open spec fn from_spec(v: BoundedLagSpec) -> Self {
        ProjectionSpec::BoundedLag(v)
    }
}

impl From<OrderedRollingAggregateSpec> for ProjectionSpec {
    fn from(v: OrderedRollingAggregateSpec) -> (r: Self) {
        ProjectionSpec::OrderedRollingAggregate(v)
    }
}

impl vstd::std_specs::convert::FromSpecImpl<OrderedRollingAggregateSpec> for ProjectionSpec {
    open spec fn obeys_from_spec() -> bool {
        true
    }

    open spec fn from_spec(v: OrderedRollingAggregateSpec) -> Self {
        ProjectionSpec::OrderedRollingAggregate(v)
    }
}

impl From<FiniteRecurrenceSpec> for ProjectionSpec {
    fn from(v: FiniteRecurrenceSpec) -> (r: Self) {
        ProjectionSpec::FiniteRecurrence(v)
    }
}

impl vstd::std_specs::convert::FromSpecImpl<FiniteRecurrenceSpec> for ProjectionSpec {
    open spec fn obeys_from_spec() -> bool {
        true
    }

    open spec fn from_spec(v: FiniteRecurrenceSpec) -> Self {
        ProjectionSpec::FiniteRecurrence(v)
    }
}

impl Clone for FiniteRecurrenceSpec {
    fn clone(&self) -> (r: Self)
        ensures
            r.spec_rule_ir() == self.spec_rule_ir(),
            r.spec_semantics() == self.spec_semantics(),
            r.spec_id() == self.spec_id(),
            r.spec_state_kinds() == self.spec_state_kinds(),
            r.spec_inputs() == self.spec_inputs(),
            r.spec_parameters() == self.spec_parameters(),
            r.spec_updates() == self.spec_updates(),
            r.spec_output_index() == self.spec_output_index(),
            r.spec_dependencies() == self.spec_dependencies(),
    {
        proof {
            use_type_invariant(self);
        }
        let state_kinds = self.state_kinds.clone();
        let inputs = self.inputs.clone();
        let parameters = self.parameters.clone();
        let updates = self.updates.clone();
        let dependencies = self.dependencies.clone();
        proof {
            assert forall|i: int| 0 <= i < inputs@.len() implies #[trigger] inputs@[i] == self.inputs@[i] by {
                assert(cloned::<RecurrenceInputBinding>(self.inputs[i], inputs[i]));
            }
            assert forall|i: int| 0 <= i < parameters@.len() implies #[trigger] parameters@[i]
                == self.parameters@[i] by {
                assert(cloned::<ParameterRef>(self.parameters[i], parameters[i]));
            }
            assert forall|i: int| 0 <= i < updates@.len() implies #[trigger] updates@[i] == self.updates@[i] by {
                assert(cloned::<RuleExpr>(self.updates[i], updates[i]));
            }
            assert forall|i: int| 0 <= i < dependencies@.len() implies #[trigger] dependencies@[i]
                == self.dependencies@[i] by {
                assert(cloned::<ProjectionRef>(self.dependencies[i], dependencies[i]));
            }
            assert(state_kinds@ =~= self.state_kinds@);
            assert(inputs@ =~= self.inputs@);
            assert(parameters@ =~= self.parameters@);
            assert(updates@ =~= self.updates@);
            assert(dependencies@ =~= self.dependencies@);
        }
        FiniteRecurrenceSpec {
            rule_ir: self.rule_ir,
            semantics: self.semantics,
            id: self.id.clone(),
            state_kinds,
            inputs,
            parameters,
            updates,
            output_index: self.output_index,
            dependencies,
        }
    }
}

impl Clone for InitialProjectorState {
    fn clone(&self) -> (r: Self)
        ensures
            r.spec_projection() == self.spec_projection(),
            r.spec_values() == self.spec_values(),
    {
        let values = self.values.clone();
        proof {
            assert(values@ =~= self.values@);
        }
        InitialProjectorState { projection: self.projection.clone(), values }
    }
}

/// The two specifications are of one variant and need initial states of one shape: the same
/// bounded lag or rolling aggregate, or recurrences over the same state kinds.
pub open spec fn same_state_shape(a: ProjectionSpec, b: ProjectionSpec) -> bool {
    match (a, b) {
        (ProjectionSpec::BoundedLag(x), ProjectionSpec::BoundedLag(y)) => x == y,
        (ProjectionSpec::OrderedRollingAggregate(x), ProjectionSpec::OrderedRollingAggregate(y)) => x == y,
        (ProjectionSpec::FiniteRecurrence(x), ProjectionSpec::FiniteRecurrence(y)) => x.spec_state_kinds()
            == y.spec_state_kinds(),
        _ => false,
    }
}

impl Clone for ProjectionSpec {
    fn clone(&self) -> (r: Self)
        ensures
            spec_projection_id(r) == spec_projection_id(*self),
            spec_projection_kind(r) == spec_projection_kind(*self),
            spec_projection_dependencies(r) == spec_projection_dependencies(*self),
            same_state_shape(r, *self),
    {
        match self {
            ProjectionSpec::BoundedLag(v) => ProjectionSpec::BoundedLag(v.clone()),
            ProjectionSpec::OrderedRollingAggregate(v) => ProjectionSpec::OrderedRollingAggregate(v.clone()),
            ProjectionSpec::FiniteRecurrence(v) => ProjectionSpec::FiniteRecurrence(v.clone()),
        }
    }
}

} // verus!
