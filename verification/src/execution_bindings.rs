//! Declared execution sources: where each disposition branch routes its transfer, and where each
//! rule input leaf reads its value from. Bindings live in the immutable model value rather than in
//! executor code.

use vstd::prelude::*;

use crate::identity::{CompartmentId, SubstanceId};
use crate::keyed::{
    compare_triple, find_least_repeated, keys_distinct, keys_of, keys_sorted, least_repeated_key,
    lemma_member_with_key_at, lemma_member_with_key_none, lemma_sorted_distinct, member_with_key,
    sort_unique, Key, Keyed,
};
use crate::order::KeyOrder;
use crate::rule_reference::{
    spec_expression_kind, ExpressionValueKind, ForcingRef, InputId, InputRef, InterpolatedTableRef,
    ProjectionRef, TransferBranchId,
};

verus! {

/// The destination selected when one named disposition branch emits a transfer.
#[derive(Debug, Eq, PartialEq)]
pub struct TransferBranchBinding {
    compartment: CompartmentId,
    substance: SubstanceId,
    branch: TransferBranchId,
    destination: CompartmentId,
}

impl TransferBranchBinding {
    /// The source compartment of the rule.
    pub closed spec fn spec_compartment(&self) -> CompartmentId {
        self.compartment
    }

    /// The substance of the rule.
    pub closed spec fn spec_substance(&self) -> SubstanceId {
        self.substance
    }

    /// The disposition branch.
    pub closed spec fn spec_branch(&self) -> TransferBranchId {
        self.branch
    }

    /// The compartment the branch transfers to.
    pub closed spec fn spec_destination(&self) -> CompartmentId {
        self.destination
    }

    /// Binds `branch` of the rule for `substance` in `compartment` to `destination`.
    pub fn new(
        compartment: CompartmentId,
        substance: SubstanceId,
        branch: TransferBranchId,
        destination: CompartmentId,
    ) -> (r: Self)
        ensures
            r.spec_compartment() == compartment,
            r.spec_substance() == substance,
            r.spec_branch() == branch,
            r.spec_destination() == destination,
    {
        TransferBranchBinding { compartment, substance, branch, destination }
    }

    /// The source compartment of the rule.
    pub fn compartment(&self) -> (r: &CompartmentId)
        ensures
            *r == self.spec_compartment(),
    {
        &self.compartment
    }

    /// The substance of the rule.
    pub fn substance(&self) -> (r: &SubstanceId)
        ensures
            *r == self.spec_substance(),
    {
        &self.substance
    }

    /// The disposition branch.
    pub fn branch(&self) -> (r: &TransferBranchId)
        ensures
            *r == self.spec_branch(),
    {
        &self.branch
    }

    /// The compartment the branch transfers to.
    pub fn destination(&self) -> (r: &CompartmentId)
        ensures
            *r == self.spec_destination(),
    {
        &self.destination
    }
}

impl Clone for TransferBranchBinding {
    fn clone(&self) -> (r: Self)
        ensures
            r == *self,
    {
        TransferBranchBinding {
            compartment: self.compartment.clone(),
            substance: self.substance.clone(),
            branch: self.branch.clone(),
            destination: self.destination.clone(),
        }
    }
}

impl Keyed for TransferBranchBinding {
    open spec fn key(&self) -> Key {
        seq![self.spec_compartment()@, self.spec_substance()@, self.spec_branch()@]
    }

    fn compare_keys(&self, other: &Self) -> (r: KeyOrder) {
        compare_triple(
            self.compartment.as_str(),
            self.substance.as_str(),
            self.branch.as_str(),
            other.compartment.as_str(),
            other.substance.as_str(),
            other.branch.as_str(),
        )
    }
}

/// A declared immutable source for a generic rule input leaf.
#[derive(Debug, Eq, PartialEq)]
pub enum RuleInputSource {
    /// A scalar value at the current timestep from a forcing series.
    Forcing(ForcingRef),
    /// A scalar value supplied through a declared interpolation table.
    InterpolationTable(InterpolatedTableRef),
    /// A typed value from a deterministic projection view.
    Projection(ProjectionRef),
}

/// The expression kind a rule input source yields.
pub open spec fn rule_input_kind(source: RuleInputSource) -> ExpressionValueKind {
    match source {
        RuleInputSource::Projection(reference) => spec_expression_kind(reference@.1),
        _ => ExpressionValueKind::Scalar,
    }
}

impl RuleInputSource {
    /// The expression kind the source yields.
    pub fn value_kind(&self) -> (r: ExpressionValueKind)
        ensures
            r == rule_input_kind(*self),
    {
        match self {
            RuleInputSource::Forcing(_) | RuleInputSource::InterpolationTable(_) => ExpressionValueKind::Scalar,
            RuleInputSource::Projection(reference) => crate::rule_reference::expression_kind(
                reference.value_kind(),
            ),
        }
    }
}

impl Clone for RuleInputSource {
    fn clone(&self) -> (r: Self)
        ensures
            r == *self,
    {
        match self {
            RuleInputSource::Forcing(f) => RuleInputSource::Forcing(f.clone()),
            RuleInputSource::InterpolationTable(t) => RuleInputSource::InterpolationTable(t.clone()),
            RuleInputSource::Projection(p) => RuleInputSource::Projection(p.clone()),
        }
    }
}

/// The source selected for one input leaf of one compartment-substance rule.
#[derive(Debug, Eq, PartialEq)]
pub struct RuleInputBinding {
    compartment: CompartmentId,
    substance: SubstanceId,
    reference: InputRef,
    source: RuleInputSource,
}

impl RuleInputBinding {
    /// The compartment of the rule.
    pub closed spec fn spec_compartment(&self) -> CompartmentId {
        self.compartment
    }

    /// The substance of the rule.
    pub closed spec fn spec_substance(&self) -> SubstanceId {
        self.substance
    }

    /// The bound input reference.
    pub closed spec fn spec_reference(&self) -> InputRef {
        self.reference
    }

    /// The selected source.
    pub closed spec fn spec_source(&self) -> RuleInputSource {
        self.source
    }

    /// Binds input `reference` of the rule for `substance` in `compartment` to `source`.
    pub fn new(
        compartment: CompartmentId,
        substance: SubstanceId,
        reference: InputRef,
        source: RuleInputSource,
    ) -> (r: Self)
        ensures
            r.spec_compartment() == compartment,
            r.spec_substance() == substance,
            r.spec_reference() == reference,
            r.spec_source() == source,
    {
        RuleInputBinding { compartment, substance, reference, source }
    }

    /// The compartment of the rule.
    pub fn compartment(&self) -> (r: &CompartmentId)
        ensures
            *r == self.spec_compartment(),
    {
        &self.compartment
    }

    /// The substance of the rule.
    pub fn substance(&self) -> (r: &SubstanceId)
        ensures
            *r == self.spec_substance(),
    {
        &self.substance
    }

    /// The bound input reference.
    pub fn reference(&self) -> (r: &InputRef)
        ensures
            *r == self.spec_reference(),
    {
        &self.reference
    }

    /// The identity of the bound input.
    pub fn input(&self) -> (r: &InputId)
        ensures
            *r == self.spec_reference().spec_id(),
    {
        self.reference.id()
    }

    /// The selected source.
    pub fn source(&self) -> (r: &RuleInputSource)
        ensures
            *r == self.spec_source(),
    {
        &self.source
    }
}

impl Clone for RuleInputBinding {
    fn clone(&self) -> (r: Self)
        ensures
            r == *self,
    {
        RuleInputBinding {
            compartment: self.compartment.clone(),
            substance: self.substance.clone(),
            reference: self.reference.clone(),
            source: self.source.clone(),
        }
    }
}

impl Keyed for RuleInputBinding {
    open spec fn key(&self) -> Key {
        seq![self.spec_compartment()@, self.spec_substance()@, self.spec_reference()@.0]
    }

    fn compare_keys(&self, other: &Self) -> (r: KeyOrder) {
        compare_triple(
            self.compartment.as_str(),
            self.substance.as_str(),
            self.reference.id().as_str(),
            other.compartment.as_str(),
            other.substance.as_str(),
            other.reference.id().as_str(),
        )
    }
}

/// Reports a repeated execution-binding coordinate.
#[derive(Clone, Debug, Eq, PartialEq)]
pub enum ExecutionBindingsError {
    /// Fires when one transfer branch has multiple destinations.
    DuplicateTransferBranch {
        compartment: CompartmentId,
        substance: SubstanceId,
        branch: TransferBranchId,
    },
    /// Fires when one rule input has multiple sources.
    DuplicateRuleInput { compartment: CompartmentId, substance: SubstanceId, input: InputId },
}

/// Canonically ordered execution bindings owned by a model artifact.
#[derive(Debug, Eq, PartialEq)]
pub struct ExecutionBindings {
    transfers: Vec<TransferBranchBinding>,
    inputs: Vec<RuleInputBinding>,
}

impl ExecutionBindings {
    #[verifier::type_invariant]
    closed spec fn canonical(self) -> bool {
        keys_sorted(keys_of(self.transfers@)) && keys_sorted(keys_of(self.inputs@))
    }

    /// The transfer bindings in canonical coordinate order.
    pub closed spec fn spec_transfers(&self) -> Seq<TransferBranchBinding> {
        self.transfers@
    }

    /// The input bindings in canonical coordinate order.
    pub closed spec fn spec_inputs(&self) -> Seq<RuleInputBinding> {
        self.inputs@
    }

    /// Arranges bindings in canonical coordinate order and rejects a coordinate bound twice:
    /// transfer branches are checked first, and the least repeated coordinate is reported.
    pub fn new(transfers: Vec<TransferBranchBinding>, inputs: Vec<RuleInputBinding>) -> (r: Result<
        Self,
        ExecutionBindingsError,
    >)
        ensures
            !keys_distinct(keys_of(transfers@)) ==> {
                &&& r matches Err(
                    ExecutionBindingsError::DuplicateTransferBranch { compartment, substance, branch },
                )
                &&& least_repeated_key(
                    keys_of(transfers@),
                    seq![compartment@, substance@, branch@],
                )
            },
            keys_distinct(keys_of(transfers@)) && !keys_distinct(keys_of(inputs@)) ==> {
                &&& r matches Err(
                    ExecutionBindingsError::DuplicateRuleInput { compartment, substance, input },
                )
                &&& least_repeated_key(keys_of(inputs@), seq![compartment@, substance@, input@])
            },
            r is Ok <==> keys_distinct(keys_of(transfers@)) && keys_distinct(keys_of(inputs@)),
            r matches Ok(b) ==> {
                &&& keys_sorted(keys_of(b.spec_transfers()))
                &&& b.spec_transfers().to_multiset() == transfers@.to_multiset()
                &&& keys_sorted(keys_of(b.spec_inputs()))
                &&& b.spec_inputs().to_multiset() == inputs@.to_multiset()
            },
    {
        match find_least_repeated(&transfers) {
            Some(i) => {
                let binding = &transfers[i];
                proof {
                    assert(keys_of(transfers@)[i as int] =~= seq![
                        binding.spec_compartment()@,
                        binding.spec_substance()@,
                        binding.spec_branch()@,
                    ]);
                }
                return Err(
                    ExecutionBindingsError::DuplicateTransferBranch {
                        compartment: binding.compartment.clone(),
                        substance: binding.substance.clone(),
                        branch: binding.branch.clone(),
                    },
                );
            },
            None => {},
        }
        match find_least_repeated(&inputs) {
            Some(i) => {
                let binding = &inputs[i];
                proof {
                    assert(keys_of(inputs@)[i as int] =~= seq![
                        binding.spec_compartment()@,
                        binding.spec_substance()@,
                        binding.spec_reference()@.0,
                    ]);
                }
                return Err(
                    ExecutionBindingsError::DuplicateRuleInput {
                        compartment: binding.compartment.clone(),
                        substance: binding.substance.clone(),
                        input: binding.reference.id().clone(),
                    },
                );
            },
            None => {},
        }
        let transfers = match sort_unique(transfers) {
            Ok(v) => v,
            Err(_) => unreached(),
        };
        let inputs = match sort_unique(inputs) {
            Ok(v) => v,
            Err(_) => unreached(),
        };
        Ok(ExecutionBindings { transfers, inputs })
    }

    /// Bindings with no transfer branch and no rule input.
    pub fn empty() -> (r: Self)
        ensures
            r.spec_transfers().len() == 0,
            r.spec_inputs().len() == 0,
    {
        ExecutionBindings { transfers: Vec::new(), inputs: Vec::new() }
    }

    /// The transfer bindings in canonical coordinate order.
    pub fn transfer_bindings(&self) -> (r: &[TransferBranchBinding])
        ensures
            r@ == self.spec_transfers(),
    {
        self.transfers.as_slice()
    }

    /// The input bindings in canonical coordinate order.
    pub fn input_bindings(&self) -> (r: &[RuleInputBinding])
        ensures
            r@ == self.spec_inputs(),
    {
        self.inputs.as_slice()
    }

    /// The destination bound to `branch` of the rule for `substance` in `compartment`.
    pub fn destination(
        &self,
        compartment: &CompartmentId,
        substance: &SubstanceId,
        branch: &TransferBranchId,
    ) -> (r: Option<&CompartmentId>)
        ensures
            r is None <==> member_with_key(
                self.spec_transfers(),
                seq![compartment@, substance@, branch@],
            ) is None,
            r matches Some(d) ==> *d == member_with_key(
                self.spec_transfers(),
                seq![compartment@, substance@, branch@],
            )->0.spec_destination(),
    {
        proof {
            use_type_invariant(self);
            lemma_sorted_distinct(keys_of(self.transfers@));
        }
        let ghost k = seq![compartment@, substance@, branch@];
        let mut i: usize = 0;
        while i < self.transfers.len()
            invariant
                i <= self.transfers@.len(),
                k == seq![compartment@, substance@, branch@],
                keys_distinct(keys_of(self.transfers@)),
                forall|q: int| 0 <= q < i ==> (#[trigger] self.transfers@[q]).key() != k,
            decreases self.transfers.len() - i,
        {
            let binding = &self.transfers[i];
            if binding.compartment() == compartment && binding.substance() == substance
                && binding.branch() == branch {
                proof {
                    assert(binding.key() =~= k);
                    lemma_member_with_key_at(self.transfers@, i as int);
                }
                return Some(binding.destination());
            }
            proof {
                if binding.key() == k {
                    assert(binding.key()[0] == k[0]);
                    assert(binding.key()[1] == k[1]);
                    assert(binding.key()[2] == k[2]);
                }
            }
            i = i + 1;
        }
        proof {
            lemma_member_with_key_none(self.transfers@, k);
        }
        None
    }

    /// The source bound to input `input` of the rule for `substance` in `compartment`.
    pub fn input_source(
        &self,
        compartment: &CompartmentId,
        substance: &SubstanceId,
        input: &InputId,
    ) -> (r: Option<&RuleInputSource>)
        ensures
            r is None <==> member_with_key(
                self.spec_inputs(),
                seq![compartment@, substance@, input@],
            ) is None,
            r matches Some(s) ==> *s == member_with_key(
                self.spec_inputs(),
                seq![compartment@, substance@, input@],
            )->0.spec_source(),
    {
        match self.input_binding(compartment, substance, input) {
            Some(binding) => Some(binding.source()),
            None => None,
        }
    }

    /// The binding of input `input` of the rule for `substance` in `compartment`.
    pub(crate) fn input_binding(
        &self,
        compartment: &CompartmentId,
        substance: &SubstanceId,
        input: &InputId,
    ) -> (r: Option<&RuleInputBinding>)
        ensures
            r is None <==> member_with_key(
                self.spec_inputs(),
                seq![compartment@, substance@, input@],
            ) is None,
            r matches Some(b) ==> *b == member_with_key(
                self.spec_inputs(),
                seq![compartment@, substance@, input@],
            )->0,
    {
        proof {
            use_type_invariant(self);
            lemma_sorted_distinct(keys_of(self.inputs@));
        }
        let ghost k = seq![compartment@, substance@, input@];
        let mut i: usize = 0;
        while i < self.inputs.len()
            invariant
                i <= self.inputs@.len(),
                k == seq![compartment@, substance@, input@],
                keys_distinct(keys_of(self.inputs@)),
                forall|q: int| 0 <= q < i ==> (#[trigger] self.inputs@[q]).key() != k,
            decreases self.inputs.len() - i,
        {
            let binding = &self.inputs[i];
            if binding.compartment() == compartment && binding.substance() == substance
                && binding.input() == input {
                proof {
                    assert(binding.key() =~= k);
                    lemma_member_with_key_at(self.inputs@, i as int);
                }
                return Some(binding);
            }
            proof {
                if binding.key() == k {
                    assert(binding.key()[0] == k[0]);
                    assert(binding.key()[1] == k[1]);
                    assert(binding.key()[2] == k[2]);
                }
            }
            i = i + 1;
        }
        proof {
            lemma_member_with_key_none(self.inputs@, k);
        }
        None
    }
}

impl Default for ExecutionBindings {
    fn default() -> (r: Self)
        ensures
            r.spec_transfers().len() == 0,
            r.spec_inputs().len() == 0,
    {
        ExecutionBindings::empty()
    }
}

impl Clone for ExecutionBindings {
    fn clone(&self) -> (r: Self)
        ensures
            r.spec_transfers() == self.spec_transfers(),
            r.spec_inputs() == self.spec_inputs(),
    {
        proof {
            use_type_invariant(self);
        }
        let mut transfers: Vec<TransferBranchBinding> = Vec::new();
        let mut i: usize = 0;
        while i < self.transfers.len()
            invariant
                i <= self.transfers@.len(),
                transfers@ == self.transfers@.take(i as int),
            decreases self.transfers.len() - i,
        {
            transfers.push(self.transfers[i].clone());
            proof {
                assert(self.transfers@.take(i + 1) =~= self.transfers@.take(i as int).push(
                    self.transfers@[i as int],
                ));
            }
            i = i + 1;
        }
        let mut inputs: Vec<RuleInputBinding> = Vec::new();
        let mut i: usize = 0;
        while i < self.inputs.len()
            invariant
                i <= self.inputs@.len(),
                inputs@ == self.inputs@.take(i as int),
            decreases self.inputs.len() - i,
        {
            inputs.push(self.inputs[i].clone());
            proof {
                assert(self.inputs@.take(i + 1) =~= self.inputs@.take(i as int).push(
                    self.inputs@[i as int],
                ));
            }
            i = i + 1;
        }
        proof {
            assert(transfers@ =~= self.transfers@);
            assert(inputs@ =~= self.inputs@);
        }
        ExecutionBindings { transfers, inputs }
    }
}

} // verus!
