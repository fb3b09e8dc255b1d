//! Disposition shapes: how a rule's released amount is partitioned over transfer branches.

use vstd::prelude::*;

use crate::keyed::{
    find_least_repeated, keys_distinct, keys_of, keys_sorted, least_repeated_key,
    lemma_key_order_1, sort_unique, Key, Keyed,
};
use crate::numerical_semantics::{
    is_finite_bits, AccumulationError, NumericalSemanticsVersion, NEGATIVE_ZERO_BITS, ONE_BITS,
    bits_are_finite,
};
use crate::order::{compare_text, KeyOrder};
use crate::rule_reference::{ForcingRef, TransferBranchId};
use crate::versions::RuleIrVersion;

verus! {

/// The bit pattern encodes a finite value in the inclusive interval from zero to one.
pub open spec fn fraction_in_range(bits: u64) -> bool {
    is_finite_bits(bits) && (bits <= ONE_BITS || bits == NEGATIVE_ZERO_BITS)
}

/// A canonical finite fraction in the inclusive interval from zero to one, held as its bits.
#[derive(Clone, Copy, Debug, Eq, PartialEq, Structural)]
pub struct Fraction {
    semantics: NumericalSemanticsVersion,
    bits: u64,
}

/// Reports a fraction outside the inclusive finite interval from zero to one.
#[derive(Clone, Copy, Debug, Eq, PartialEq, Structural)]
pub enum FractionError {
    /// Fires when a fraction is non-finite or outside the inclusive interval from zero to one.
    OutOfRange { bits: u64 },
}

impl Fraction {
    /// The bit pattern of the fraction.
    pub closed spec fn spec_bits(self) -> u64 {
        self.bits
    }

    /// The numerical semantics of the fraction.
    pub closed spec fn spec_semantics(self) -> NumericalSemanticsVersion {
        self.semantics
    }

    /// Creates a canonical fraction from a binary64 bit pattern; zero of either sign becomes
    /// positive zero.
    pub fn new(semantics: NumericalSemanticsVersion, bits: u64) -> (r: Result<Self, FractionError>)
        ensures
            r is Ok <==> fraction_in_range(bits),
            r matches Ok(f) ==> f.spec_semantics() == semantics && f.spec_bits() == (if bits
                == NEGATIVE_ZERO_BITS {
                0
            } else {
                bits
            }),
            r matches Err(e) ==> e == (FractionError::OutOfRange { bits }),
    {
        if !bits_are_finite(bits) || !(bits <= ONE_BITS || bits == NEGATIVE_ZERO_BITS) {
            return Err(FractionError::OutOfRange { bits });
        }
        Ok(Fraction { semantics, bits: if bits == NEGATIVE_ZERO_BITS { 0 } else { bits } })
    }

    /// The numerical semantics of the fraction.
    pub fn numerical_semantics_version(self) -> (r: NumericalSemanticsVersion)
        ensures
            r == self.spec_semantics(),
    {
        self.semantics
    }

    /// The canonical bit pattern of the fraction.
    pub fn bits(self) -> (r: u64)
        ensures
            r == self.spec_bits(),
    {
        self.bits
    }
}

/// One transfer branch and the fraction it receives.
#[derive(Debug, Eq, PartialEq)]
pub struct FractionBranch {
    branch: TransferBranchId,
    fraction: Fraction,
}

impl View for FractionBranch {
    type V = (Seq<char>, Fraction);

    closed spec fn view(&self) -> (Seq<char>, Fraction) {
        (self.branch@, self.fraction)
    }
}

impl FractionBranch {
    /// Pairs a branch with its fraction.
    pub fn new(branch: TransferBranchId, fraction: Fraction) -> (r: Self)
        ensures
            r@ == (branch@, fraction),
    {
        FractionBranch { branch, fraction }
    }

    /// The transfer branch.
    pub fn branch(&self) -> (r: &TransferBranchId)
        ensures
            r@ == self@.0,
    {
        &self.branch
    }

    /// The fraction the branch receives.
    pub fn fraction(&self) -> (r: Fraction)
        ensures
            r == self@.1,
    {
        self.fraction
    }
}

impl Clone for FractionBranch {
    fn clone(&self) -> (r: Self)
        ensures
            r@ == self@,
    {
        FractionBranch { branch: self.branch.clone(), fraction: self.fraction }
    }
}

impl Keyed for FractionBranch {
    open spec fn key(&self) -> Key {
        seq![self@.0]
    }

    fn compare_keys(&self, other: &Self) -> (r: KeyOrder) {
        proof {
            lemma_key_order_1(self@.0, other@.0);
        }
        compare_text(self.branch.as_str(), other.branch.as_str())
    }
}

/// Reports why a partition expression could not be constructed.
#[derive(Debug, PartialEq, Eq)]
pub enum PartitionExprError {
    /// Fires when a fixed split names one transfer branch more than once.
    DuplicateBranch { branch: TransferBranchId },
    /// Fires when checked fraction accumulation cannot produce a finite total.
    FractionAccumulation { cause: AccumulationError },
    /// Fires when a fixed split's exact ordered fraction total is not one.
    InvalidFixedFractionTotal { total_bits: u64 },
}

/// Wraps an accumulation failure of a fixed split's fractions.
pub fn fraction_accumulation_error(cause: AccumulationError) -> (r: PartitionExprError)
    ensures
        r == (PartitionExprError::FractionAccumulation { cause }),
{
    PartitionExprError::FractionAccumulation { cause }
}

/// Arranges fraction branches in canonical branch order, rejecting a repeated branch: the
/// least repeated branch identity is reported.
pub fn canonical_branches(branches: Vec<FractionBranch>) -> (r: Result<Vec<FractionBranch>, PartitionExprError>)
    ensures
        r is Ok <==> keys_distinct(keys_of(branches@)),
        r matches Ok(v) ==> keys_sorted(keys_of(v@)) && keys_of(v@).to_set() == keys_of(
            branches@,
        ).to_set() && v@.to_multiset() == branches@.to_multiset(),
        r matches Err(PartitionExprError::DuplicateBranch { branch }) ==> least_repeated_key(
            keys_of(branches@),
            seq![branch@],
        ),
        !(r matches Err(PartitionExprError::FractionAccumulation { .. })),
        !(r matches Err(PartitionExprError::InvalidFixedFractionTotal { .. })),
{
    let ghost ks = keys_of(branches@);
    match find_least_repeated(&branches) {
        Some(b) => {
            proof {
                assert(ks[b as int] == seq![branches@[b as int]@.0]);
            }
            let branch = branches[b].branch.clone();
            return Err(PartitionExprError::DuplicateBranch { branch });
        },
        None => {},
    }
    let ghost input = branches@;
    match sort_unique(branches) {
        Ok(v) => Ok(v),
        Err(_) => unreached(),
    }
}

/// The shape of a disposition.
#[derive(Clone, Debug, Eq, PartialEq)]
pub enum PartitionNode {
    RetainAll,
    ReleaseAll { branch: TransferBranchId },
    FixedFractionSplit { retained_fraction: Fraction, branches: Vec<FractionBranch> },
    ExogenousSeries { branch: TransferBranchId, series: ForcingRef },
    ConstantFractionTransfer { branch: TransferBranchId, fraction: Fraction },
}

/// A versioned disposition shape.
#[derive(Clone, Debug, Eq, PartialEq)]
pub struct PartitionExpr {
    rule_ir: RuleIrVersion,
    semantics: NumericalSemanticsVersion,
    node: PartitionNode,
}

/// A borrowed view of a disposition shape.
pub enum PartitionExprView<'a> {
    RetainAll,
    ReleaseAll { branch: &'a TransferBranchId },
    FixedFractionSplit { retained_fraction: Fraction, branches: &'a [FractionBranch] },
    ExogenousSeries { branch: &'a TransferBranchId, series: &'a ForcingRef },
    ConstantFractionTransfer { branch: &'a TransferBranchId, fraction: Fraction },
}

/// The view `v` presents node `n` faithfully.
pub open spec fn partition_view_of(v: PartitionExprView, n: PartitionNode) -> bool {
    match (v, n) {
        (PartitionExprView::RetainAll, PartitionNode::RetainAll) => true,
        (PartitionExprView::ReleaseAll { branch }, PartitionNode::ReleaseAll { branch: b }) => *branch == b,
        (
            PartitionExprView::FixedFractionSplit { retained_fraction, branches },
            PartitionNode::FixedFractionSplit { retained_fraction: f, branches: bs },
        ) => retained_fraction == f && branches@ == bs@,
        (
            PartitionExprView::ExogenousSeries { branch, series },
            PartitionNode::ExogenousSeries { branch: b, series: s },
        ) => *branch == b && *series == s,
        (
            PartitionExprView::ConstantFractionTransfer { branch, fraction },
            PartitionNode::ConstantFractionTransfer { branch: b, fraction: f },
        ) => *branch == b && fraction == f,
        _ => false,
    }
}

impl PartitionExpr {
    /// The shape of the disposition.
    pub closed spec fn node(&self) -> PartitionNode {
        self.node
    }

    /// The rule IR version.
    pub closed spec fn spec_rule_ir(&self) -> RuleIrVersion {
        self.rule_ir
    }

    /// The numerical semantics.
    pub closed spec fn spec_semantics(&self) -> NumericalSemanticsVersion {
        self.semantics
    }

    /// Keeps the whole amount in the compartment.
    pub fn retain_all(rule_ir: RuleIrVersion, semantics: NumericalSemanticsVersion) -> (r: Self)
        ensures
            r.node() == PartitionNode::RetainAll,
            r.spec_rule_ir() == rule_ir,
            r.spec_semantics() == semantics,
    {
        PartitionExpr { rule_ir, semantics, node: PartitionNode::RetainAll }
    }

    /// Releases the whole amount along one branch.
    pub fn release_all(
        rule_ir: RuleIrVersion,
        semantics: NumericalSemanticsVersion,
        branch: TransferBranchId,
    ) -> (r: Self)
        ensures
            r.node() == (PartitionNode::ReleaseAll { branch }),
            r.spec_rule_ir() == rule_ir,
            r.spec_semantics() == semantics,
    {
        PartitionExpr { rule_ir, semantics, node: PartitionNode::ReleaseAll { branch } }
    }

    /// Creates an exhaustive fixed-fraction split in canonical branch order.
    ///
    /// `accumulated` is the outcome of accumulating, under `semantics` and in binary64
    /// arithmetic, the retained fraction followed by the branch fractions in the order that
    /// [`canonical_branches`] arranges them; the split is exhaustive when that total is one.
    ///
    /// The caller owes that `accumulated` really is that ordered binary64 total of these
    /// fractions: the sum is floating-point arithmetic, which this library does not compute,
    /// so the exhaustiveness check believes the total it is handed. A total that was not
    /// computed from these fractions can make a non-exhaustive split pass.
    pub fn fixed_fraction_split(
        rule_ir: RuleIrVersion,
        semantics: NumericalSemanticsVersion,
        retained_fraction: Fraction,
        branches: Vec<FractionBranch>,
        accumulated: Result<u64, AccumulationError>,
    ) -> (r: Result<Self, PartitionExprError>)
        ensures
            !keys_distinct(keys_of(branches@)) ==> (r matches Err(
                PartitionExprError::DuplicateBranch { branch },
            ) && least_repeated_key(keys_of(branches@), seq![branch@])),
            keys_distinct(keys_of(branches@)) ==> match accumulated {
                Err(cause) => r == Err::<Self, PartitionExprError>(
                    PartitionExprError::FractionAccumulation { cause },
                ),
                Ok(total) => if total != ONE_BITS {
                    r == Err::<Self, PartitionExprError>(
                        PartitionExprError::InvalidFixedFractionTotal { total_bits: total },
                    )
                } else {
                    &&& r matches Ok(e)
                    &&& r->Ok_0.spec_rule_ir() == rule_ir
                    &&& r->Ok_0.spec_semantics() == semantics
                    &&& r->Ok_0.node() matches PartitionNode::FixedFractionSplit {
                        retained_fraction: f,
                        branches: bs,
                    }
                    &&& r->Ok_0.node()->FixedFractionSplit_retained_fraction == retained_fraction
                    &&& keys_sorted(keys_of(r->Ok_0.node()->FixedFractionSplit_branches@))
                    &&& r->Ok_0.node()->FixedFractionSplit_branches@.to_multiset()
                        == branches@.to_multiset()
                },
            },
    {
        let sorted = match canonical_branches(branches) {
            Ok(v) => v,
            Err(e) => {
                return Err(e);
            },
        };
        match accumulated {
            Err(cause) => Err(fraction_accumulation_error(cause)),
            Ok(total) => {
                if total != ONE_BITS {
                    Err(PartitionExprError::InvalidFixedFractionTotal { total_bits: total })
                } else {
                    Ok(PartitionExpr {
                        rule_ir,
                        semantics,
                        node: PartitionNode::FixedFractionSplit { retained_fraction, branches: sorted },
                    })
                }
            },
        }
    }

    /// Releases along one branch the amount an exogenous forcing series supplies.
    pub fn exogenous_series(
        rule_ir: RuleIrVersion,
        semantics: NumericalSemanticsVersion,
        branch: TransferBranchId,
        series: ForcingRef,
    ) -> (r: Self)
        ensures
            r.node() == (PartitionNode::ExogenousSeries { branch, series }),
            r.spec_rule_ir() == rule_ir,
            r.spec_semantics() == semantics,
    {
        PartitionExpr { rule_ir, semantics, node: PartitionNode::ExogenousSeries { branch, series } }
    }

    /// Releases a constant fraction along one branch.
    pub fn constant_fraction_transfer(
        rule_ir: RuleIrVersion,
        semantics: NumericalSemanticsVersion,
        branch: TransferBranchId,
        fraction: Fraction,
    ) -> (r: Result<Self, PartitionExprError>)
        ensures
            r is Ok,
            r->Ok_0.node() == (PartitionNode::ConstantFractionTransfer { branch, fraction }),
            r->Ok_0.spec_rule_ir() == rule_ir,
            r->Ok_0.spec_semantics() == semantics,
    {
        Ok(PartitionExpr {
            rule_ir,
            semantics,
            node: PartitionNode::ConstantFractionTransfer { branch, fraction },
        })
    }

    /// The rule IR version.
    pub fn rule_ir_version(&self) -> (r: RuleIrVersion)
        ensures
            r == self.spec_rule_ir(),
    {
        self.rule_ir
    }

    /// The numerical semantics.
    pub fn numerical_semantics_version(&self) -> (r: NumericalSemanticsVersion)
        ensures
            r == self.spec_semantics(),
    {
        self.semantics
    }

    /// A borrowed view of the shape.
    pub fn view(&self) -> (r: PartitionExprView<'_>)
        ensures
            partition_view_of(r, self.node()),
    {
        match &self.node {
            PartitionNode::RetainAll => PartitionExprView::RetainAll,
            PartitionNode::ReleaseAll { branch } => PartitionExprView::ReleaseAll { branch },
            PartitionNode::FixedFractionSplit { retained_fraction, branches } => PartitionExprView::FixedFractionSplit {
                retained_fraction: *retained_fraction,
                branches: branches.as_slice(),
            },
            PartitionNode::ExogenousSeries { branch, series } => PartitionExprView::ExogenousSeries {
                branch,
                series,
            },
            PartitionNode::ConstantFractionTransfer { branch, fraction } => PartitionExprView::ConstantFractionTransfer {
                branch,
                fraction: *fraction,
            },
        }
    }
}

} // verus!
