//! Dispositions, and the structural checks made before anything is written to a log or folded:
//! that a transfer, or every allocation of a disposition, lies in the horizon and moves along a
//! declared connection between declared endpoints of the right kinds.

use vstd::prelude::*;

use crate::endpoints::FiniteCompartment;
use crate::identity::{CompartmentId, SubstanceId};
use crate::keyed::{keys_of, member_with_key, Keyed};
use crate::ledger::{
    transfer_endpoint_id, AuthoritativeLog, LogError, LogView, ReplayError, Transfer,
    TransferEndpoint, TransferView,
};
use crate::initial_stocks::same_stocks;
use crate::model_builder::{same_topology, topologies_equal, ArtifactView, ModelArtifact};
use crate::numerical_semantics::NonNegativeAmount;
use crate::substance_registry::SubstanceRegistry;
use crate::temporal::{HorizonView, RunHorizon, TimestepIndex};
use crate::topology::{Topology, TopologyView};

verus! {

/// One explicitly authored destination and amount in a substance partition.
#[derive(Debug, PartialEq)]
pub struct Allocation {
    target: TransferEndpoint,
    amount: NonNegativeAmount,
}

/// An endpoint as its kind (finite or not) and its identity.
pub open spec fn endpoint_view(e: TransferEndpoint) -> (bool, Seq<char>) {
    (e is Finite, transfer_endpoint_id(e))
}

impl Allocation {
    /// The destination.
    pub closed spec fn spec_target(&self) -> TransferEndpoint {
        self.target
    }

    /// The allocated amount.
    pub closed spec fn spec_amount(&self) -> NonNegativeAmount {
        self.amount
    }

    /// An allocation of `amount` to `target`.
    pub fn new(target: TransferEndpoint, amount: NonNegativeAmount) -> (r: Self)
        ensures
            r.spec_target() == target,
            r.spec_amount() == amount,
    {
        Allocation { target, amount }
    }

    /// The destination.
    pub fn target(&self) -> (r: &TransferEndpoint)
        ensures
            *r == self.spec_target(),
    {
        &self.target
    }

    /// The allocated amount.
    pub fn amount(&self) -> (r: NonNegativeAmount)
        ensures
            r == self.spec_amount(),
    {
        self.amount
    }
}

/// An explicit partition of one substance into a retained amount and allocations.
#[derive(Debug, PartialEq)]
pub struct SubstanceDisposition {
    substance: SubstanceId,
    retained: NonNegativeAmount,
    allocations: Vec<Allocation>,
}

impl SubstanceDisposition {
    /// The partitioned substance.
    pub closed spec fn spec_substance(&self) -> SubstanceId {
        self.substance
    }

    /// The retained amount.
    pub closed spec fn spec_retained(&self) -> NonNegativeAmount {
        self.retained
    }

    /// The allocations in authored order.
    pub closed spec fn spec_allocations(&self) -> Seq<Allocation> {
        self.allocations@
    }

    /// A partition of `substance` into `retained` and `allocations`.
    pub fn new(substance: SubstanceId, retained: NonNegativeAmount, allocations: Vec<Allocation>) -> (r: Self)
        ensures
            r.spec_substance() == substance,
            r.spec_retained() == retained,
            r.spec_allocations() == allocations@,
    {
        SubstanceDisposition { substance, retained, allocations }
    }

    /// The partitioned substance.
    pub fn substance(&self) -> (r: &SubstanceId)
        ensures
            *r == self.spec_substance(),
    {
        &self.substance
    }

    /// The retained amount.
    pub fn retained(&self) -> (r: NonNegativeAmount)
        ensures
            r == self.spec_retained(),
    {
        self.retained
    }

    /// The allocations in authored order.
    pub fn allocations(&self) -> (r: &[Allocation])
        ensures
            r@ == self.spec_allocations(),
    {
        self.allocations.as_slice()
    }
}

/// A rule's complete, explicitly authored disposition for one finite compartment and timestep.
#[derive(Debug, PartialEq)]
pub struct Disposition {
    timestep: TimestepIndex,
    source: FiniteCompartment,
    substances: Vec<SubstanceDisposition>,
}

/// The destinations of allocations, as kind and identity, in authored order.
pub open spec fn allocation_targets(a: Seq<Allocation>) -> Seq<(bool, Seq<char>)> {
    a.map_values(|x: Allocation| endpoint_view(x.spec_target()))
}

/// The destinations of every allocation of every substance entry, entries in authored order
/// and allocations in authored order within each.
pub open spec fn disposition_targets(subs: Seq<SubstanceDisposition>) -> Seq<(bool, Seq<char>)>
    decreases subs.len(),
{
    if subs.len() == 0 {
        seq![]
    } else {
        disposition_targets(subs.drop_last()) + allocation_targets(subs.last().spec_allocations())
    }
}

impl Disposition {
    /// The timestep.
    pub closed spec fn spec_timestep(&self) -> TimestepIndex {
        self.timestep
    }

    /// The finite source compartment.
    pub closed spec fn spec_source(&self) -> FiniteCompartment {
        self.source
    }

    /// The substance entries in authored order.
    pub closed spec fn spec_substances(&self) -> Seq<SubstanceDisposition> {
        self.substances@
    }

    /// A disposition of `source` at `timestep`.
    pub fn new(timestep: TimestepIndex, source: FiniteCompartment, substances: Vec<SubstanceDisposition>) -> (r: Self)
        ensures
            r.spec_timestep() == timestep,
            r.spec_source() == source,
            r.spec_substances() == substances@,
    {
        Disposition { timestep, source, substances }
    }

    /// The timestep.
    pub fn timestep(&self) -> (r: TimestepIndex)
        ensures
            r == self.spec_timestep(),
    {
        self.timestep
    }

    /// The finite source compartment.
    pub fn source(&self) -> (r: &FiniteCompartment)
        ensures
            *r == self.spec_source(),
    {
        &self.source
    }

    /// The substance entries in authored order.
    pub fn substances(&self) -> (r: &[SubstanceDisposition])
        ensures
            r@ == self.spec_substances(),
    {
        self.substances.as_slice()
    }
}

/// Why a transfer or an allocation cannot be recorded, before any amount is looked at.
pub enum StructuralFailure {
    OutsideHorizon,
    UnknownEndpoint(Seq<char>),
    EndpointKindMismatch(Seq<char>),
    SelfTransfer(Seq<char>),
    UndeclaredConnection(Seq<char>, Seq<char>),
    RegistryMismatch,
}

/// The timestep lies in the inclusive horizon.
pub open spec fn in_horizon(h: HorizonView, timestep: TimestepIndex) -> bool {
    h.first <= timestep@ <= h.last
}

/// The endpoint `e` must be declared, with the kind it claims.
pub open spec fn endpoint_failure(t: TopologyView, e: (bool, Seq<char>)) -> Option<StructuralFailure> {
    match member_with_key(t.endpoints, seq![e.1]) {
        None => Some(StructuralFailure::UnknownEndpoint(e.1)),
        Some(x) => if (x is Finite) != e.0 {
            Some(StructuralFailure::EndpointKindMismatch(e.1))
        } else {
            None
        },
    }
}

/// A movement from `source` to `target` must join two distinct endpoints along a declared
/// connection.
pub open spec fn edge_failure(t: TopologyView, source: Seq<char>, target: Seq<char>) -> Option<StructuralFailure> {
    if target == source {
        Some(StructuralFailure::SelfTransfer(source))
    } else if !t.links.contains(seq![source, target]) {
        Some(StructuralFailure::UndeclaredConnection(source, target))
    } else {
        None
    }
}

/// The first structural failure of a transfer, in the order the checks are made: the horizon,
/// the source endpoint, the target endpoint, the connection, then the amounts' registry.
pub open spec fn transfer_failure(
    t: TopologyView,
    h: HorizonView,
    registry: Seq<Seq<char>>,
    tv: TransferView,
) -> Option<StructuralFailure> {
    if !in_horizon(h, tv.timestep) {
        Some(StructuralFailure::OutsideHorizon)
    } else if endpoint_failure(t, tv.source) is Some {
        endpoint_failure(t, tv.source)
    } else if endpoint_failure(t, tv.target) is Some {
        endpoint_failure(t, tv.target)
    } else if edge_failure(t, tv.source.1, tv.target.1) is Some {
        edge_failure(t, tv.source.1, tv.target.1)
    } else if tv.amounts.registry != registry {
        Some(StructuralFailure::RegistryMismatch)
    } else {
        None
    }
}

/// The failure of one allocation from `source`: its target endpoint, then the connection.
pub open spec fn allocation_failure(t: TopologyView, source: Seq<char>, target: (bool, Seq<char>)) -> Option<
    StructuralFailure,
> {
    if endpoint_failure(t, target) is Some {
        endpoint_failure(t, target)
    } else {
        edge_failure(t, source, target.1)
    }
}

/// The failure of the first failing allocation, in order.
pub open spec fn first_allocation_failure(
    t: TopologyView,
    source: Seq<char>,
    targets: Seq<(bool, Seq<char>)>,
) -> Option<StructuralFailure>
    decreases targets.len(),
{
    if targets.len() == 0 {
        None
    } else if allocation_failure(t, source, targets[0]) is Some {
        allocation_failure(t, source, targets[0])
    } else {
        first_allocation_failure(t, source, targets.drop_first())
    }
}

/// `e` is the replay error that reports failure `f` of a record at `timestep` against horizon
/// `h`.
pub open spec fn replay_error_reports(
    e: ReplayError,
    f: StructuralFailure,
    timestep: TimestepIndex,
    h: HorizonView,
) -> bool {
    match f {
        StructuralFailure::OutsideHorizon => (e matches ReplayError::TimestepOutsideHorizon {
            timestep: x,
            first,
            last,
        } && x == timestep && first@ == h.first && last@ == h.last),
        StructuralFailure::UnknownEndpoint(id) => (e matches ReplayError::UnknownEndpoint {
            compartment,
        } && compartment@ == id),
        StructuralFailure::EndpointKindMismatch(id) => (e matches ReplayError::EndpointKindMismatch {
            compartment,
        } && compartment@ == id),
        StructuralFailure::SelfTransfer(id) => (e matches ReplayError::SelfTransfer {
            compartment,
            timestep: x,
        } && compartment@ == id && x == timestep),
        StructuralFailure::UndeclaredConnection(s, d) => (e matches ReplayError::UndeclaredConnection {
            connection_source,
            target,
            timestep: x,
        } && connection_source@ == s && target@ == d && x == timestep),
        StructuralFailure::RegistryMismatch => e == (ReplayError::TransferRegistryMismatch {
            timestep,
        }),
    }
}

/// Failures of a disposition's transaction.
#[derive(Clone, Debug, Eq, PartialEq)]
pub enum TransactionError {
    /// Fires when no explicit disposition is authored for a registered substance.
    OmittedSubstance { compartment: CompartmentId, substance: SubstanceId, timestep: TimestepIndex },
    /// Fires when a disposition repeats a substance entry.
    DuplicateSubstance { compartment: CompartmentId, substance: SubstanceId, timestep: TimestepIndex },
    /// Fires when a disposition names a substance outside the artifact registry.
    UnregisteredSubstance { compartment: CompartmentId, substance: SubstanceId, timestep: TimestepIndex },
    /// Fires when a partition disposes more than the source currently holds.
    Overdraw {
        compartment: CompartmentId,
        substance: SubstanceId,
        timestep: TimestepIndex,
        available_bits: u64,
        requested_bits: u64,
    },
    /// Fires when a positive allocation is too small to debit the finite source exactly.
    IneffectiveDebit {
        compartment: CompartmentId,
        substance: SubstanceId,
        timestep: TimestepIndex,
        stock_bits: u64,
        amount_bits: u64,
    },
    /// Fires when an authored allocation is not an exact whole multiple of the declared quantum.
    NonQuantumAllocation {
        compartment: CompartmentId,
        substance: SubstanceId,
        timestep: TimestepIndex,
        amount_bits: u64,
        quantum_bits: u64,
    },
    /// Fires when explicit retention and allocations do not exactly cover available stock.
    IncompletePartition {
        compartment: CompartmentId,
        substance: SubstanceId,
        timestep: TimestepIndex,
        available_bits: u64,
        partitioned_bits: u64,
    },
    /// Fires when deterministic partition accumulation becomes non-finite.
    NonFinitePartition { compartment: CompartmentId, substance: SubstanceId, timestep: TimestepIndex },
    /// Fires when the authoritative fold cannot supply a registered finite stock coordinate.
    StockUnavailable { compartment: CompartmentId, substance: SubstanceId, timestep: TimestepIndex },
    /// Fires when committed fold arithmetic does not reproduce explicitly declared retention.
    RetainedMismatch {
        compartment: CompartmentId,
        substance: SubstanceId,
        timestep: TimestepIndex,
        declared_bits: u64,
        actual_bits: u64,
    },
    /// Fires when the append-only log boundary rejects a generated transfer.
    Log { source: LogError },
    /// Fires when the log prefix or the staged transfers fail replay.
    Replay { source: ReplayError },
}

/// The outcome of checking the context of a disposition at `timestep` from the finite
/// compartment `source`, with allocation targets `targets`, against `log`, topology `t` and
/// horizon `h`. The checks are made in this order, the first failure deciding: the log is not
/// sealed; the timestep is not earlier than the log's last transfer; it lies in the horizon;
/// the source is a declared finite compartment; then every allocation in order, its target
/// declared with its kind, distinct from the source and joined to it by a declared connection.
pub open spec fn context_outcome(
    log: LogView,
    t: TopologyView,
    h: HorizonView,
    timestep: TimestepIndex,
    source: Seq<char>,
    targets: Seq<(bool, Seq<char>)>,
    r: Result<(), TransactionError>,
) -> bool {
    if log.seal is Some {
        r == Err::<(), TransactionError>(TransactionError::Log { source: LogError::RecordAfterSeal })
    } else if log.transfers.len() > 0 && timestep@ < log.transfers.last().timestep@ {
        r == Err::<(), TransactionError>(
            TransactionError::Log {
                source: LogError::TimestepOrder { previous: log.transfers.last().timestep, next: timestep },
            },
        )
    } else if !in_horizon(h, timestep) {
        r matches Err(TransactionError::Replay { source: e }) && replay_error_reports(
            e,
            StructuralFailure::OutsideHorizon,
            timestep,
            h,
        )
    } else if endpoint_failure(t, (true, source)) is Some {
        r matches Err(TransactionError::Replay { source: e }) && replay_error_reports(
            e,
            endpoint_failure(t, (true, source))->0,
            timestep,
            h,
        )
    } else if first_allocation_failure(t, source, targets) is Some {
        r matches Err(TransactionError::Replay { source: e }) && replay_error_reports(
            e,
            first_allocation_failure(t, source, targets)->0,
            timestep,
            h,
        )
    } else {
        r is Ok
    }
}

/// Checks that `endpoint` is declared in the topology with the kind it claims.
fn check_endpoint(
    topology: &Topology,
    finite: bool,
    id: &CompartmentId,
    timestep: TimestepIndex,
    horizon: RunHorizon,
) -> (r: Result<(), ReplayError>)
    ensures
        r is Ok <==> endpoint_failure(topology@, (finite, id@)) is None,
        r matches Err(e) ==> replay_error_reports(
            e,
            endpoint_failure(topology@, (finite, id@))->0,
            timestep,
            horizon@,
        ),
{
    match topology.endpoint(id) {
        None => Err(ReplayError::UnknownEndpoint { compartment: id.clone() }),
        Some(e) => {
            if e.is_finite() != finite {
                Err(ReplayError::EndpointKindMismatch { compartment: id.clone() })
            } else {
                Ok(())
            }
        },
    }
}

/// Whether the topology declares a connection from `source` to `target`.
fn connected(topology: &Topology, source: &CompartmentId, target: &CompartmentId) -> (r: bool)
    ensures
        r == topology@.links.contains(seq![source@, target@]),
{
    let connections = topology.connections();
    let mut i: usize = 0;
    while i < connections.len()
        invariant
            i <= connections@.len(),
            keys_of(connections@) == topology@.links,
            forall|k: int| 0 <= k < i ==> #[trigger] keys_of(connections@)[k] != seq![source@, target@],
        decreases connections.len() - i,
    {
        let c = &connections[i];
        if c.source() == source && c.target() == target {
            proof {
                assert(keys_of(connections@)[i as int] == connections@[i as int].key());
                assert(keys_of(connections@)[i as int] =~= seq![source@, target@]);
            }
            return true;
        }
        proof {
            assert(keys_of(connections@)[i as int] == seq![connections@[i as int]@.0, connections@[i as int]@.1]);
            if keys_of(connections@)[i as int] == seq![source@, target@] {
                assert(keys_of(connections@)[i as int][0] == source@);
                assert(keys_of(connections@)[i as int][1] == target@);
            }
        }
        i = i + 1;
    }
    false
}

/// Checks a movement from `source` to `target`: distinct endpoints joined by a declared
/// connection.
fn check_edge(
    topology: &Topology,
    source: &CompartmentId,
    target: &CompartmentId,
    timestep: TimestepIndex,
    horizon: RunHorizon,
) -> (r: Result<(), ReplayError>)
    ensures
        r is Ok <==> edge_failure(topology@, source@, target@) is None,
        r matches Err(e) ==> replay_error_reports(
            e,
            edge_failure(topology@, source@, target@)->0,
            timestep,
            horizon@,
        ),
{
    if target == source {
        return Err(ReplayError::SelfTransfer { compartment: target.clone(), timestep });
    }
    if !connected(topology, source, target) {
        return Err(
            ReplayError::UndeclaredConnection {
                connection_source: source.clone(),
                target: target.clone(),
                timestep,
            },
        );
    }
    Ok(())
}

/// The structural checks made on a transfer before its amounts are folded: it lies in the
/// horizon, both endpoints are declared with the kinds they claim, they are distinct and joined
/// by a declared connection, and its amounts are bound to `registry`. The first failing check
/// decides the error.
pub fn validate_transfer(
    transfer: &Transfer,
    topology: &Topology,
    horizon: RunHorizon,
    registry: &SubstanceRegistry,
) -> (r: Result<(), ReplayError>)
    ensures
        r is Ok <==> transfer_failure(topology@, horizon@, registry@, transfer@) is None,
        r matches Err(e) ==> replay_error_reports(
            e,
            transfer_failure(topology@, horizon@, registry@, transfer@)->0,
            transfer@.timestep,
            horizon@,
        ),
{
    let timestep = transfer.timestep();
    if !horizon.contains(timestep) {
        return Err(
            ReplayError::TimestepOutsideHorizon {
                timestep,
                first: horizon.first(),
                last: horizon.last(),
            },
        );
    }
    let source = transfer.source();
    let target = transfer.target();
    check_endpoint(topology, source.is_finite(), source.id(), timestep, horizon)?;
    check_endpoint(topology, target.is_finite(), target.id(), timestep, horizon)?;
    check_edge(topology, source.id(), target.id(), timestep, horizon)?;
    if !crate::initial_stocks::same_registry(transfer.amounts().registry(), registry) {
        return Err(ReplayError::TransferRegistryMismatch { timestep });
    }
    Ok(())
}

proof fn lemma_first_failure_concat(
    t: TopologyView,
    source: Seq<char>,
    a: Seq<(bool, Seq<char>)>,
    b: Seq<(bool, Seq<char>)>,
)
    ensures
        first_allocation_failure(t, source, a + b) == if first_allocation_failure(t, source, a) is Some {
            first_allocation_failure(t, source, a)
        } else {
            first_allocation_failure(t, source, b)
        },
    decreases a.len(),
{
    if a.len() == 0 {
        assert(a + b =~= b);
    } else {
        assert((a + b)[0] == a[0]);
        assert((a + b).drop_first() =~= a.drop_first() + b);
        lemma_first_failure_concat(t, source, a.drop_first(), b);
    }
}

proof fn lemma_targets_concat(a: Seq<SubstanceDisposition>, b: Seq<SubstanceDisposition>)
    ensures
        disposition_targets(a + b) == disposition_targets(a) + disposition_targets(b),
    decreases b.len(),
{
    if b.len() == 0 {
        assert(a + b =~= a);
        assert(disposition_targets(a) + disposition_targets(b) =~= disposition_targets(a));
    } else {
        assert((a + b).drop_last() =~= a + b.drop_last());
        assert((a + b).last() == b.last());
        lemma_targets_concat(a, b.drop_last());
        assert(disposition_targets(a + b) =~= disposition_targets(a) + disposition_targets(b));
    }
}

/// The allocations of entry `i` come right after those of the entries before it, and the ones
/// after it follow.
proof fn lemma_targets_split(subs: Seq<SubstanceDisposition>, i: int)
    requires
        0 <= i < subs.len(),
    ensures
        disposition_targets(subs.take(i + 1)) == disposition_targets(subs.take(i)) + allocation_targets(
            subs[i].spec_allocations(),
        ),
        disposition_targets(subs) == disposition_targets(subs.take(i + 1)) + disposition_targets(
            subs.skip(i + 1),
        ),
{
    assert(subs.take(i + 1).drop_last() =~= subs.take(i));
    assert(subs.take(i + 1).last() == subs[i]);
    assert(subs =~= subs.take(i + 1) + subs.skip(i + 1));
    lemma_targets_concat(subs.take(i + 1), subs.skip(i + 1));
}

/// Checks the context of a disposition before any of its transfers is staged: the log is not
/// sealed, the timestep is not earlier than the log's last transfer and lies in the horizon,
/// the source is a declared finite compartment, and every allocation, entries and allocations
/// in authored order, goes to a declared endpoint of its kind, distinct from the source, along
/// a declared connection. The first failing check decides the error.
pub fn validate_transaction_context(
    log: &AuthoritativeLog,
    artifact: &ModelArtifact,
    disposition: &Disposition,
) -> (r: Result<(), TransactionError>)
    ensures
        context_outcome(
            log@,
            artifact@.topology,
            artifact@.horizon,
            disposition.spec_timestep(),
            disposition.spec_source()@,
            disposition_targets(disposition.spec_substances()),
            r,
        ),
{
    let topology = artifact.topology();
    let horizon = artifact.horizon();
    let timestep = disposition.timestep();
    if log.is_sealed() {
        return Err(TransactionError::Log { source: LogError::RecordAfterSeal });
    }
    let transfers = log.transfers();
    if transfers.len() > 0 {
        let previous = transfers[transfers.len() - 1].timestep();
        proof {
            assert(crate::ledger::transfer_views(transfers@)[transfers@.len() - 1] == transfers@[transfers@.len() - 1]@);
        }
        if timestep.value() < previous.value() {
            return Err(
                TransactionError::Log { source: LogError::TimestepOrder { previous, next: timestep } },
            );
        }
    }
    if !horizon.contains(timestep) {
        return Err(
            TransactionError::Replay {
                source: ReplayError::TimestepOutsideHorizon {
                    timestep,
                    first: horizon.first(),
                    last: horizon.last(),
                },
            },
        );
    }
    let source = disposition.source().id();
    match check_endpoint(topology, true, source, timestep, horizon) {
        Err(e) => {
            return Err(TransactionError::Replay { source: e });
        },
        Ok(()) => {},
    }
    let subs = disposition.substances();
    let ghost t = topology@;
    let ghost src = source@;
    let mut i: usize = 0;
    while i < subs.len()
        invariant
            i <= subs@.len(),
            subs@ == disposition.spec_substances(),
            t == topology@,
            src == source@,
            first_allocation_failure(t, src, disposition_targets(subs@.take(i as int))) is None,
            log@.seal is None,
            !(log@.transfers.len() > 0 && timestep@ < log@.transfers.last().timestep@),
            in_horizon(horizon@, timestep),
            endpoint_failure(t, (true, src)) is None,
            timestep == disposition.spec_timestep(),
            src == disposition.spec_source()@,
            topology@ == artifact@.topology,
            horizon@ == artifact@.horizon,
        decreases subs.len() - i,
    {
        let allocations = subs[i].allocations();
        let ghost at = allocation_targets(allocations@);
        proof {
            lemma_targets_split(subs@, i as int);
        }
        let mut j: usize = 0;
        while j < allocations.len()
            invariant
                j <= allocations@.len(),
                at == allocation_targets(allocations@),
                i < subs@.len(),
                allocations@ == subs@[i as int].spec_allocations(),
                subs@ == disposition.spec_substances(),
                t == topology@,
                src == source@,
                first_allocation_failure(t, src, disposition_targets(subs@.take(i as int))) is None,
                first_allocation_failure(t, src, at.take(j as int)) is None,
                log@.seal is None,
                !(log@.transfers.len() > 0 && timestep@ < log@.transfers.last().timestep@),
                in_horizon(horizon@, timestep),
                endpoint_failure(t, (true, src)) is None,
                timestep == disposition.spec_timestep(),
                src == disposition.spec_source()@,
                topology@ == artifact@.topology,
                horizon@ == artifact@.horizon,
            decreases allocations.len() - j,
        {
            let target = allocations[j].target();
            let checked = match check_endpoint(topology, target.is_finite(), target.id(), timestep, horizon) {
                Err(e) => Err(e),
                Ok(()) => check_edge(topology, source, target.id(), timestep, horizon),
            };
            proof {
                assert(at[j as int] == endpoint_view(*target));
                assert(checked is Ok <==> allocation_failure(t, src, at[j as int]) is None);
            }
            match checked {
                Err(e) => {
                    proof {
                        assert(replay_error_reports(e, allocation_failure(t, src, at[j as int])->0, timestep, horizon@));
                        assert(at =~= at.take(j as int) + at.skip(j as int));
                        lemma_first_failure_concat(t, src, at.take(j as int), at.skip(j as int));
                        assert(at.skip(j as int)[0] == at[j as int]);
                        assert(first_allocation_failure(t, src, at.skip(j as int)) == allocation_failure(t, src, at[j as int]));
                        assert(first_allocation_failure(t, src, at) == allocation_failure(t, src, at[j as int]));
                        let whole = disposition_targets(subs@);
                        let before = disposition_targets(subs@.take(i as int));
                        let after = disposition_targets(subs@.skip(i + 1));
                        lemma_targets_split(subs@, i as int);
                        assert(whole =~= before + (at + after));
                        lemma_first_failure_concat(t, src, before, at + after);
                        lemma_first_failure_concat(t, src, at, after);
                        assert(first_allocation_failure(t, src, whole) == allocation_failure(t, src, at[j as int]));
                    }
                    return Err(TransactionError::Replay { source: e });
                },
                Ok(()) => {},
            }
            proof {
                assert(at.take(j + 1) =~= at.take(j as int) + seq![at[j as int]]);
                lemma_first_failure_concat(t, src, at.take(j as int), seq![at[j as int]]);
                assert(seq![at[j as int]].drop_first() =~= Seq::<(bool, Seq<char>)>::empty());
                assert(first_allocation_failure(t, src, Seq::<(bool, Seq<char>)>::empty()) is None);
                assert(first_allocation_failure(t, src, seq![at[j as int]]) is None);
            }
            j = j + 1;
        }
        proof {
            lemma_targets_split(subs@, i as int);
            assert(at.take(j as int) =~= at);
            lemma_first_failure_concat(t, src, disposition_targets(subs@.take(i as int)), at);
        }
        i = i + 1;
    }
    proof {
        assert(subs@.take(i as int) =~= subs@);
    }
    Ok(())
}

/// The first failing transfer, in log order, with its failure and timestep.
pub open spec fn first_transfer_failure(
    t: TopologyView,
    h: HorizonView,
    registry: Seq<Seq<char>>,
    ts: Seq<TransferView>,
) -> Option<(StructuralFailure, TimestepIndex)>
    decreases ts.len(),
{
    if ts.len() == 0 {
        None
    } else if transfer_failure(t, h, registry, ts[0]) is Some {
        Some((transfer_failure(t, h, registry, ts[0])->0, ts[0].timestep))
    } else {
        first_transfer_failure(t, h, registry, ts.drop_first())
    }
}

/// Genesis binds the artifact's numerical semantics, topology, registry and initial stocks.
pub open spec fn genesis_binds(log: LogView, a: ArtifactView) -> bool {
    &&& log.genesis.numerical_semantics == a.versions.spec_numerical_semantics()
    &&& same_topology(log.genesis.initial_stocks.topology, a.topology)
    &&& log.genesis.initial_stocks.registry == a.registry
    &&& log.genesis.initial_stocks.stocks == a.initial_stocks.stocks
}

/// The outcome of the replay checks of `log` against the artifact `a`, before any amount is
/// folded. They are made in this order, the first failure deciding: Genesis' numerical
/// semantics, topology, registry and initial stocks are the artifact's; a seal names the
/// horizon's last timestep; an unsealed log's last transfer lies in the horizon; then each
/// transfer in log order passes the transfer checks.
pub open spec fn replay_checks_outcome(log: LogView, a: ArtifactView, r: Result<(), ReplayError>) -> bool {
    let g = log.genesis;
    let t = a.topology;
    let h = a.horizon;
    let registry = a.registry;
    if g.numerical_semantics != a.versions.spec_numerical_semantics() {
        r == Err::<(), ReplayError>(ReplayError::NumericalSemanticsMismatch)
    } else if !same_topology(g.initial_stocks.topology, t) {
        r == Err::<(), ReplayError>(ReplayError::GenesisTopologyMismatch)
    } else if g.initial_stocks.registry != registry {
        r == Err::<(), ReplayError>(ReplayError::GenesisRegistryMismatch)
    } else if g.initial_stocks.stocks != a.initial_stocks.stocks {
        r == Err::<(), ReplayError>(ReplayError::GenesisStocksMismatch)
    } else if log.seal is Some && log.seal->0.spec_final_timestep()@ != h.last {
        r matches Err(ReplayError::SealFinalTimestep { declared, expected }) && declared
            == log.seal->0.spec_final_timestep() && expected@ == h.last
    } else if log.seal is None && log.transfers.len() > 0 && !in_horizon(
        h,
        log.transfers.last().timestep,
    ) {
        r matches Err(e) && replay_error_reports(
            e,
            StructuralFailure::OutsideHorizon,
            log.transfers.last().timestep,
            h,
        )
    } else if first_transfer_failure(t, h, registry, log.transfers) is Some {
        r matches Err(e) && replay_error_reports(
            e,
            (first_transfer_failure(t, h, registry, log.transfers)->0).0,
            (first_transfer_failure(t, h, registry, log.transfers)->0).1,
            h,
        )
    } else {
        r is Ok
    }
}

/// Replay binds Genesis to the artifact's own topology: whenever the replay checks pass, the
/// topology Genesis was written for has the artifact's endpoint identities, its connections
/// (each source and target, in order) and its topological order; and once the numerical
/// semantics agree, a Genesis whose connection list differs from the artifact's is answered
/// `GenesisTopologyMismatch`.
pub proof fn law_replay_binds_topology(log: LogView, a: ArtifactView, r: Result<(), ReplayError>)
    requires
        replay_checks_outcome(log, a, r),
    ensures
        r is Ok ==> log.genesis.initial_stocks.topology.links == a.topology.links
            && log.genesis.initial_stocks.topology.ids == a.topology.ids
            && log.genesis.initial_stocks.topology.order == a.topology.order,
        log.genesis.numerical_semantics == a.versions.spec_numerical_semantics()
            && log.genesis.initial_stocks.topology.links != a.topology.links ==> r == Err::<(), ReplayError>(
            ReplayError::GenesisTopologyMismatch,
        ),
{
}

proof fn lemma_first_transfer_failure_step(
    t: TopologyView,
    h: HorizonView,
    registry: Seq<Seq<char>>,
    ts: Seq<TransferView>,
    k: int,
)
    requires
        0 <= k < ts.len(),
        first_transfer_failure(t, h, registry, ts.take(k)) is None,
    ensures
        transfer_failure(t, h, registry, ts[k]) is Some ==> first_transfer_failure(t, h, registry, ts)
            == Some((transfer_failure(t, h, registry, ts[k])->0, ts[k].timestep)),
        transfer_failure(t, h, registry, ts[k]) is None ==> first_transfer_failure(
            t,
            h,
            registry,
            ts.take(k + 1),
        ) is None,
    decreases k,
{
    if k > 0 {
        assert(ts.take(k).drop_first() =~= ts.drop_first().take(k - 1));
        assert(ts.take(k)[0] == ts[0]);
        assert(ts.take(k + 1).drop_first() =~= ts.drop_first().take(k));
        assert(ts.take(k + 1)[0] == ts[0]);
        assert(transfer_failure(t, h, registry, ts[0]) is None);
        lemma_first_transfer_failure_step(t, h, registry, ts.drop_first(), k - 1);
    } else {
        assert(ts.take(1).drop_first() =~= Seq::<TransferView>::empty());
        assert(ts.take(1)[0] == ts[0]);
        assert(first_transfer_failure(t, h, registry, Seq::<TransferView>::empty()) is None);
    }
}

/// Genesis binds the artifact, and a seal names the horizon's last timestep.
pub open spec fn replay_binding_passes(log: LogView, a: ArtifactView) -> bool {
    &&& genesis_binds(log, a)
    &&& !(log.seal is Some && log.seal->0.spec_final_timestep()@ != a.horizon.last)
}

/// An unsealed log's last transfer lies outside the horizon.
pub open spec fn last_transfer_outside(log: LogView, h: HorizonView) -> bool {
    log.seal is None && log.transfers.len() > 0 && !in_horizon(h, log.transfers.last().timestep)
}

/// The binding checks of replay: Genesis' numerical semantics, topology, registry and initial
/// stocks are the artifact's, and a seal names the horizon's last timestep.
pub(crate) fn check_replay_binding(log: &AuthoritativeLog, artifact: &ModelArtifact) -> (r: Result<
    (),
    ReplayError,
>)
    ensures
        r is Ok <==> replay_binding_passes(log@, artifact@),
        r matches Err(e) ==> replay_checks_outcome(log@, artifact@, Err(e)),
{
    let topology = artifact.topology();
    let horizon = artifact.horizon();
    let registry = artifact.registry();
    let genesis = log.genesis();
    let stocks = genesis.initial_stocks();
    if genesis.numerical_semantics_version() != artifact.versions().numerical_semantics() {
        return Err(ReplayError::NumericalSemanticsMismatch);
    }
    if !topologies_equal(stocks.topology(), topology) {
        return Err(ReplayError::GenesisTopologyMismatch);
    }
    if !crate::initial_stocks::same_registry(stocks.registry(), registry) {
        return Err(ReplayError::GenesisRegistryMismatch);
    }
    if !same_stocks(stocks, artifact.initial_stocks()) {
        return Err(ReplayError::GenesisStocksMismatch);
    }
    match log.seal_record() {
        Some(seal) => {
            let declared = seal.final_timestep();
            let expected = horizon.last();
            if declared.value() != expected.value() {
                return Err(ReplayError::SealFinalTimestep { declared, expected });
            }
        },
        None => {},
    }
    Ok(())
}

/// Checks that an unsealed log's last transfer lies in the horizon.
pub(crate) fn check_last_transfer(log: &AuthoritativeLog, horizon: RunHorizon) -> (r: Result<
    (),
    ReplayError,
>)
    ensures
        r is Ok <==> !last_transfer_outside(log@, horizon@),
        r matches Err(e) ==> replay_error_reports(
            e,
            StructuralFailure::OutsideHorizon,
            log@.transfers.last().timestep,
            horizon@,
        ),
{
    let transfers = log.transfers();
    if !log.is_sealed() && transfers.len() > 0 {
        let last = transfers[transfers.len() - 1].timestep();
        proof {
            assert(crate::ledger::transfer_views(transfers@)[transfers@.len() - 1]
                == transfers@[transfers@.len() - 1]@);
        }
        if !horizon.contains(last) {
            return Err(
                ReplayError::TimestepOutsideHorizon {
                    timestep: last,
                    first: horizon.first(),
                    last: horizon.last(),
                },
            );
        }
    }
    Ok(())
}

/// The checks replay makes on a log against an artifact, apart from the model digest, before
/// and while it folds the transfers' amounts: Genesis binds the artifact's numerical semantics,
/// topology, registry and initial stocks; a seal names the horizon's last timestep; an unsealed
/// log's last transfer lies in the horizon; and each transfer, in log order, passes
/// [`validate_transfer`]. The first failing check decides the error. A seal's count and digest
/// need no check here: every log's seal authenticates its preceding records.
pub fn validate_replay(log: &AuthoritativeLog, artifact: &ModelArtifact) -> (r: Result<(), ReplayError>)
    ensures
        replay_checks_outcome(log@, artifact@, r),
{
    let topology = artifact.topology();
    let horizon = artifact.horizon();
    let registry = artifact.registry();
    check_replay_binding(log, artifact)?;
    let transfers = log.transfers();
    let ghost ts = log@.transfers;
    check_last_transfer(log, horizon)?;
    let mut k: usize = 0;
    while k < transfers.len()
        invariant
            k <= transfers@.len(),
            ts == log@.transfers,
            crate::ledger::transfer_views(transfers@) == ts,
            first_transfer_failure(topology@, horizon@, registry@, ts.take(k as int)) is None,
            genesis_binds(log@, artifact@),
            topology@ == artifact@.topology,
            horizon@ == artifact@.horizon,
            registry@ == artifact@.registry,
            !(log@.seal is Some && log@.seal->0.spec_final_timestep()@ != horizon@.last),
            !(log@.seal is None && log@.transfers.len() > 0 && !in_horizon(
                horizon@,
                log@.transfers.last().timestep,
            )),
        decreases transfers.len() - k,
    {
        let checked = validate_transfer(&transfers[k], topology, horizon, registry);
        proof {
            assert(ts[k as int] == transfers@[k as int]@);
            lemma_first_transfer_failure_step(topology@, horizon@, registry@, ts, k as int);
        }
        match checked {
            Err(e) => {
                return Err(e);
            },
            Ok(()) => {},
        }
        k = k + 1;
    }
    proof {
        assert(ts.take(k as int) =~= ts);
    }
    Ok(())
}

/// The identities of the substance entries, in authored order.
pub open spec fn entry_substances(subs: Seq<SubstanceDisposition>) -> Seq<Seq<char>> {
    subs.map_values(|e: SubstanceDisposition| e.spec_substance()@)
}

/// Entry `j` names a substance outside `registry`, or one an earlier entry names.
pub open spec fn entry_fails(registry: Seq<Seq<char>>, names: Seq<Seq<char>>, j: int) -> bool {
    !registry.contains(names[j]) || exists|i: int| 0 <= i < j && #[trigger] names[i] == names[j]
}

/// The outcome of checking that the entries of a disposition from `source` at `timestep` cover
/// `registry` exactly. The checks are made in this order, the first failure deciding: each
/// entry in authored order names a registered substance that no earlier entry names; then each
/// registered substance, in registry order, has an entry.
pub open spec fn coverage_outcome(
    registry: Seq<Seq<char>>,
    source: Seq<char>,
    timestep: TimestepIndex,
    subs: Seq<SubstanceDisposition>,
    r: Result<(), TransactionError>,
) -> bool {
    let names = entry_substances(subs);
    if exists|j: int| 0 <= j < subs.len() && #[trigger] entry_fails(registry, names, j) {
        exists|j: int|
            0 <= j < subs.len() && entry_fails(registry, names, j) && (forall|i: int|
                0 <= i < j ==> !#[trigger] entry_fails(registry, names, i)) && if !registry.contains(
                names[j],
            ) {
                r matches Err(TransactionError::UnregisteredSubstance { compartment, substance, timestep: t })
                    && compartment@ == source && substance == subs[j].spec_substance() && t == timestep
            } else {
                r matches Err(TransactionError::DuplicateSubstance { compartment, substance, timestep: t })
                    && compartment@ == source && substance == subs[j].spec_substance() && t == timestep
            }
    } else if exists|k: int| 0 <= k < registry.len() && !names.contains(#[trigger] registry[k]) {
        exists|k: int|
            0 <= k < registry.len() && !names.contains(registry[k]) && (forall|q: int|
                0 <= q < k ==> names.contains(#[trigger] registry[q])) && (r matches Err(
                TransactionError::OmittedSubstance { compartment, substance, timestep: t },
            ) && compartment@ == source && substance@ == registry[k] && t == timestep)
    } else {
        r is Ok
    }
}

/// Checks that the entries of a disposition cover the artifact's registry exactly: every entry,
/// in authored order, names a registered substance that no earlier entry names, and every
/// registered substance, in registry order, has an entry. These are the coverage checks a
/// commit makes before it looks at any amount.
/// The entries of a disposition name registered substances, none twice.
pub open spec fn entries_registered(registry: Seq<Seq<char>>, subs: Seq<SubstanceDisposition>) -> bool {
    forall|j: int| 0 <= j < subs.len() ==> !#[trigger] entry_fails(registry, entry_substances(subs), j)
}

/// The first phase of the coverage checks: every entry, in authored order, names a registered
/// substance that no earlier entry names.
pub(crate) fn check_entry_substances(artifact: &ModelArtifact, disposition: &Disposition) -> (r: Result<
    (),
    TransactionError,
>)
    ensures
        r is Ok <==> entries_registered(artifact@.registry, disposition.spec_substances()),
        r matches Err(e) ==> coverage_outcome(
            artifact@.registry,
            disposition.spec_source()@,
            disposition.spec_timestep(),
            disposition.spec_substances(),
            Err(e),
        ),
{
    let registry = artifact.registry();
    let subs = disposition.substances();
    let timestep = disposition.timestep();
    let source = disposition.source().id();
    let ghost names = entry_substances(subs@);
    let ghost reg = registry@;
    let mut j: usize = 0;
    while j < subs.len()
        invariant
            j <= subs@.len(),
            subs@ == disposition.spec_substances(),
            names == entry_substances(subs@),
            reg == registry@,
            reg == artifact@.registry,
            source@ == disposition.spec_source()@,
            timestep == disposition.spec_timestep(),
            forall|i: int| 0 <= i < j ==> !#[trigger] entry_fails(reg, names, i),
        decreases subs.len() - j,
    {
        let substance = subs[j].substance();
        proof {
            assert(names[j as int] == substance@);
        }
        if !registry.contains(substance) {
            proof {
                assert(entry_fails(reg, names, j as int));
            }
            return Err(
                TransactionError::UnregisteredSubstance {
                    compartment: source.clone(),
                    substance: substance.clone(),
                    timestep,
                },
            );
        }
        let mut i: usize = 0;
        while i < j
            invariant
                i <= j < subs@.len(),
                subs@ == disposition.spec_substances(),
                names == entry_substances(subs@),
                names[j as int] == substance@,
                *substance == subs@[j as int].spec_substance(),
                reg.contains(names[j as int]),
                reg == artifact@.registry,
                source@ == disposition.spec_source()@,
                timestep == disposition.spec_timestep(),
                forall|q: int| 0 <= q < j ==> !#[trigger] entry_fails(reg, names, q),
                forall|q: int| 0 <= q < i ==> #[trigger] names[q] != names[j as int],
            decreases j - i,
        {
            if subs[i].substance() == substance {
                proof {
                    assert(names[i as int] == names[j as int]);
                    assert(entry_fails(reg, names, j as int));
                }
                return Err(
                    TransactionError::DuplicateSubstance {
                        compartment: source.clone(),
                        substance: substance.clone(),
                        timestep,
                    },
                );
            }
            i = i + 1;
        }
        proof {
            assert(!entry_fails(reg, names, j as int));
        }
        j = j + 1;
    }
    Ok(())
}

pub fn check_substance_coverage(artifact: &ModelArtifact, disposition: &Disposition) -> (r: Result<
    (),
    TransactionError,
>)
    ensures
        coverage_outcome(
            artifact@.registry,
            disposition.spec_source()@,
            disposition.spec_timestep(),
            disposition.spec_substances(),
            r,
        ),
{
    let registry = artifact.registry();
    let subs = disposition.substances();
    let timestep = disposition.timestep();
    let source = disposition.source().id();
    let ghost names = entry_substances(subs@);
    let ghost reg = registry@;
    check_entry_substances(artifact, disposition)?;
    let ids = registry.iter();
    let mut k: usize = 0;
    while k < ids.len()
        invariant
            k <= ids@.len(),
            crate::substance_registry::substance_texts(ids@) == reg,
            reg == registry@,
            reg == artifact@.registry,
            source@ == disposition.spec_source()@,
            timestep == disposition.spec_timestep(),
            subs@ == disposition.spec_substances(),
            names == entry_substances(subs@),
            forall|i: int| 0 <= i < subs@.len() ==> !#[trigger] entry_fails(reg, names, i),
            forall|q: int| 0 <= q < k ==> names.contains(#[trigger] reg[q]),
        decreases ids.len() - k,
    {
        let mut found = false;
        let mut i: usize = 0;
        while i < subs.len()
            invariant
                i <= subs@.len(),
                k < ids@.len(),
                crate::substance_registry::substance_texts(ids@) == reg,
                subs@ == disposition.spec_substances(),
                names == entry_substances(subs@),
                found ==> names.contains(reg[k as int]),
                !found ==> forall|q: int| 0 <= q < i ==> #[trigger] names[q] != reg[k as int],
            decreases subs.len() - i,
        {
            if subs[i].substance() == &ids[k] {
                proof {
                    assert(names[i as int] == reg[k as int]);
                }
                found = true;
            }
            i = i + 1;
        }
        if !found {
            proof {
                assert(!names.contains(reg[k as int]));
                assert(!exists|j: int| 0 <= j < subs@.len() && #[trigger] entry_fails(reg, names, j));
            }
            return Err(
                TransactionError::OmittedSubstance {
                    compartment: source.clone(),
                    substance: ids[k].clone(),
                    timestep,
                },
            );
        }
        k = k + 1;
    }
    Ok(())
}

} // verus!
