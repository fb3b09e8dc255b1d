use incidence_core::disposition::{
    check_substance_coverage, validate_replay, validate_transaction_context, validate_transfer,
    Allocation, Disposition, SubstanceDisposition, TransactionError,
};
use incidence_core::commit::{commit_disposition, CommitError};
use incidence_core::endpoints::{BoundaryAccount, FiniteCompartment};
use incidence_core::stock_counts::{replay_counts, CountFoldError};
use incidence_core::identity::{CompartmentId, SubstanceId};
use incidence_core::initial_stocks::InitialStocks;
use incidence_core::ledger::{
    AuthoritativeLog, Genesis, LogError, ReplayError, RunId, Transfer, TransferEndpoint,
};
use incidence_core::model_artifact::{ModelDigest, UnitId};
use incidence_core::model_builder::{ModelArtifact, ModelArtifactBuilder};
use incidence_core::projection_set::ProjectionSet;
use incidence_core::numerical_semantics::{NonNegativeAmount, NumericalSemanticsVersion};
use incidence_core::sparse_substance_vector::SparseSubstanceVector;
use incidence_core::substance_registry::SubstanceRegistry;
use incidence_core::temporal::{
    CalendarInstant, CalendarOrigin, FixedStepCalendar, RunHorizon, TimestepDuration, TimestepIndex,
};
use incidence_core::topology::{DirectedConnection, Topology, TopologyEndpoint};

fn cid(value: &str) -> CompartmentId {
    CompartmentId::parse(value).expect("fixture identity must be valid")
}

fn sid(value: &str) -> SubstanceId {
    SubstanceId::parse(value).expect("fixture identity must be valid")
}

fn ts(value: u64) -> TimestepIndex {
    TimestepIndex::new(value)
}

fn finite(id: &str) -> TransferEndpoint {
    TransferEndpoint::Finite(FiniteCompartment::new(cid(id)))
}

fn boundary(id: &str) -> TransferEndpoint {
    TransferEndpoint::Boundary(BoundaryAccount::new(cid(id)))
}

fn amount(value: f64) -> NonNegativeAmount {
    NonNegativeAmount::from_bits(value.to_bits()).expect("valid amount")
}

/// rain (boundary) -> lake (finite) -> river (finite) -> sea (boundary); lake also -> sea.
fn topology() -> Topology {
    Topology::new(
        vec![
            TopologyEndpoint::Boundary(BoundaryAccount::new(cid("rain"))),
            TopologyEndpoint::Finite(FiniteCompartment::new(cid("lake"))),
            TopologyEndpoint::Finite(FiniteCompartment::new(cid("river"))),
            TopologyEndpoint::Boundary(BoundaryAccount::new(cid("sea"))),
        ],
        vec![
            DirectedConnection::new(cid("rain"), cid("lake")),
            DirectedConnection::new(cid("lake"), cid("river")),
            DirectedConnection::new(cid("river"), cid("sea")),
            DirectedConnection::new(cid("lake"), cid("sea")),
        ],
    )
    .expect("fixture topology")
}

fn registry() -> SubstanceRegistry {
    SubstanceRegistry::new(vec![sid("salt"), sid("water")]).expect("fixture registry")
}

fn horizon() -> RunHorizon {
    RunHorizon::new(ts(1), ts(5)).expect("fixture horizon")
}

fn stocks() -> InitialStocks {
    let topology = topology();
    let registry = registry();
    let lake = SparseSubstanceVector::new(&registry, vec![(sid("water"), amount(3.0))]).expect("valid");
    InitialStocks::new(&topology, &registry, vec![(cid("lake"), lake)]).expect("valid stocks")
}

fn artifact() -> ModelArtifact {
    let calendar = FixedStepCalendar::new(
        CalendarOrigin::new(CalendarInstant::from_unix_seconds(0)),
        TimestepDuration::from_seconds(60).expect("positive"),
    );
    ModelArtifactBuilder::new(topology(), registry(), stocks(), calendar, horizon())
        .with_projections(ProjectionSet::new(vec![], vec![]).expect("empty set"))
        .with_units(vec![
            (sid("water"), UnitId::parse("L").expect("valid unit")),
            (sid("salt"), UnitId::parse("kg").expect("valid unit")),
        ])
        .build()
        .expect("consistent model")
}

fn genesis(semantics: NumericalSemanticsVersion, stocks: InitialStocks) -> Genesis {
    Genesis::new(RunId::from_bytes([1; 16]), ModelDigest::from_bytes([2; 32]), semantics, stocks)
}

fn log() -> AuthoritativeLog {
    AuthoritativeLog::new(genesis(NumericalSemanticsVersion::V1, stocks()))
}

fn transfer(at: u64, source: TransferEndpoint, target: TransferEndpoint) -> Transfer {
    Transfer::new(
        ts(at),
        source,
        target,
        SparseSubstanceVector::new(&registry(), vec![(sid("water"), amount(1.0))]).expect("valid"),
    )
}

fn disposition(at: u64, source: &str, targets: Vec<TransferEndpoint>) -> Disposition {
    let allocations = targets.into_iter().map(|t| Allocation::new(t, amount(0.5))).collect();
    Disposition::new(
        ts(at),
        FiniteCompartment::new(cid(source)),
        vec![SubstanceDisposition::new(sid("water"), amount(0.0), allocations)],
    )
}

fn context(log: &AuthoritativeLog, d: &Disposition) -> Result<(), TransactionError> {
    validate_transaction_context(log, &artifact(), d)
}

#[test]
fn disposition_accessors_return_what_was_authored() {
    let d = disposition(2, "lake", vec![finite("river"), boundary("sea")]);
    assert_eq!(d.timestep(), ts(2));
    assert_eq!(d.source().id().as_str(), "lake");
    assert_eq!(d.substances().len(), 1);
    let entry = &d.substances()[0];
    assert_eq!(entry.substance().as_str(), "water");
    assert_eq!(entry.retained(), amount(0.0));
    assert_eq!(entry.allocations().len(), 2);
    assert_eq!(entry.allocations()[1].target(), &boundary("sea"));
    assert_eq!(entry.allocations()[1].amount(), amount(0.5));
}

#[test]
fn a_well_formed_disposition_passes_its_context() {
    let d = disposition(2, "lake", vec![finite("river"), boundary("sea")]);
    assert_eq!(context(&log(), &d), Ok(()));
}

#[test]
fn a_sealed_log_refuses_every_disposition() {
    let mut sealed = log();
    sealed.seal(ts(5)).expect("seal");
    let d = disposition(2, "lake", vec![finite("river")]);
    assert_eq!(context(&sealed, &d), Err(TransactionError::Log { source: LogError::RecordAfterSeal }));
}

#[test]
fn a_disposition_earlier_than_the_last_transfer_is_refused() {
    let mut log = log();
    log.append(transfer(3, boundary("rain"), finite("lake"))).expect("append");
    let d = disposition(2, "lake", vec![finite("river")]);
    assert_eq!(
        context(&log, &d),
        Err(TransactionError::Log { source: LogError::TimestepOrder { previous: ts(3), next: ts(2) } })
    );
}

#[test]
fn a_disposition_outside_the_horizon_is_refused() {
    let d = disposition(6, "lake", vec![finite("river")]);
    assert_eq!(
        context(&log(), &d),
        Err(TransactionError::Replay {
            source: ReplayError::TimestepOutsideHorizon { timestep: ts(6), first: ts(1), last: ts(5) }
        })
    );
}

#[test]
fn a_disposition_needs_a_declared_finite_source() {
    let unknown = disposition(2, "pond", vec![finite("river")]);
    assert_eq!(
        context(&log(), &unknown),
        Err(TransactionError::Replay { source: ReplayError::UnknownEndpoint { compartment: cid("pond") } })
    );
    let boundary_source = disposition(2, "rain", vec![finite("lake")]);
    assert_eq!(
        context(&log(), &boundary_source),
        Err(TransactionError::Replay {
            source: ReplayError::EndpointKindMismatch { compartment: cid("rain") }
        })
    );
}

#[test]
fn the_first_failing_allocation_decides_the_error() {
    let unknown = disposition(2, "lake", vec![finite("river"), finite("pond"), boundary("lake")]);
    assert_eq!(
        context(&log(), &unknown),
        Err(TransactionError::Replay { source: ReplayError::UnknownEndpoint { compartment: cid("pond") } })
    );
    let wrong_kind = disposition(2, "lake", vec![finite("sea")]);
    assert_eq!(
        context(&log(), &wrong_kind),
        Err(TransactionError::Replay {
            source: ReplayError::EndpointKindMismatch { compartment: cid("sea") }
        })
    );
    let to_itself = disposition(2, "lake", vec![finite("lake")]);
    assert_eq!(
        context(&log(), &to_itself),
        Err(TransactionError::Replay {
            source: ReplayError::SelfTransfer { compartment: cid("lake"), timestep: ts(2) }
        })
    );
    let undeclared = disposition(2, "river", vec![finite("lake")]);
    assert_eq!(
        context(&log(), &undeclared),
        Err(TransactionError::Replay {
            source: ReplayError::UndeclaredConnection {
                connection_source: cid("river"),
                target: cid("lake"),
                timestep: ts(2),
            }
        })
    );
}

#[test]
fn transfers_are_checked_in_order_of_the_checks() {
    let topology = topology();
    let registry = registry();
    let check = |t: &Transfer| validate_transfer(t, &topology, horizon(), &registry);
    assert_eq!(check(&transfer(2, boundary("rain"), finite("lake"))), Ok(()));
    assert_eq!(
        check(&transfer(0, boundary("nowhere"), finite("lake"))),
        Err(ReplayError::TimestepOutsideHorizon { timestep: ts(0), first: ts(1), last: ts(5) })
    );
    assert_eq!(
        check(&transfer(2, boundary("nowhere"), finite("lake"))),
        Err(ReplayError::UnknownEndpoint { compartment: cid("nowhere") })
    );
    assert_eq!(
        check(&transfer(2, boundary("rain"), boundary("lake"))),
        Err(ReplayError::EndpointKindMismatch { compartment: cid("lake") })
    );
    assert_eq!(
        check(&transfer(2, finite("lake"), finite("lake"))),
        Err(ReplayError::SelfTransfer { compartment: cid("lake"), timestep: ts(2) })
    );
    assert_eq!(
        check(&transfer(2, boundary("rain"), boundary("sea"))),
        Err(ReplayError::UndeclaredConnection {
            connection_source: cid("rain"),
            target: cid("sea"),
            timestep: ts(2),
        })
    );
    let other = SubstanceRegistry::new(vec![sid("salt")]).expect("registry");
    let salty = Transfer::new(
        ts(2),
        boundary("rain"),
        finite("lake"),
        SparseSubstanceVector::new(&other, vec![(sid("salt"), amount(1.0))]).expect("valid"),
    );
    assert_eq!(check(&salty), Err(ReplayError::TransferRegistryMismatch { timestep: ts(2) }));
}

#[test]
fn replay_checks_genesis_binding_first() {
    let artifact = artifact();
    let check = |log: &AuthoritativeLog| validate_replay(log, &artifact);
    assert_eq!(check(&log()), Ok(()));
    let other_stocks = InitialStocks::new(&topology(), &registry(), vec![]).expect("no stocks");
    assert_eq!(
        check(&AuthoritativeLog::new(genesis(NumericalSemanticsVersion::V1, other_stocks))),
        Err(ReplayError::GenesisStocksMismatch)
    );
    let other_registry = SubstanceRegistry::new(vec![sid("salt")]).expect("registry");
    let rebound = InitialStocks::new(&topology(), &other_registry, vec![]).expect("no stocks");
    assert_eq!(
        check(&AuthoritativeLog::new(genesis(NumericalSemanticsVersion::V1, rebound))),
        Err(ReplayError::GenesisRegistryMismatch)
    );
    let small = Topology::new(
        vec![TopologyEndpoint::Finite(FiniteCompartment::new(cid("lake")))],
        vec![],
    )
    .expect("topology");
    let elsewhere = InitialStocks::new(&small, &registry(), vec![]).expect("no stocks");
    assert_eq!(
        check(&AuthoritativeLog::new(genesis(NumericalSemanticsVersion::V1, elsewhere))),
        Err(ReplayError::GenesisTopologyMismatch)
    );
}

#[test]
fn replay_checks_the_seal_the_horizon_and_every_transfer() {
    let artifact = artifact();
    let check = |log: &AuthoritativeLog| validate_replay(log, &artifact);

    let mut good = log();
    good.append(transfer(1, boundary("rain"), finite("lake"))).expect("append");
    good.append(transfer(4, finite("lake"), boundary("sea"))).expect("append");
    assert_eq!(check(&good), Ok(()));
    good.seal(ts(5)).expect("seal");
    assert_eq!(check(&good), Ok(()));

    let mut early_seal = log();
    early_seal.seal(ts(4)).expect("seal");
    assert_eq!(
        check(&early_seal),
        Err(ReplayError::SealFinalTimestep { declared: ts(4), expected: ts(5) })
    );

    let mut beyond = log();
    beyond.append(transfer(2, boundary("rain"), boundary("sea"))).expect("append");
    beyond.append(transfer(7, boundary("rain"), finite("lake"))).expect("append");
    assert_eq!(
        check(&beyond),
        Err(ReplayError::TimestepOutsideHorizon { timestep: ts(7), first: ts(1), last: ts(5) })
    );

    let mut bad_edge = log();
    bad_edge.append(transfer(2, boundary("rain"), finite("lake"))).expect("append");
    bad_edge.append(transfer(3, finite("river"), finite("lake"))).expect("append");
    assert_eq!(
        check(&bad_edge),
        Err(ReplayError::UndeclaredConnection {
            connection_source: cid("river"),
            target: cid("lake"),
            timestep: ts(3),
        })
    );
}

fn entries(at: u64, names: &[&str]) -> Disposition {
    Disposition::new(
        ts(at),
        FiniteCompartment::new(cid("lake")),
        names.iter().map(|n| SubstanceDisposition::new(sid(n), amount(0.0), vec![])).collect(),
    )
}

#[test]
fn entries_must_cover_the_registry_exactly() {
    let artifact = artifact();
    assert_eq!(check_substance_coverage(&artifact, &entries(2, &["water", "salt"])), Ok(()));
    assert_eq!(
        check_substance_coverage(&artifact, &entries(2, &["water", "sand", "sand"])),
        Err(TransactionError::UnregisteredSubstance {
            compartment: cid("lake"),
            substance: sid("sand"),
            timestep: ts(2),
        })
    );
    assert_eq!(
        check_substance_coverage(&artifact, &entries(2, &["water", "water"])),
        Err(TransactionError::DuplicateSubstance {
            compartment: cid("lake"),
            substance: sid("water"),
            timestep: ts(2),
        })
    );
    assert_eq!(
        check_substance_coverage(&artifact, &entries(3, &["water"])),
        Err(TransactionError::OmittedSubstance {
            compartment: cid("lake"),
            substance: sid("salt"),
            timestep: ts(3),
        })
    );
}

/// Endpoints in canonical order are lake, rain, river, sea; substances salt, water. The lake
/// starts with three quanta of water.
fn initial_counts() -> Vec<Vec<u64>> {
    vec![vec![0, 3], vec![0, 0], vec![0, 0], vec![0, 0]]
}

fn water(at: u64, source: TransferEndpoint, target: TransferEndpoint, liters: f64) -> Transfer {
    Transfer::new(
        ts(at),
        source,
        target,
        SparseSubstanceVector::new(&registry(), vec![(sid("water"), amount(liters))]).expect("valid"),
    )
}

#[test]
fn replay_in_quanta_folds_counts_and_conserves_them() {
    let artifact = artifact();
    let mut log = log();
    log.append(water(1, boundary("rain"), finite("lake"), 1.0)).expect("append");
    log.append(water(2, finite("lake"), boundary("sea"), 2.0)).expect("append");
    let counts = replay_counts(&log, &artifact, &initial_counts(), &vec![vec![1], vec![2]])
        .expect("replays");
    let endpoints: Vec<&str> = counts.endpoints().iter().map(|c| c.as_str()).collect();
    assert_eq!(endpoints, ["lake", "rain", "river", "sea"]);
    assert_eq!(counts.substances().len(), 2);
    assert_eq!(counts.count(&cid("lake"), &sid("water")), Some(2));
    assert_eq!(counts.count(&cid("rain"), &sid("water")), Some(-1));
    assert_eq!(counts.count(&cid("sea"), &sid("water")), Some(2));
    assert_eq!(counts.count(&cid("river"), &sid("salt")), Some(0));
    assert_eq!(counts.count(&cid("pond"), &sid("water")), None);
    let total: i64 = ["lake", "rain", "river", "sea"]
        .iter()
        .map(|e| counts.count(&cid(e), &sid("water")).unwrap_or(0))
        .sum();
    assert_eq!(total, 3);
}

#[test]
fn replay_in_quanta_reports_overdraw_and_overflow() {
    let artifact = artifact();
    let mut log = log();
    log.append(water(2, finite("lake"), boundary("sea"), 5.0)).expect("append");
    assert_eq!(
        replay_counts(&log, &artifact, &initial_counts(), &vec![vec![5]]).map(|_| ()),
        Err(CountFoldError::Overdraw {
            compartment: cid("lake"),
            substance: sid("water"),
            timestep: ts(2),
            available_count: 3,
            requested_count: 5,
        })
    );
    let huge = vec![vec![0, u64::MAX], vec![0, 0], vec![0, 0], vec![0, 0]];
    assert_eq!(
        replay_counts(&log, &artifact, &huge, &vec![vec![5]]).map(|_| ()),
        Err(CountFoldError::Replay {
            source: ReplayError::NonFiniteFold {
                compartment: cid("lake"),
                substance: sid("water"),
                timestep: ts(1),
            }
        })
    );
    let mut inflow = self::log();
    inflow.append(water(2, boundary("rain"), finite("lake"), 1.0)).expect("append");
    assert_eq!(
        replay_counts(&inflow, &artifact, &initial_counts(), &vec![vec![u64::MAX]]).map(|_| ()),
        Err(CountFoldError::Replay {
            source: ReplayError::NonFiniteFold {
                compartment: cid("rain"),
                substance: sid("water"),
                timestep: ts(2),
            }
        })
    );
}

fn split(at: u64, water_entry: Option<Vec<TransferEndpoint>>) -> Disposition {
    let mut entries = Vec::new();
    if let Some(targets) = water_entry {
        let allocations = targets.into_iter().map(|t| Allocation::new(t, amount(1.0))).collect();
        entries.push(SubstanceDisposition::new(sid("water"), amount(1.0), allocations));
    }
    entries.push(SubstanceDisposition::new(sid("salt"), amount(0.0), vec![]));
    Disposition::new(ts(at), FiniteCompartment::new(cid("lake")), entries)
}

#[test]
fn commit_appends_one_transfer_per_allocation_or_nothing() {
    let artifact = artifact();
    let mut log = log();
    let d = split(2, Some(vec![finite("river"), boundary("sea")]));
    assert_eq!(
        commit_disposition(&mut log, &artifact, d, &initial_counts(), &vec![], &vec![vec![1, 1], vec![]], &vec![1, 0]),
        Ok(())
    );
    assert_eq!(log.transfer_count(), 2);
    assert_eq!(log.transfers()[0].target(), &finite("river"));
    assert_eq!(log.transfers()[1].target(), &boundary("sea"));
    assert_eq!(log.transfers()[1].source(), &finite("lake"));
    assert_eq!(log.transfers()[1].timestep(), ts(2));
    let counts = replay_counts(&log, &artifact, &initial_counts(), &vec![vec![1], vec![1]])
        .expect("replays");
    assert_eq!(counts.count(&cid("lake"), &sid("water")), Some(1));
    assert_eq!(counts.count(&cid("river"), &sid("water")), Some(1));
}

#[test]
fn commit_refuses_unbalanced_dispositions_and_leaves_the_log() {
    let artifact = artifact();
    let mut log = log();
    let counts = initial_counts();
    let omitted = split(2, None);
    assert_eq!(
        commit_disposition(&mut log, &artifact, omitted, &counts, &vec![], &vec![vec![]], &vec![0]),
        Err(CommitError::Transaction {
            source: TransactionError::OmittedSubstance {
                compartment: cid("lake"),
                substance: sid("water"),
                timestep: ts(2),
            }
        })
    );
    let over = split(2, Some(vec![finite("river"), boundary("sea")]));
    assert_eq!(
        commit_disposition(&mut log, &artifact, over, &counts, &vec![], &vec![vec![2, 2], vec![]], &vec![0, 0]),
        Err(CommitError::Overdraw {
            compartment: cid("lake"),
            substance: sid("water"),
            timestep: ts(2),
            available_count: 3,
            requested_count: 4,
        })
    );
    let short = split(2, Some(vec![finite("river"), boundary("sea")]));
    assert_eq!(
        commit_disposition(&mut log, &artifact, short, &counts, &vec![], &vec![vec![1, 1], vec![]], &vec![2, 0]),
        Err(CommitError::IncompletePartition {
            compartment: cid("lake"),
            substance: sid("water"),
            timestep: ts(2),
            available_count: 3,
            allocated_count: 2,
            retained_count: 2,
        })
    );
    assert_eq!(log.transfer_count(), 0);
    let mut sealed = self::log();
    sealed.seal(ts(5)).expect("seal");
    let late = split(2, Some(vec![finite("river")]));
    assert_eq!(
        commit_disposition(&mut sealed, &artifact, late, &counts, &vec![], &vec![vec![1], vec![]], &vec![2, 0]),
        Err(CommitError::Transaction { source: TransactionError::Log { source: LogError::RecordAfterSeal } })
    );
    assert_eq!(sealed.transfer_count(), 0);
}
