use incidence_core::endpoints::{BoundaryAccount, FiniteCompartment};
use incidence_core::identity::{CompartmentId, SubstanceId};
use incidence_core::initial_stocks::InitialStocks;
use incidence_core::ledger::{
    incidence_column, incidence_columns_close, AuthoritativeLog, Genesis, LogDigest, LogError,
    Record, RunCompleted, RunId, Transfer, TransferEndpoint,
};
use incidence_core::model_artifact::ModelDigest;
use incidence_core::numerical_semantics::{NonNegativeAmount, NumericalSemanticsVersion};
use incidence_core::sparse_substance_vector::SparseSubstanceVector;
use incidence_core::substance_registry::SubstanceRegistry;
use incidence_core::temporal::TimestepIndex;
use incidence_core::topology::{DirectedConnection, Topology, TopologyEndpoint};
use sha2::{Digest, Sha256};

const MAGIC: &[u8] = b"incidence:authoritative-log:v1\0";

fn cid(value: &str) -> CompartmentId {
    CompartmentId::parse(value).expect("fixture identity must be valid")
}

fn sid(value: &str) -> SubstanceId {
    SubstanceId::parse(value).expect("fixture identity must be valid")
}

fn empty_genesis() -> Genesis {
    let topology = Topology::new(vec![], vec![]).expect("empty topology");
    let registry = SubstanceRegistry::new(vec![]).expect("empty registry");
    let stocks = InitialStocks::new(&topology, &registry, vec![]).expect("no stocks");
    Genesis::new(
        RunId::from_bytes([7; 16]),
        ModelDigest::from_bytes([9; 32]),
        NumericalSemanticsVersion::V1,
        stocks,
    )
}

struct Fixture {
    registry: SubstanceRegistry,
    genesis: Genesis,
}

fn fixture() -> Fixture {
    let topology = Topology::new(
        vec![
            TopologyEndpoint::Boundary(BoundaryAccount::new(cid("rain"))),
            TopologyEndpoint::Finite(FiniteCompartment::new(cid("lake"))),
        ],
        vec![DirectedConnection::new(cid("rain"), cid("lake"))],
    )
    .expect("fixture topology");
    let registry = SubstanceRegistry::new(vec![sid("water")]).expect("fixture registry");
    let stocks = InitialStocks::new(&topology, &registry, vec![]).expect("no stocks");
    let genesis = Genesis::new(
        RunId::from_bytes([1; 16]),
        ModelDigest::from_bytes([2; 32]),
        NumericalSemanticsVersion::V1,
        stocks,
    );
    Fixture { registry, genesis }
}

fn rain(f: &Fixture, timestep: u64, liters: f64) -> Transfer {
    let amount = NonNegativeAmount::from_bits(liters.to_bits()).expect("valid amount");
    Transfer::new(
        TimestepIndex::new(timestep),
        TransferEndpoint::Boundary(BoundaryAccount::new(cid("rain"))),
        TransferEndpoint::Finite(FiniteCompartment::new(cid("lake"))),
        SparseSubstanceVector::new(&f.registry, vec![(sid("water"), amount)]).expect("valid"),
    )
}

#[test]
fn canonical_bytes_of_an_empty_log_follow_the_record_layout() {
    let log = AuthoritativeLog::new(empty_genesis());
    let mut expected = MAGIC.to_vec();
    expected.extend_from_slice(&[7; 16]);
    expected.extend_from_slice(&[9; 32]);
    expected.push(1);
    for _ in 0..5 {
        expected.extend_from_slice(&0_u64.to_be_bytes());
    }
    assert_eq!(log.canonical_bytes(), expected);
}

#[test]
fn canonical_bytes_encode_transfers_after_genesis() {
    let f = fixture();
    let mut log = AuthoritativeLog::new(f.genesis.clone());
    log.append(rain(&f, 3, 2.0)).expect("first transfer");
    let bytes = log.canonical_bytes();
    let mut tail = Vec::new();
    tail.extend_from_slice(&1_u64.to_be_bytes());
    tail.extend_from_slice(&3_u64.to_be_bytes());
    tail.push(1);
    tail.extend_from_slice(&4_u64.to_be_bytes());
    tail.extend_from_slice(b"rain");
    tail.push(0);
    tail.extend_from_slice(&4_u64.to_be_bytes());
    tail.extend_from_slice(b"lake");
    tail.extend_from_slice(&1_u64.to_be_bytes());
    tail.extend_from_slice(&5_u64.to_be_bytes());
    tail.extend_from_slice(b"water");
    tail.extend_from_slice(&1_u64.to_be_bytes());
    tail.extend_from_slice(&5_u64.to_be_bytes());
    tail.extend_from_slice(b"water");
    tail.extend_from_slice(&2.0_f64.to_bits().to_be_bytes());
    assert!(bytes.starts_with(MAGIC));
    assert!(bytes.ends_with(&tail));
}

#[test]
fn digest_is_sha256_of_canonical_bytes() {
    let f = fixture();
    let mut log = AuthoritativeLog::new(f.genesis.clone());
    log.append(rain(&f, 0, 1.0)).expect("transfer");
    let expected: [u8; 32] = Sha256::digest(log.canonical_bytes()).into();
    assert_eq!(log.digest().into_bytes(), expected);
    let empty = AuthoritativeLog::new(empty_genesis());
    let expected_empty: [u8; 32] = Sha256::digest(empty.canonical_bytes()).into();
    assert_eq!(empty.digest(), LogDigest::from_bytes(expected_empty));
}

#[test]
fn digest_hex_is_lowercase_and_complete() {
    let digest = LogDigest::from_bytes([0xab; 32]);
    assert_eq!(digest.to_hex(), "ab".repeat(32));
    let model = ModelDigest::from_bytes([0x0f; 32]);
    assert_eq!(model.to_hex(), "0f".repeat(32));
}

#[test]
fn append_keeps_order_and_rejects_decreasing_timesteps() {
    let f = fixture();
    let mut log = AuthoritativeLog::new(f.genesis.clone());
    log.append(rain(&f, 1, 1.0)).expect("first");
    log.append(rain(&f, 1, 2.0)).expect("same timestep");
    log.append(rain(&f, 4, 3.0)).expect("later timestep");
    assert_eq!(
        log.append(rain(&f, 2, 4.0)),
        Err(LogError::TimestepOrder {
            previous: TimestepIndex::new(4),
            next: TimestepIndex::new(2),
        })
    );
    let steps: Vec<u64> = log.transfers().iter().map(|t| t.timestep().value()).collect();
    assert_eq!(steps, [1, 1, 4]);
    assert_eq!(log.transfer_count(), 3);
    assert!(!log.is_sealed());
    assert!(log.seal_record().is_none());
    assert_eq!(log.genesis(), &f.genesis);
}

#[test]
fn seal_authenticates_preceding_records_and_is_terminal() {
    let f = fixture();
    let mut log = AuthoritativeLog::new(f.genesis.clone());
    log.append(rain(&f, 0, 1.0)).expect("transfer");
    log.append(rain(&f, 2, 1.0)).expect("transfer");
    let digest_before = log.digest();
    let seal = log.seal(TimestepIndex::new(5)).expect("first seal");
    assert_eq!(seal.final_timestep(), TimestepIndex::new(5));
    assert_eq!(seal.transfer_count(), 2);
    assert_eq!(seal.log_digest(), digest_before);
    assert_eq!(log.digest(), digest_before);
    assert!(log.is_sealed());
    assert_eq!(log.seal_record(), Some(&seal));
    assert_eq!(log.seal(TimestepIndex::new(5)), Err(LogError::AlreadySealed));
    assert_eq!(log.append(rain(&f, 5, 1.0)), Err(LogError::RecordAfterSeal));
}

#[test]
fn records_round_trip_through_from_records() {
    let f = fixture();
    let mut log = AuthoritativeLog::new(f.genesis.clone());
    log.append(rain(&f, 0, 1.0)).expect("transfer");
    log.append(rain(&f, 3, 0.5)).expect("transfer");
    let open = AuthoritativeLog::from_records(log.records()).expect("valid prefix");
    assert_eq!(open, log);
    log.seal(TimestepIndex::new(3)).expect("seal");
    let records = log.records();
    assert_eq!(records.len(), 4);
    assert!(matches!(records[0], Record::Genesis(_)));
    assert!(matches!(records[3], Record::RunCompleted(_)));
    let sealed = AuthoritativeLog::from_records(records).expect("valid sealed log");
    assert_eq!(sealed, log);
}

#[test]
fn from_records_enforces_the_record_grammar() {
    let f = fixture();
    assert_eq!(AuthoritativeLog::from_records(vec![]), Err(LogError::MissingGenesis));
    assert_eq!(
        AuthoritativeLog::from_records(vec![Record::Transfer(rain(&f, 0, 1.0))]),
        Err(LogError::GenesisNotFirst)
    );
    assert_eq!(
        AuthoritativeLog::from_records(vec![
            Record::Genesis(f.genesis.clone()),
            Record::Genesis(f.genesis.clone())
        ]),
        Err(LogError::RepeatedGenesis)
    );
    assert_eq!(
        AuthoritativeLog::from_records(vec![
            Record::Genesis(f.genesis.clone()),
            Record::Transfer(rain(&f, 3, 1.0)),
            Record::Transfer(rain(&f, 1, 1.0)),
        ]),
        Err(LogError::TimestepOrder {
            previous: TimestepIndex::new(3),
            next: TimestepIndex::new(1),
        })
    );
}

#[test]
fn from_records_rejects_forged_or_misplaced_seals() {
    let f = fixture();
    let empty = AuthoritativeLog::new(f.genesis.clone());
    let honest = RunCompleted::new(TimestepIndex::new(0), 0, empty.digest());
    assert_eq!(
        AuthoritativeLog::from_records(vec![
            Record::Genesis(f.genesis.clone()),
            Record::RunCompleted(RunCompleted::new(TimestepIndex::new(0), 1, empty.digest())),
        ]),
        Err(LogError::SealTransferCount { declared: 1, actual: 0 })
    );
    let forged = LogDigest::from_bytes([0; 32]);
    assert_eq!(
        AuthoritativeLog::from_records(vec![
            Record::Genesis(f.genesis.clone()),
            Record::RunCompleted(RunCompleted::new(TimestepIndex::new(0), 0, forged)),
        ]),
        Err(LogError::SealDigest {
            declared: forged,
            actual: empty.digest(),
        })
    );
    assert_eq!(
        AuthoritativeLog::from_records(vec![
            Record::Genesis(f.genesis.clone()),
            Record::RunCompleted(honest),
            Record::Transfer(rain(&f, 0, 1.0)),
        ]),
        Err(LogError::RecordAfterSeal)
    );
    let sealed = AuthoritativeLog::from_records(vec![
        Record::Genesis(f.genesis.clone()),
        Record::RunCompleted(honest),
    ])
    .expect("honest seal");
    assert_eq!(sealed.seal_record(), Some(&honest));
}

#[test]
fn incidence_columns_sum_to_zero() {
    let f = fixture();
    let transfer = rain(&f, 0, 1.0);
    let column = incidence_column(&transfer);
    assert_eq!(column[0].0.id().as_str(), "rain");
    assert_eq!(column[0].1, -1);
    assert_eq!(column[1].0.id().as_str(), "lake");
    assert_eq!(column[1].1, 1);
    assert!(!column[0].0.is_finite());
    assert!(column[1].0.is_finite());
    let mut log = AuthoritativeLog::new(f.genesis.clone());
    log.append(transfer).expect("transfer");
    assert!(incidence_columns_close(&log));
}

#[test]
fn transfer_endpoints_convert_from_endpoint_types() {
    let finite: TransferEndpoint = FiniteCompartment::new(cid("lake")).into();
    assert!(finite.is_finite());
    let boundary: TransferEndpoint = BoundaryAccount::new(cid("sea")).into();
    assert!(!boundary.is_finite());
    let from_topology: TransferEndpoint =
        TopologyEndpoint::Boundary(BoundaryAccount::new(cid("sea"))).into();
    assert_eq!(from_topology, boundary);
    assert_eq!(RunId::from_bytes([3; 16]).into_bytes(), [3; 16]);
}
