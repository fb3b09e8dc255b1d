use incidence_core::endpoints::{BoundaryAccount, FiniteCompartment};
use incidence_core::identity::{CompartmentId, SubstanceId};
use incidence_core::initial_stocks::{InitialStocks, InitialStocksError};
use incidence_core::numerical_semantics::NonNegativeAmount;
use incidence_core::presence::ValueState;
use incidence_core::sparse_substance_vector::{SparseSubstanceVector, SparseSubstanceVectorError};
use incidence_core::substance_registry::SubstanceRegistry;
use incidence_core::topology::{DirectedConnection, Topology, TopologyEndpoint};

fn sid(value: &str) -> SubstanceId {
    SubstanceId::parse(value).expect("fixture identity must be valid")
}

fn cid(value: &str) -> CompartmentId {
    CompartmentId::parse(value).expect("fixture identity must be valid")
}

fn amount(value: f64) -> NonNegativeAmount {
    NonNegativeAmount::from_bits(value.to_bits()).expect("fixture amount must be valid")
}

fn registry(values: &[&str]) -> SubstanceRegistry {
    SubstanceRegistry::new(values.iter().map(|v| sid(v)).collect()).expect("fixture registry")
}

fn topology() -> Topology {
    Topology::new(
        vec![
            TopologyEndpoint::Finite(FiniteCompartment::new(cid("upper"))),
            TopologyEndpoint::Finite(FiniteCompartment::new(cid("lower"))),
            TopologyEndpoint::Boundary(BoundaryAccount::new(cid("outlet"))),
        ],
        vec![
            DirectedConnection::new(cid("upper"), cid("lower")),
            DirectedConnection::new(cid("lower"), cid("outlet")),
        ],
    )
    .expect("fixture topology")
}

#[test]
fn sparse_vector_stores_non_zero_entries_in_registry_order() {
    let reg = registry(&["water", "salt", "nitrate"]);
    let vector = SparseSubstanceVector::new(
        &reg,
        vec![(sid("water"), amount(2.0)), (sid("nitrate"), amount(0.0)), (sid("salt"), amount(1.5))],
    )
    .expect("valid entries");
    let stored: Vec<(&str, f64)> = vector
        .iter()
        .iter()
        .map(|(s, a)| (s.as_str(), f64::from_bits(a.bits())))
        .collect();
    assert_eq!(stored, [("salt", 1.5), ("water", 2.0)]);
    assert_eq!(vector.amount(&sid("water")), ValueState::Present(amount(2.0)));
    assert_eq!(vector.amount(&sid("nitrate")), ValueState::Present(NonNegativeAmount::zero()));
    assert_eq!(vector.amount(&sid("phosphorus")), ValueState::NotModelled);
    assert_eq!(vector.registry(), &reg);
}

#[test]
fn sparse_vector_rejects_first_invalid_entry() {
    let reg = registry(&["water", "salt"]);
    assert_eq!(
        SparseSubstanceVector::new(
            &reg,
            vec![(sid("salt"), amount(1.0)), (sid("salt"), amount(0.0)), (sid("lead"), amount(1.0))]
        ),
        Err(SparseSubstanceVectorError::DuplicateSubstance { substance: sid("salt") })
    );
    assert_eq!(
        SparseSubstanceVector::new(
            &reg,
            vec![(sid("lead"), amount(1.0)), (sid("salt"), amount(1.0)), (sid("salt"), amount(1.0))]
        ),
        Err(SparseSubstanceVectorError::UnregisteredSubstance { substance: sid("lead") })
    );
}

#[test]
fn initial_stocks_answer_per_coordinate() {
    let reg = registry(&["water", "salt"]);
    let top = topology();
    let upper = SparseSubstanceVector::new(&reg, vec![(sid("salt"), amount(3.0))]).expect("valid");
    let stocks = InitialStocks::new(&top, &reg, vec![(cid("upper"), upper.clone())]).expect("valid");
    assert_eq!(stocks.amount(&cid("upper"), &sid("salt")), Ok(ValueState::Present(amount(3.0))));
    assert_eq!(
        stocks.amount(&cid("upper"), &sid("water")),
        Ok(ValueState::Present(NonNegativeAmount::zero()))
    );
    assert_eq!(
        stocks.amount(&cid("lower"), &sid("salt")),
        Ok(ValueState::Present(NonNegativeAmount::zero()))
    );
    assert_eq!(stocks.amount(&cid("lower"), &sid("lead")), Ok(ValueState::NotModelled));
    assert_eq!(
        stocks.amount(&cid("outlet"), &sid("salt")),
        Err(InitialStocksError::BoundaryAccountStock { account: cid("outlet") })
    );
    assert_eq!(
        stocks.amount(&cid("nowhere"), &sid("salt")),
        Err(InitialStocksError::UnknownCompartment { compartment: cid("nowhere") })
    );
    assert_eq!(stocks.topology(), &top);
    assert_eq!(stocks.registry(), &reg);
}

#[test]
fn initial_stocks_iterate_in_topological_order() {
    let reg = registry(&["salt"]);
    let top = topology();
    let lower = SparseSubstanceVector::new(&reg, vec![(sid("salt"), amount(1.0))]).expect("valid");
    let upper = SparseSubstanceVector::new(&reg, vec![(sid("salt"), amount(2.0))]).expect("valid");
    let stocks = InitialStocks::new(&top, &reg, vec![(cid("lower"), lower), (cid("upper"), upper)])
        .expect("valid");
    let order: Vec<&str> = stocks.iter().into_iter().map(|(c, _)| c.as_str()).collect();
    assert_eq!(order, ["upper", "lower"]);
}

#[test]
fn initial_stocks_reject_first_invalid_entry() {
    let reg = registry(&["salt"]);
    let other = registry(&["salt", "water"]);
    let top = topology();
    let vector = SparseSubstanceVector::new(&reg, vec![]).expect("valid");
    let foreign = SparseSubstanceVector::new(&other, vec![]).expect("valid");
    assert_eq!(
        InitialStocks::new(
            &top,
            &reg,
            vec![(cid("upper"), vector.clone()), (cid("upper"), vector.clone())]
        ),
        Err(InitialStocksError::DuplicateCompartment { compartment: cid("upper") })
    );
    assert_eq!(
        InitialStocks::new(&top, &reg, vec![(cid("nowhere"), vector.clone())]),
        Err(InitialStocksError::UnknownCompartment { compartment: cid("nowhere") })
    );
    assert_eq!(
        InitialStocks::new(&top, &reg, vec![(cid("outlet"), vector.clone())]),
        Err(InitialStocksError::BoundaryAccountStock { account: cid("outlet") })
    );
    assert_eq!(
        InitialStocks::new(&top, &reg, vec![(cid("lower"), foreign)]),
        Err(InitialStocksError::RegistryMismatch { compartment: cid("lower") })
    );
}
