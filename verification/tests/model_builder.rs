use incidence_core::endpoints::{BoundaryAccount, FiniteCompartment};
use incidence_core::forcing::ForcingSeries;
use incidence_core::identity::{CompartmentId, SubstanceId};
use incidence_core::initial_stocks::InitialStocks;
use incidence_core::interpolation_table::{InterpolationBoundaryPolicy, InterpolationTable};
use incidence_core::model_artifact::{ModelArtifactError, ModelVersions, RuleDefinition, UnitId};
use incidence_core::model_builder::ModelArtifactBuilder;
use incidence_core::numerical_semantics::NumericalSemanticsVersion;
use incidence_core::partition_expression::PartitionExpr;
use incidence_core::projection_set::ProjectionSet;
use incidence_core::rule_expression::RuleExpr;
use incidence_core::rule_reference::{
    ExpressionValueKind, ForcingId, ForcingRef, ParameterId, ParameterRef, TableId,
};
use incidence_core::substance_registry::SubstanceRegistry;
use incidence_core::temporal::{
    CalendarInstant, CalendarOrigin, FixedStepCalendar, RunHorizon, TimestepDuration,
    TimestepIndex,
};
use incidence_core::topology::{DirectedConnection, Topology, TopologyEndpoint};
use incidence_core::versions::{CanonicalEncodingVersion, InterpreterVersion, RuleIrVersion};

const IR: RuleIrVersion = RuleIrVersion::V1;
const V1: NumericalSemanticsVersion = NumericalSemanticsVersion::V1;

fn cid(value: &str) -> CompartmentId {
    CompartmentId::parse(value).expect("fixture identity must be valid")
}

fn sid(value: &str) -> SubstanceId {
    SubstanceId::parse(value).expect("fixture identity must be valid")
}

fn topology() -> Topology {
    Topology::new(
        vec![
            TopologyEndpoint::Finite(FiniteCompartment::new(cid("lake"))),
            TopologyEndpoint::Boundary(BoundaryAccount::new(cid("sea"))),
        ],
        vec![DirectedConnection::new(cid("lake"), cid("sea"))],
    )
    .expect("fixture topology")
}

fn registry() -> SubstanceRegistry {
    SubstanceRegistry::new(vec![sid("salt"), sid("water")]).expect("fixture registry")
}

fn horizon(first: u64, last: u64) -> RunHorizon {
    RunHorizon::new(TimestepIndex::new(first), TimestepIndex::new(last)).expect("ordered")
}

fn calendar() -> FixedStepCalendar {
    FixedStepCalendar::new(
        CalendarOrigin::new(CalendarInstant::from_unix_seconds(0)),
        TimestepDuration::from_seconds(3_600).expect("positive"),
    )
}

fn series(name: &str, h: RunHorizon, count: usize) -> ForcingSeries {
    ForcingSeries::new(ForcingId::parse(name).expect("valid"), h, vec![0; count]).expect("valid")
}

fn rule(compartment: &str, substance: &str, forcing: &str) -> RuleDefinition {
    let expression = RuleExpr::add(
        RuleExpr::parameter(
            IR,
            V1,
            ParameterRef::new(ParameterId::parse("rate").expect("valid"), ExpressionValueKind::Scalar),
        ),
        RuleExpr::forcing(IR, V1, ForcingRef::new(ForcingId::parse(forcing).expect("valid"))),
    )
    .expect("scalar operands");
    RuleDefinition::new(
        cid(compartment),
        sid(substance),
        expression,
        PartitionExpr::retain_all(IR, V1),
        vec![(ParameterId::parse("rate").expect("valid"), 0.5_f64.to_bits())],
    )
    .expect("valid parameters")
}

fn unit(substance: &str, name: &str) -> (SubstanceId, UnitId) {
    (sid(substance), UnitId::parse(name).expect("valid unit"))
}

fn base() -> ModelArtifactBuilder {
    let top = topology();
    let reg = registry();
    let stocks = InitialStocks::new(&top, &reg, vec![]).expect("no stocks");
    ModelArtifactBuilder::new(top, reg, stocks, calendar(), horizon(0, 1))
}

fn complete() -> ModelArtifactBuilder {
    base()
        .with_projections(ProjectionSet::new(vec![], vec![]).expect("empty set"))
        .with_forcings(vec![series("rain", horizon(0, 1), 2)])
        .with_rules(vec![rule("lake", "salt", "rain")])
        .with_units(vec![unit("water", "m3"), unit("salt", "kg")])
}

#[test]
fn consistent_components_validate() {
    assert_eq!(complete().validate(), Ok(()));
    let versions = ModelVersions::new(
        RuleIrVersion::V1,
        InterpreterVersion::V1,
        NumericalSemanticsVersion::V1,
        CanonicalEncodingVersion::V1,
    );
    assert_eq!(complete().with_versions(versions).validate(), Ok(()));
}

#[test]
fn initial_stocks_must_bind_the_same_topology_and_registry() {
    let other_topology = Topology::new(
        vec![TopologyEndpoint::Finite(FiniteCompartment::new(cid("lake")))],
        vec![],
    )
    .expect("fixture topology");
    let reg = registry();
    let stocks = InitialStocks::new(&other_topology, &reg, vec![]).expect("no stocks");
    let builder = ModelArtifactBuilder::new(topology(), registry(), stocks, calendar(), horizon(0, 1));
    assert_eq!(builder.validate(), Err(ModelArtifactError::InitialStocksTopologyMismatch));

    let top = topology();
    let other_registry = SubstanceRegistry::new(vec![sid("salt")]).expect("fixture registry");
    let stocks = InitialStocks::new(&top, &other_registry, vec![]).expect("no stocks");
    let builder = ModelArtifactBuilder::new(top, registry(), stocks, calendar(), horizon(0, 1));
    assert_eq!(builder.validate(), Err(ModelArtifactError::InitialStocksRegistryMismatch));
}

#[test]
fn a_projection_set_is_required() {
    assert_eq!(base().validate(), Err(ModelArtifactError::MissingProjectionSet));
}

#[test]
fn forcing_series_must_cover_the_horizon_once() {
    let builder = complete().with_forcings(vec![
        series("rain", horizon(0, 1), 2),
        series("snow", horizon(0, 2), 3),
        series("rain", horizon(0, 1), 2),
    ]);
    assert_eq!(
        builder.validate(),
        Err(ModelArtifactError::ForcingHorizonMismatch { forcing: ForcingId::parse("snow").expect("valid") })
    );
    let builder = complete().with_forcings(vec![series("rain", horizon(0, 1), 2), series("rain", horizon(0, 1), 2)]);
    assert_eq!(
        builder.validate(),
        Err(ModelArtifactError::DuplicateForcing { forcing: ForcingId::parse("rain").expect("valid") })
    );
}

#[test]
fn tables_must_share_the_semantics_and_be_unique() {
    let table = || {
        InterpolationTable::new(
            TableId::parse("curve").expect("valid"),
            V1,
            InterpolationBoundaryPolicy::Reject,
            vec![0, 1.0_f64.to_bits()],
            vec![0, 0],
        )
        .expect("valid table")
    };
    assert_eq!(complete().with_tables(vec![table()]).validate(), Ok(()));
    assert_eq!(
        complete().with_tables(vec![table(), table()]).validate(),
        Err(ModelArtifactError::DuplicateTable { table: TableId::parse("curve").expect("valid") })
    );
}

#[test]
fn rules_must_sit_on_finite_registered_coordinates() {
    assert_eq!(
        complete().with_rules(vec![rule("pond", "salt", "rain")]).validate(),
        Err(ModelArtifactError::UnknownRuleCompartment { compartment: cid("pond") })
    );
    assert_eq!(
        complete().with_rules(vec![rule("sea", "salt", "rain")]).validate(),
        Err(ModelArtifactError::BoundaryAccountRule { account: cid("sea") })
    );
    assert_eq!(
        complete().with_rules(vec![rule("lake", "lead", "rain")]).validate(),
        Err(ModelArtifactError::UnknownRuleSubstance { substance: sid("lead") })
    );
    assert_eq!(
        complete()
            .with_rules(vec![rule("lake", "salt", "rain"), rule("lake", "water", "rain"), rule("lake", "salt", "rain")])
            .validate(),
        Err(ModelArtifactError::DuplicateRule { compartment: cid("lake"), substance: sid("salt") })
    );
}

#[test]
fn rules_must_refer_to_declared_series() {
    assert_eq!(
        complete().with_rules(vec![rule("lake", "salt", "hail")]).validate(),
        Err(ModelArtifactError::MissingRuleForcing {
            compartment: cid("lake"),
            substance: sid("salt"),
            forcing: ForcingId::parse("hail").expect("valid"),
        })
    );
}

#[test]
fn every_registered_substance_needs_exactly_one_unit() {
    assert_eq!(
        complete().with_units(vec![unit("salt", "kg"), unit("lead", "kg")]).validate(),
        Err(ModelArtifactError::UnknownUnitSubstance { substance: sid("lead") })
    );
    assert_eq!(
        complete().with_units(vec![unit("salt", "kg"), unit("salt", "g")]).validate(),
        Err(ModelArtifactError::DuplicateUnit { substance: sid("salt") })
    );
    assert_eq!(
        complete().with_units(vec![unit("water", "m3")]).validate(),
        Err(ModelArtifactError::MissingUnit { substance: sid("salt") })
    );
}

#[test]
fn build_returns_the_components_in_canonical_order() {
    let artifact = complete()
        .with_forcings(vec![series("snow", horizon(0, 1), 2), series("rain", horizon(0, 1), 2)])
        .build()
        .expect("consistent components");
    let forcings: Vec<&str> = artifact.forcings().iter().map(|f| f.id().as_str()).collect();
    assert_eq!(forcings, ["rain", "snow"]);
    let units: Vec<(&str, &str)> =
        artifact.units().iter().map(|(s, u)| (s.as_str(), u.as_str())).collect();
    assert_eq!(units, [("salt", "kg"), ("water", "m3")]);
    assert_eq!(artifact.rules().len(), 1);
    assert_eq!(artifact.rules()[0].compartment().as_str(), "lake");
    assert_eq!(artifact.horizon(), horizon(0, 1));
    assert_eq!(artifact.calendar(), calendar());
    assert_eq!(artifact.topology().len(), 2);
    assert_eq!(artifact.registry().len(), 2);
    assert_eq!(artifact.tables().len(), 0);
    assert_eq!(artifact.projections().iter().len(), 0);
    assert_eq!(artifact.versions(), ModelVersions::default());
}

#[test]
fn build_fails_exactly_as_validation_does() {
    let missing = base().with_units(vec![unit("water", "m3"), unit("salt", "kg")]);
    assert_eq!(missing.validate(), Err(ModelArtifactError::MissingProjectionSet));
    assert_eq!(
        base().with_units(vec![unit("water", "m3")]).build().map(|_| ()),
        Err(ModelArtifactError::MissingProjectionSet)
    );
    let no_unit = complete().with_units(vec![unit("water", "m3")]);
    assert_eq!(
        no_unit.build().map(|_| ()),
        Err(ModelArtifactError::MissingUnit { substance: sid("salt") })
    );
}
