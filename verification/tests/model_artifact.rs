use incidence_core::identity::{CompartmentId, SubstanceId};
use incidence_core::forcing::ForcingSeries;
use incidence_core::interpolation_table::{InterpolationBoundaryPolicy, InterpolationTable};
use incidence_core::model_artifact::{
    validate_rule_references, ModelArtifactError, ModelVersions, RuleDefinition, UnitId,
};
use incidence_core::projection::{
    AuthoritativeFactSelector, BoundedLagSpec, InitialProjectionValue, InitialProjectorState,
    ProjectionSource, ProjectionSpec,
};
use incidence_core::projection_set::ProjectionSet;
use incidence_core::temporal::{RunHorizon, TimestepIndex};
use incidence_core::numerical_semantics::NumericalSemanticsVersion;
use incidence_core::partition_expression::PartitionExpr;
use incidence_core::rule_expression::RuleExpr;
use incidence_core::rule_reference::{
    ExpressionValueKind, ForcingId, ForcingRef, InterpolatedTableRef, ParameterId, ParameterRef,
    ProjectionId, ProjectionRef, ProjectionValueKind, TableId, TransferBranchId,
};
use incidence_core::versions::{CanonicalEncodingVersion, InterpreterVersion, RuleIrVersion};

const IR: RuleIrVersion = RuleIrVersion::V1;
const V1: NumericalSemanticsVersion = NumericalSemanticsVersion::V1;

fn cid(value: &str) -> CompartmentId {
    CompartmentId::parse(value).expect("fixture identity must be valid")
}

fn sid(value: &str) -> SubstanceId {
    SubstanceId::parse(value).expect("fixture identity must be valid")
}

fn param(value: &str) -> ParameterId {
    ParameterId::parse(value).expect("fixture identity must be valid")
}

fn rate_expression() -> RuleExpr {
    RuleExpr::parameter(IR, V1, ParameterRef::new(param("rate"), ExpressionValueKind::Scalar))
}

fn define(parameters: Vec<(ParameterId, u64)>) -> Result<RuleDefinition, ModelArtifactError> {
    RuleDefinition::new(
        cid("lake"),
        sid("salt"),
        rate_expression(),
        PartitionExpr::retain_all(IR, V1),
        parameters,
    )
}

#[test]
fn default_versions_select_the_first_of_each_protocol() {
    let versions = ModelVersions::default();
    assert_eq!(versions.rule_ir(), RuleIrVersion::V1);
    assert_eq!(versions.interpreter(), InterpreterVersion::V1);
    assert_eq!(versions.numerical_semantics(), NumericalSemanticsVersion::V1);
    assert_eq!(versions.canonical_encoding(), CanonicalEncodingVersion::V1);
    assert_eq!(
        ModelVersions::new(
            RuleIrVersion::V1,
            InterpreterVersion::V1,
            NumericalSemanticsVersion::V1,
            CanonicalEncodingVersion::V1
        ),
        versions
    );
}

#[test]
fn unit_identities_are_trimmed_ascii() {
    assert_eq!(UnitId::parse("kg/m^3").map(|u| u.as_str().to_owned()), Ok("kg/m^3".to_owned()));
    assert_eq!(UnitId::parse("kg m").map(|u| u.as_str().to_owned()), Ok("kg m".to_owned()));
    for bad in ["", " kg", "kg ", "\nkg", "µg", "kg\t"] {
        assert_eq!(
            UnitId::parse(bad),
            Err(ModelArtifactError::InvalidUnitIdentity { value: bad.to_owned() })
        );
    }
    let unit = UnitId::parse("mol").expect("valid unit");
    assert_eq!(unit.clone(), unit);
}

#[test]
fn rule_definition_canonicalises_parameters() {
    let rule = define(vec![(param("rate"), (-0.0_f64).to_bits()), (param("beta"), 2.0_f64.to_bits())])
        .expect("valid parameters");
    assert_eq!(rule.compartment(), &cid("lake"));
    assert_eq!(rule.substance(), &sid("salt"));
    assert_eq!(rule.expression(), &rate_expression());
    assert_eq!(rule.disposition(), &PartitionExpr::retain_all(IR, V1));
    let stored: Vec<(&str, u64)> = rule.parameters().iter().map(|(p, b)| (p.as_str(), *b)).collect();
    assert_eq!(stored, [("beta", 2.0_f64.to_bits()), ("rate", 0)]);
    let copy = rule.clone();
    assert_eq!(copy, rule);
}

#[test]
fn rule_definition_rejects_first_invalid_parameter() {
    let nan = f64::NAN.to_bits();
    assert_eq!(
        define(vec![(param("a"), 1.0_f64.to_bits()), (param("b"), nan), (param("a"), 1.0_f64.to_bits())]),
        Err(ModelArtifactError::NonFiniteParameter {
            compartment: cid("lake"),
            substance: sid("salt"),
            parameter: param("b"),
            bits: nan,
        })
    );
    assert_eq!(
        define(vec![(param("a"), 1.0_f64.to_bits()), (param("a"), 2.0_f64.to_bits()), (param("b"), nan)]),
        Err(ModelArtifactError::DuplicateParameter {
            compartment: cid("lake"),
            substance: sid("salt"),
            parameter: param("a"),
        })
    );
}

fn scalar_parameter(name: &str) -> RuleExpr {
    RuleExpr::parameter(IR, V1, ParameterRef::new(param(name), ExpressionValueKind::Scalar))
}

fn forcing_leaf(name: &str) -> RuleExpr {
    RuleExpr::forcing(IR, V1, ForcingRef::new(ForcingId::parse(name).expect("valid")))
}

fn projection_leaf(name: &str) -> RuleExpr {
    RuleExpr::projection(
        IR,
        V1,
        ProjectionRef::new(ProjectionId::parse(name).expect("valid"), ProjectionValueKind::Scalar),
    )
}

fn table_lookup(name: &str, input: RuleExpr) -> RuleExpr {
    RuleExpr::interpolated_table(InterpolatedTableRef::new(TableId::parse(name).expect("valid")), input)
        .expect("scalar input")
}

fn sum(lhs: RuleExpr, rhs: RuleExpr) -> RuleExpr {
    RuleExpr::add(lhs, rhs).expect("scalar operands")
}

fn series(name: &str) -> ForcingSeries {
    let horizon = RunHorizon::new(TimestepIndex::new(0), TimestepIndex::new(0)).expect("ordered");
    ForcingSeries::new(ForcingId::parse(name).expect("valid"), horizon, vec![0]).expect("valid")
}

fn table(name: &str) -> InterpolationTable {
    InterpolationTable::new(
        TableId::parse(name).expect("valid"),
        V1,
        InterpolationBoundaryPolicy::Reject,
        vec![0, 1.0_f64.to_bits()],
        vec![0, 0],
    )
    .expect("valid")
}

fn no_projections() -> ProjectionSet {
    ProjectionSet::new(vec![], vec![]).expect("empty set")
}

fn rule_with(expression: RuleExpr, disposition: PartitionExpr, parameters: &[&str]) -> RuleDefinition {
    RuleDefinition::new(
        cid("lake"),
        sid("salt"),
        expression,
        disposition,
        parameters.iter().map(|p| (param(p), 1.0_f64.to_bits())).collect(),
    )
    .expect("valid parameters")
}

#[test]
fn rule_references_report_least_missing_parameter_first() {
    let rule = rule_with(
        sum(sum(scalar_parameter("zeta"), forcing_leaf("rain")), scalar_parameter("alpha")),
        PartitionExpr::retain_all(IR, V1),
        &[],
    );
    assert_eq!(
        validate_rule_references(&rule, &[], &[], &no_projections()),
        Err(ModelArtifactError::MissingRuleParameter {
            compartment: cid("lake"),
            substance: sid("salt"),
            parameter: param("alpha"),
        })
    );
}

#[test]
fn rule_references_include_the_exogenous_disposition_series() {
    let disposition = PartitionExpr::exogenous_series(
        IR,
        V1,
        TransferBranchId::parse("pump").expect("valid"),
        ForcingRef::new(ForcingId::parse("abstraction").expect("valid")),
    );
    let rule = rule_with(sum(scalar_parameter("rate"), forcing_leaf("rain")), disposition, &["rate"]);
    assert_eq!(
        validate_rule_references(&rule, &[series("rain")], &[], &no_projections()),
        Err(ModelArtifactError::MissingRuleForcing {
            compartment: cid("lake"),
            substance: sid("salt"),
            forcing: ForcingId::parse("abstraction").expect("valid"),
        })
    );
    assert_eq!(
        validate_rule_references(&rule, &[series("abstraction"), series("rain")], &[], &no_projections()),
        Ok(())
    );
}

#[test]
fn rule_references_check_tables_then_projections() {
    let rule = rule_with(
        table_lookup("curve", sum(projection_leaf("level"), forcing_leaf("rain"))),
        PartitionExpr::retain_all(IR, V1),
        &[],
    );
    assert_eq!(
        validate_rule_references(&rule, &[series("rain")], &[], &no_projections()),
        Err(ModelArtifactError::MissingRuleTable {
            compartment: cid("lake"),
            substance: sid("salt"),
            table: TableId::parse("curve").expect("valid"),
        })
    );
    assert_eq!(
        validate_rule_references(&rule, &[series("rain")], &[table("curve")], &no_projections()),
        Err(ModelArtifactError::MissingRuleProjection {
            compartment: cid("lake"),
            substance: sid("salt"),
            projection: ProjectionId::parse("level").expect("valid"),
        })
    );
    let level = ProjectionSpec::BoundedLag(
        BoundedLagSpec::new(
            IR,
            V1,
            ProjectionId::parse("level").expect("valid"),
            ProjectionSource::AuthoritativeFact(AuthoritativeFactSelector::IncomingTransferAmount {
                compartment: cid("lake"),
                substance: sid("salt"),
            }),
            1,
        )
        .expect("positive lag"),
    );
    let state = InitialProjectorState::new(
        ProjectionId::parse("level").expect("valid"),
        V1,
        vec![InitialProjectionValue::Extensive(0)],
    )
    .expect("finite value");
    let projections = ProjectionSet::new(vec![level], vec![state]).expect("valid set");
    assert_eq!(
        validate_rule_references(&rule, &[series("rain")], &[table("curve")], &projections),
        Ok(())
    );
}
