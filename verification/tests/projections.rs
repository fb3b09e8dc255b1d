use incidence_core::identity::{CompartmentId, SubstanceId};
use incidence_core::numerical_semantics::NumericalSemanticsVersion;
use incidence_core::projection::{
    AuthoritativeFactSelector, BoundedLagSpec, FiniteRecurrenceSpec, ForbiddenRecurrenceLeaf,
    InitialProjectionValue, InitialProjectorState, OrderedRollingAggregateSpec, ProjectionBound,
    ProjectionError, ProjectionSource, ProjectionSpec, ProjectionValue, RecurrenceInputBinding,
    RecurrenceInputSource, RollingAggregate,
};
use incidence_core::projection_set::ProjectionSet;
use incidence_core::rule_expression::RuleExpr;
use incidence_core::rule_reference::{
    ExpressionValueKind, ForcingId, ForcingRef, InputId, InputRef, ParameterId, ParameterRef,
    ProjectionId, ProjectionRef, ProjectionValueKind,
};
use incidence_core::versions::RuleIrVersion;

const IR: RuleIrVersion = RuleIrVersion::V1;
const V1: NumericalSemanticsVersion = NumericalSemanticsVersion::V1;

fn pid(value: &str) -> ProjectionId {
    ProjectionId::parse(value).expect("fixture identity must be valid")
}

fn iid(value: &str) -> InputId {
    InputId::parse(value).expect("fixture identity must be valid")
}

fn inflow() -> AuthoritativeFactSelector {
    AuthoritativeFactSelector::IncomingTransferAmount {
        compartment: CompartmentId::parse("lake").expect("valid"),
        substance: SubstanceId::parse("water").expect("valid"),
    }
}

fn fact_lag(id: &str, steps: usize) -> ProjectionSpec {
    ProjectionSpec::BoundedLag(
        BoundedLagSpec::new(IR, V1, pid(id), ProjectionSource::AuthoritativeFact(inflow()), steps)
            .expect("positive lag"),
    )
}

fn projection_lag(id: &str, of: &str, kind: ProjectionValueKind) -> ProjectionSpec {
    ProjectionSpec::BoundedLag(
        BoundedLagSpec::new(
            IR,
            V1,
            pid(id),
            ProjectionSource::Projection(ProjectionRef::new(pid(of), kind)),
            1,
        )
        .expect("positive lag"),
    )
}

fn extensive_state(id: &str, count: usize) -> InitialProjectorState {
    InitialProjectorState::new(pid(id), V1, vec![InitialProjectionValue::Extensive(0); count])
        .expect("finite values")
}

fn input_leaf(name: &str) -> RuleExpr {
    RuleExpr::input(IR, V1, InputRef::new(iid(name), ExpressionValueKind::Scalar))
}

fn literal(value: f64) -> RuleExpr {
    RuleExpr::literal(IR, V1, value.to_bits()).expect("finite literal")
}

fn fact_binding(name: &str) -> RecurrenceInputBinding {
    RecurrenceInputBinding::new(
        InputRef::new(iid(name), ExpressionValueKind::Scalar),
        RecurrenceInputSource::AuthoritativeFact(inflow()),
    )
}

fn previous_binding(name: &str, index: usize, kind: ProjectionValueKind) -> RecurrenceInputBinding {
    RecurrenceInputBinding::new(
        InputRef::new(iid(name), ExpressionValueKind::Scalar),
        RecurrenceInputSource::PreviousState { index, value_kind: kind },
    )
}

fn running_total(
    state: Vec<ProjectionValueKind>,
    inputs: Vec<RecurrenceInputBinding>,
    parameters: Vec<ParameterRef>,
    updates: Vec<RuleExpr>,
    output: usize,
) -> Result<FiniteRecurrenceSpec, ProjectionError> {
    FiniteRecurrenceSpec::new(IR, V1, pid("total"), state, inputs, parameters, updates, output)
}

#[test]
fn window_and_lag_bounds_must_be_positive() {
    assert_eq!(
        BoundedLagSpec::new(IR, V1, pid("lag"), ProjectionSource::AuthoritativeFact(inflow()), 0),
        Err(ProjectionError::NonPositiveBound {
            projection: pid("lag"),
            bound: ProjectionBound::BoundedLagSteps,
            attempted: 0,
        })
    );
    assert_eq!(
        OrderedRollingAggregateSpec::new(
            IR,
            V1,
            pid("sum"),
            ProjectionSource::AuthoritativeFact(inflow()),
            0,
            RollingAggregate::SumOldestToNewest
        ),
        Err(ProjectionError::NonPositiveBound {
            projection: pid("sum"),
            bound: ProjectionBound::RollingWindow,
            attempted: 0,
        })
    );
    let lag = BoundedLagSpec::new(IR, V1, pid("lag"), ProjectionSource::AuthoritativeFact(inflow()), 3)
        .expect("positive lag");
    assert_eq!(lag.steps(), 3);
    assert_eq!(lag.value_kind(), ProjectionValueKind::Extensive);
}

#[test]
fn initial_state_rejects_first_non_finite_value() {
    let infinite = f64::INFINITY.to_bits();
    assert_eq!(
        InitialProjectorState::new(
            pid("lag"),
            V1,
            vec![
                InitialProjectionValue::Truth(true),
                InitialProjectionValue::Scalar(infinite),
                InitialProjectionValue::Extensive(f64::NAN.to_bits()),
            ]
        ),
        Err(ProjectionError::NonFiniteInitialValue { projection: pid("lag"), index: 1, bits: infinite })
    );
    let state = InitialProjectorState::new(
        pid("lag"),
        V1,
        vec![InitialProjectionValue::Scalar((-0.0_f64).to_bits()), InitialProjectionValue::Truth(false)],
    )
    .expect("finite values");
    assert_eq!(state.projection(), &pid("lag"));
    assert_eq!(state.values()[0].bits(), Some(0));
    assert_eq!(state.values()[0].value_kind(), ProjectionValueKind::Scalar);
    assert_eq!(state.values()[1].truth(), Some(false));
    assert!(matches!(state.values()[1], ProjectionValue::Truth(false)));
}

#[test]
fn recurrence_accepts_a_closed_running_total() {
    let spec = running_total(
        vec![ProjectionValueKind::Scalar],
        vec![fact_binding("inflow"), previous_binding("previous", 0, ProjectionValueKind::Scalar)],
        vec![],
        vec![RuleExpr::add(input_leaf("previous"), input_leaf("inflow")).expect("scalar")],
        0,
    )
    .expect("closed recurrence");
    assert_eq!(spec.value_kind(), ProjectionValueKind::Scalar);
    let names: Vec<&str> = spec.inputs().iter().map(|b| b.reference().id().as_str()).collect();
    assert_eq!(names, ["inflow", "previous"]);
    assert!(spec.dependencies().is_empty());
    assert_eq!(spec.output_index(), 0);
}

#[test]
fn recurrence_reports_shape_failures_first() {
    assert_eq!(
        running_total(vec![], vec![], vec![], vec![], 0),
        Err(ProjectionError::NonPositiveBound {
            projection: pid("total"),
            bound: ProjectionBound::RecurrenceStateSize,
            attempted: 0,
        })
    );
    assert_eq!(
        running_total(vec![ProjectionValueKind::Scalar], vec![], vec![], vec![], 0),
        Err(ProjectionError::RecurrenceUpdateCount { projection: pid("total"), expected: 1, actual: 0 })
    );
    assert_eq!(
        running_total(vec![ProjectionValueKind::Scalar], vec![], vec![], vec![literal(1.0)], 1),
        Err(ProjectionError::RecurrenceOutputIndex { projection: pid("total"), state_len: 1, attempted: 1 })
    );
}

#[test]
fn recurrence_reports_binding_failures() {
    assert_eq!(
        running_total(
            vec![ProjectionValueKind::Scalar],
            vec![fact_binding("b"), fact_binding("a"), fact_binding("b"), fact_binding("a")],
            vec![],
            vec![literal(1.0)],
            0
        ),
        Err(ProjectionError::DuplicateInputBinding { projection: pid("total"), input: iid("a") })
    );
    let declared = ParameterRef::new(
        ParameterId::parse("rate").expect("valid"),
        ExpressionValueKind::Scalar,
    );
    assert_eq!(
        running_total(
            vec![ProjectionValueKind::Scalar],
            vec![],
            vec![declared.clone(), declared.clone()],
            vec![literal(1.0)],
            0
        ),
        Err(ProjectionError::DuplicateParameterDeclaration {
            projection: pid("total"),
            parameter: ParameterId::parse("rate").expect("valid"),
        })
    );
    assert_eq!(
        running_total(
            vec![ProjectionValueKind::Scalar],
            vec![previous_binding("p", 2, ProjectionValueKind::Scalar)],
            vec![],
            vec![input_leaf("p")],
            0
        ),
        Err(ProjectionError::PreviousStateIndex {
            projection: pid("total"),
            input: iid("p"),
            state_len: 1,
            attempted: 2,
        })
    );
    assert_eq!(
        running_total(
            vec![ProjectionValueKind::Scalar],
            vec![previous_binding("p", 0, ProjectionValueKind::Extensive)],
            vec![],
            vec![input_leaf("p")],
            0
        ),
        Err(ProjectionError::PreviousStateKind {
            projection: pid("total"),
            input: iid("p"),
            index: 0,
            expected: ProjectionValueKind::Scalar,
            actual: ProjectionValueKind::Extensive,
        })
    );
}

#[test]
fn recurrence_reports_update_failures() {
    assert_eq!(
        running_total(vec![ProjectionValueKind::Truth], vec![], vec![], vec![literal(1.0)], 0),
        Err(ProjectionError::RecurrenceUpdateKind {
            projection: pid("total"),
            index: 0,
            expected: ProjectionValueKind::Truth,
            actual: ExpressionValueKind::Scalar,
        })
    );
    let forcing = RuleExpr::forcing(IR, V1, ForcingRef::new(ForcingId::parse("rain").expect("valid")));
    assert_eq!(
        running_total(vec![ProjectionValueKind::Scalar], vec![], vec![], vec![forcing], 0),
        Err(ProjectionError::ForbiddenRecurrenceLeaf {
            projection: pid("total"),
            leaf: ForbiddenRecurrenceLeaf::Forcing,
        })
    );
    assert_eq!(
        running_total(vec![ProjectionValueKind::Scalar], vec![], vec![], vec![input_leaf("ghost")], 0),
        Err(ProjectionError::MissingInputBinding { projection: pid("total"), input: iid("ghost") })
    );
    assert_eq!(
        running_total(
            vec![ProjectionValueKind::Scalar],
            vec![fact_binding("unused")],
            vec![],
            vec![literal(1.0)],
            0
        ),
        Err(ProjectionError::MissingInputBinding { projection: pid("total"), input: iid("unused") })
    );
}

#[test]
fn recurrence_records_projection_dependencies_in_pre_order() {
    let read = |name: &str| {
        RuleExpr::projection(IR, V1, ProjectionRef::new(pid(name), ProjectionValueKind::Scalar))
    };
    let spec = running_total(
        vec![ProjectionValueKind::Scalar],
        vec![],
        vec![],
        vec![RuleExpr::add(read("beta"), read("alpha")).expect("scalar")],
        0,
    )
    .expect("closed recurrence");
    let names: Vec<&str> = spec.dependencies().iter().map(|r| r.id().as_str()).collect();
    assert_eq!(names, ["beta", "alpha"]);
    let wrapped = ProjectionSpec::FiniteRecurrence(spec);
    let names: Vec<&str> = wrapped.dependencies().iter().map(|r| r.id().as_str()).collect();
    assert_eq!(names, ["beta", "alpha"]);
}

#[test]
fn projection_set_keeps_authored_order_and_canonical_states() {
    let set = ProjectionSet::new(
        vec![fact_lag("zeta", 2), projection_lag("alpha", "zeta", ProjectionValueKind::Extensive)],
        vec![extensive_state("alpha", 1), extensive_state("zeta", 2)],
    )
    .expect("valid set");
    let specs: Vec<&str> = set.iter().iter().map(|s| s.id().as_str()).collect();
    assert_eq!(specs, ["zeta", "alpha"]);
    let states: Vec<&str> = set.initial_states().iter().map(|s| s.projection().as_str()).collect();
    assert_eq!(states, ["alpha", "zeta"]);
    assert_eq!(set.initial_state(&pid("zeta")).map(|s| s.values().len()), Some(2));
    assert!(set.initial_state(&pid("omega")).is_none());
}

#[test]
fn projection_set_reports_identity_failures_in_order() {
    assert_eq!(
        ProjectionSet::new(vec![fact_lag("a", 1), fact_lag("a", 1)], vec![]),
        Err(ProjectionError::DuplicateProjection { projection: pid("a") })
    );
    assert_eq!(
        ProjectionSet::new(
            vec![fact_lag("a", 1)],
            vec![extensive_state("b", 1), extensive_state("a", 1), extensive_state("b", 1)]
        ),
        Err(ProjectionError::DuplicateInitialState { projection: pid("b") })
    );
    assert_eq!(
        ProjectionSet::new(vec![fact_lag("b", 1), fact_lag("a", 1)], vec![extensive_state("a", 1)]),
        Err(ProjectionError::MissingInitialState { projection: pid("b") })
    );
    assert_eq!(
        ProjectionSet::new(
            vec![fact_lag("a", 1)],
            vec![extensive_state("z", 1), extensive_state("a", 1), extensive_state("m", 1)]
        ),
        Err(ProjectionError::UnknownInitialState { projection: pid("m") })
    );
}

#[test]
fn projection_set_reports_reference_failures() {
    assert_eq!(
        ProjectionSet::new(
            vec![projection_lag("a", "ghost", ProjectionValueKind::Extensive)],
            vec![extensive_state("a", 1)]
        ),
        Err(ProjectionError::UnknownProjectionReference { owner: pid("a"), reference: pid("ghost") })
    );
    assert_eq!(
        ProjectionSet::new(
            vec![fact_lag("a", 1), projection_lag("b", "a", ProjectionValueKind::Scalar)],
            vec![extensive_state("a", 1), extensive_state("b", 1)]
        ),
        Err(ProjectionError::ProjectionReferenceKind {
            owner: pid("b"),
            reference: pid("a"),
            expected: ProjectionValueKind::Scalar,
            actual: ProjectionValueKind::Extensive,
        })
    );
}

#[test]
fn projection_set_reports_cycles_before_order() {
    assert_eq!(
        ProjectionSet::new(
            vec![
                projection_lag("a", "b", ProjectionValueKind::Extensive),
                projection_lag("b", "a", ProjectionValueKind::Extensive),
            ],
            vec![extensive_state("a", 1), extensive_state("b", 1)]
        ),
        Err(ProjectionError::CyclicDependency { cycle: vec![pid("a"), pid("b"), pid("a")] })
    );
    assert_eq!(
        ProjectionSet::new(
            vec![projection_lag("b", "a", ProjectionValueKind::Extensive), fact_lag("a", 1)],
            vec![extensive_state("a", 1), extensive_state("b", 1)]
        ),
        Err(ProjectionError::DependencyNotEarlier {
            owner: pid("b"),
            reference: pid("a"),
            owner_index: 0,
            reference_index: 1,
        })
    );
}

#[test]
fn projection_set_checks_initial_state_shapes() {
    assert_eq!(
        ProjectionSet::new(vec![fact_lag("a", 2)], vec![extensive_state("a", 1)]),
        Err(ProjectionError::InitialStateLength { projection: pid("a"), expected: 2, actual: 1 })
    );
    let rolling = ProjectionSpec::OrderedRollingAggregate(
        OrderedRollingAggregateSpec::new(
            IR,
            V1,
            pid("sum"),
            ProjectionSource::AuthoritativeFact(inflow()),
            3,
            RollingAggregate::SumOldestToNewest,
        )
        .expect("positive window"),
    );
    assert!(ProjectionSet::new(vec![rolling.clone()], vec![extensive_state("sum", 2)]).is_ok());
    let truth_state = InitialProjectorState::new(
        pid("sum"),
        V1,
        vec![InitialProjectionValue::Extensive(0), InitialProjectionValue::Truth(true)],
    )
    .expect("finite values");
    assert_eq!(
        ProjectionSet::new(vec![rolling], vec![truth_state]),
        Err(ProjectionError::InitialStateKind {
            projection: pid("sum"),
            index: 1,
            expected: ProjectionValueKind::Extensive,
            actual: ProjectionValueKind::Truth,
        })
    );
}

#[test]
fn recurrence_reports_leaf_kind_failures() {
    let truth_leaf = RuleExpr::input(IR, V1, InputRef::new(iid("flow"), ExpressionValueKind::Truth));
    let selected = RuleExpr::select(truth_leaf, literal(1.0), literal(0.0)).expect("typed operands");
    assert_eq!(
        running_total(vec![ProjectionValueKind::Scalar], vec![fact_binding("flow")], vec![], vec![selected], 0),
        Err(ProjectionError::InputBindingKind {
            projection: pid("total"),
            input: iid("flow"),
            expected: ExpressionValueKind::Truth,
            actual: ExpressionValueKind::Scalar,
        })
    );
    let rate = || ParameterId::parse("rate").expect("valid");
    let leaf = RuleExpr::parameter(IR, V1, ParameterRef::new(rate(), ExpressionValueKind::Scalar));
    assert_eq!(
        running_total(vec![ProjectionValueKind::Scalar], vec![], vec![], vec![leaf], 0),
        Err(ProjectionError::MissingParameterDeclaration { projection: pid("total"), parameter: rate() })
    );
    let leaf = RuleExpr::parameter(IR, V1, ParameterRef::new(rate(), ExpressionValueKind::Scalar));
    assert_eq!(
        running_total(
            vec![ProjectionValueKind::Scalar],
            vec![],
            vec![ParameterRef::new(rate(), ExpressionValueKind::Truth)],
            vec![leaf],
            0
        ),
        Err(ProjectionError::ParameterDeclarationKind {
            projection: pid("total"),
            parameter: rate(),
            expected: ExpressionValueKind::Scalar,
            actual: ExpressionValueKind::Truth,
        })
    );
    let lookup = RuleExpr::interpolated_table(
        incidence_core::rule_reference::InterpolatedTableRef::new(
            incidence_core::rule_reference::TableId::parse("curve").expect("valid"),
        ),
        literal(1.0),
    )
    .expect("scalar input");
    assert_eq!(
        running_total(vec![ProjectionValueKind::Scalar], vec![], vec![], vec![lookup], 0),
        Err(ProjectionError::ForbiddenRecurrenceLeaf {
            projection: pid("total"),
            leaf: ForbiddenRecurrenceLeaf::InterpolatedTable,
        })
    );
}

#[test]
fn every_state_of_a_built_set_has_its_specifications_shape() {
    let set = ProjectionSet::new(
        vec![fact_lag("zeta", 2), projection_lag("alpha", "zeta", ProjectionValueKind::Extensive)],
        vec![extensive_state("alpha", 1), extensive_state("zeta", 2)],
    )
    .expect("valid set");
    for spec in set.iter() {
        let state = set.initial_state(spec.id()).expect("every specification has a state");
        let expected = match spec {
            ProjectionSpec::BoundedLag(lag) => lag.steps(),
            _ => unreachable!("only lags in this set"),
        };
        assert_eq!(state.values().len(), expected);
        assert!(state.values().iter().all(|v| matches!(v, ProjectionValue::Extensive(_))));
        for dependency in spec.dependencies() {
            let position = set.iter().iter().position(|s| s.id() == dependency.id());
            let own = set.iter().iter().position(|s| s.id() == spec.id());
            assert!(position < own);
        }
    }
}
