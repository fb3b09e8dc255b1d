use incidence_core::execution_bindings::{
    ExecutionBindings, ExecutionBindingsError, RuleInputBinding, RuleInputSource,
    TransferBranchBinding,
};
use incidence_core::identity::{CompartmentId, SubstanceId};
use incidence_core::rule_reference::{
    ExpressionValueKind, ForcingId, ForcingRef, InputId, InputRef, InterpolatedTableRef,
    ProjectionId, ProjectionRef, ProjectionValueKind, RuleReferenceIdentityError,
    RuleReferenceKind, TableId, TransferBranchId,
};

fn cid(value: &str) -> CompartmentId {
    CompartmentId::parse(value).expect("fixture identity must be valid")
}

fn sid(value: &str) -> SubstanceId {
    SubstanceId::parse(value).expect("fixture identity must be valid")
}

fn branch(value: &str) -> TransferBranchId {
    TransferBranchId::parse(value).expect("fixture identity must be valid")
}

fn input(value: &str) -> InputId {
    InputId::parse(value).expect("fixture identity must be valid")
}

fn transfer(c: &str, s: &str, b: &str, d: &str) -> TransferBranchBinding {
    TransferBranchBinding::new(cid(c), sid(s), branch(b), cid(d))
}

fn forcing_input(c: &str, s: &str, i: &str, f: &str) -> RuleInputBinding {
    RuleInputBinding::new(
        cid(c),
        sid(s),
        InputRef::new(input(i), ExpressionValueKind::Scalar),
        RuleInputSource::Forcing(ForcingRef::new(
            ForcingId::parse(f).expect("fixture identity must be valid"),
        )),
    )
}

#[test]
fn bindings_are_stored_in_canonical_coordinate_order() {
    let bindings = ExecutionBindings::new(
        vec![transfer("lake", "salt", "spill", "sea"), transfer("lake", "salt", "drain", "river")],
        vec![forcing_input("lake", "salt", "rain", "rainfall"), forcing_input("dam", "salt", "rain", "gauge")],
    )
    .expect("no repeated coordinates");
    let branches: Vec<&str> = bindings
        .transfer_bindings()
        .iter()
        .map(|b| b.branch().as_str())
        .collect();
    assert_eq!(branches, ["drain", "spill"]);
    let compartments: Vec<&str> = bindings
        .input_bindings()
        .iter()
        .map(|b| b.compartment().as_str())
        .collect();
    assert_eq!(compartments, ["dam", "lake"]);
}

#[test]
fn destination_and_input_source_look_up_exact_coordinates() {
    let bindings = ExecutionBindings::new(
        vec![transfer("lake", "salt", "drain", "river")],
        vec![forcing_input("lake", "salt", "rain", "rainfall")],
    )
    .expect("no repeated coordinates");
    assert_eq!(
        bindings.destination(&cid("lake"), &sid("salt"), &branch("drain")),
        Some(&cid("river"))
    );
    assert_eq!(bindings.destination(&cid("lake"), &sid("water"), &branch("drain")), None);
    assert_eq!(bindings.destination(&cid("lake"), &sid("salt"), &branch("spill")), None);
    let source = bindings
        .input_source(&cid("lake"), &sid("salt"), &input("rain"))
        .expect("bound input");
    assert_eq!(source.value_kind(), ExpressionValueKind::Scalar);
    assert!(matches!(source, RuleInputSource::Forcing(f) if f.id().as_str() == "rainfall"));
    assert!(bindings.input_source(&cid("dam"), &sid("salt"), &input("rain")).is_none());
}

#[test]
fn rejects_least_repeated_transfer_branch_before_inputs() {
    let result = ExecutionBindings::new(
        vec![
            transfer("lake", "salt", "spill", "sea"),
            transfer("dam", "salt", "drain", "sea"),
            transfer("lake", "salt", "spill", "river"),
            transfer("dam", "salt", "drain", "lake"),
        ],
        vec![forcing_input("lake", "salt", "rain", "a"), forcing_input("lake", "salt", "rain", "b")],
    );
    assert_eq!(
        result,
        Err(ExecutionBindingsError::DuplicateTransferBranch {
            compartment: cid("dam"),
            substance: sid("salt"),
            branch: branch("drain"),
        })
    );
}

#[test]
fn rejects_repeated_rule_input_regardless_of_source() {
    let result = ExecutionBindings::new(
        vec![],
        vec![
            forcing_input("lake", "salt", "rain", "a"),
            RuleInputBinding::new(
                cid("lake"),
                sid("salt"),
                InputRef::new(input("rain"), ExpressionValueKind::Truth),
                RuleInputSource::InterpolationTable(InterpolatedTableRef::new(
                    TableId::parse("curve").expect("fixture identity must be valid"),
                )),
            ),
        ],
    );
    assert_eq!(
        result,
        Err(ExecutionBindingsError::DuplicateRuleInput {
            compartment: cid("lake"),
            substance: sid("salt"),
            input: input("rain"),
        })
    );
}

#[test]
fn projection_sources_yield_the_projection_value_kind() {
    let truth = RuleInputSource::Projection(ProjectionRef::new(
        ProjectionId::parse("flooded").expect("fixture identity must be valid"),
        ProjectionValueKind::Truth,
    ));
    assert_eq!(truth.value_kind(), ExpressionValueKind::Truth);
    let scalar = RuleInputSource::Projection(ProjectionRef::new(
        ProjectionId::parse("mean").expect("fixture identity must be valid"),
        ProjectionValueKind::Scalar,
    ));
    assert_eq!(scalar.value_kind(), ExpressionValueKind::Scalar);
    let empty = ExecutionBindings::empty();
    assert!(empty.transfer_bindings().is_empty());
    assert!(empty.input_bindings().is_empty());
    assert_eq!(ExecutionBindings::default(), empty);
}

#[test]
fn reference_identities_parse_from_str() {
    let id: InputId = "rain".parse().expect("valid identity");
    assert_eq!(id.as_str(), "rain");
    let table: TableId = "curve_2".parse().expect("valid identity");
    assert_eq!(table.as_str(), "curve_2");
    assert!("2curve".parse::<TableId>().is_err());
    assert!("".parse::<ForcingId>().is_err());
}

#[test]
fn reference_identity_errors_name_the_kind_and_the_offending_character() {
    assert_eq!(
        ForcingId::parse(""),
        Err(RuleReferenceIdentityError::Empty { kind: RuleReferenceKind::Forcing })
    );
    assert_eq!(
        TableId::parse("Curve"),
        Err(RuleReferenceIdentityError::InvalidStart {
            kind: RuleReferenceKind::Table,
            value: "Curve".to_owned(),
        })
    );
    assert_eq!(
        TransferBranchId::parse("spill way"),
        Err(RuleReferenceIdentityError::InvalidCharacter {
            kind: RuleReferenceKind::TransferBranch,
            value: "spill way".to_owned(),
            byte_index: 5,
            character: ' ',
        })
    );
}
