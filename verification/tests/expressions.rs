use incidence_core::numerical_semantics::{
    AccumulationError, NumericalSemanticsVersion, ScalarComparison,
};
use incidence_core::partition_expression::{
    canonical_branches, fraction_accumulation_error, Fraction, FractionBranch, FractionError, PartitionExpr, PartitionExprError,
    PartitionExprView,
};
use incidence_core::rule_expression::{
    RuleExpr, RuleExprError, RuleExprOperand, RuleExprOperation, RuleExprView, MAX_RULE_EXPR_DEPTH,
};
use incidence_core::rule_reference::{
    ExpressionValueKind, ForcingId, ForcingRef, InputId, InputRef, InterpolatedTableRef, TableId,
    TransferBranchId,
};
use incidence_core::versions::RuleIrVersion;

const IR: RuleIrVersion = RuleIrVersion::V1;
const V1: NumericalSemanticsVersion = NumericalSemanticsVersion::V1;

fn literal(value: f64) -> RuleExpr {
    RuleExpr::literal(IR, V1, value.to_bits()).expect("finite literal")
}

fn truth_input(name: &str) -> RuleExpr {
    RuleExpr::input(
        IR,
        V1,
        InputRef::new(
            InputId::parse(name).expect("fixture identity must be valid"),
            ExpressionValueKind::Truth,
        ),
    )
}

fn branch(name: &str) -> TransferBranchId {
    TransferBranchId::parse(name).expect("fixture identity must be valid")
}

fn fraction(value: f64) -> Fraction {
    Fraction::new(V1, value.to_bits()).expect("fraction in range")
}

#[test]
fn literal_rejects_non_finite_bits_and_canonicalises_zero() {
    let nan = f64::NAN.to_bits();
    assert_eq!(
        RuleExpr::literal(IR, V1, nan).map(|_| ()),
        Err(RuleExprError::NonFiniteLiteral { bits: nan })
    );
    let zero = RuleExpr::literal(IR, V1, (-0.0_f64).to_bits()).expect("finite literal");
    assert!(matches!(zero.view(), RuleExprView::Literal(l) if l.bits() == 0));
    assert_eq!(zero.depth(), 1);
    assert_eq!(zero.value_kind(), ExpressionValueKind::Scalar);
}

#[test]
fn combinators_check_operand_kinds_in_order() {
    assert_eq!(
        RuleExpr::add(truth_input("wet"), truth_input("dry")).map(|_| ()),
        Err(RuleExprError::IncompatibleValueKind {
            operation: RuleExprOperation::Add,
            position: RuleExprOperand::Left,
            expected: ExpressionValueKind::Scalar,
            actual: ExpressionValueKind::Truth,
        })
    );
    assert_eq!(
        RuleExpr::divide(literal(1.0), truth_input("dry")).map(|_| ()),
        Err(RuleExprError::IncompatibleValueKind {
            operation: RuleExprOperation::Divide,
            position: RuleExprOperand::Right,
            expected: ExpressionValueKind::Scalar,
            actual: ExpressionValueKind::Truth,
        })
    );
    assert_eq!(
        RuleExpr::select(literal(1.0), literal(2.0), literal(3.0)).map(|_| ()),
        Err(RuleExprError::IncompatibleValueKind {
            operation: RuleExprOperation::Select,
            position: RuleExprOperand::Condition,
            expected: ExpressionValueKind::Truth,
            actual: ExpressionValueKind::Scalar,
        })
    );
    assert_eq!(
        RuleExpr::clamp(literal(1.0), literal(0.0), truth_input("cap")).map(|_| ()),
        Err(RuleExprError::IncompatibleValueKind {
            operation: RuleExprOperation::Clamp,
            position: RuleExprOperand::Upper,
            expected: ExpressionValueKind::Scalar,
            actual: ExpressionValueKind::Truth,
        })
    );
}

#[test]
fn comparison_yields_truth_and_select_yields_scalar() {
    let condition = RuleExpr::comparison(ScalarComparison::LessThan, literal(1.0), literal(2.0))
        .expect("scalar operands");
    assert_eq!(condition.value_kind(), ExpressionValueKind::Truth);
    assert_eq!(condition.depth(), 2);
    let chosen = RuleExpr::select(condition, literal(3.0), literal(4.0)).expect("typed operands");
    assert_eq!(chosen.value_kind(), ExpressionValueKind::Scalar);
    assert_eq!(chosen.depth(), 3);
    assert_eq!(chosen.rule_ir_version(), IR);
    assert_eq!(chosen.numerical_semantics_version(), V1);
    assert!(matches!(chosen.view(), RuleExprView::Select { .. }));
    let copy = chosen.clone();
    assert_eq!(copy, chosen);
}

#[test]
fn depth_is_bounded() {
    let mut expr = literal(1.0);
    for _ in 1..MAX_RULE_EXPR_DEPTH {
        expr = RuleExpr::add(expr, literal(1.0)).expect("within depth");
    }
    assert_eq!(expr.depth(), MAX_RULE_EXPR_DEPTH);
    assert_eq!(
        RuleExpr::add(literal(1.0), expr).map(|_| ()),
        Err(RuleExprError::ExpressionTooDeep {
            maximum: MAX_RULE_EXPR_DEPTH,
            attempted: MAX_RULE_EXPR_DEPTH + 1,
        })
    );
}

#[test]
fn table_lookup_requires_a_scalar_input() {
    let table = InterpolatedTableRef::new(TableId::parse("curve").expect("valid"));
    let lookup = RuleExpr::interpolated_table(table.clone(), literal(2.0)).expect("scalar input");
    assert_eq!(lookup.depth(), 2);
    assert_eq!(
        RuleExpr::interpolated_table(table, truth_input("wet")).map(|_| ()),
        Err(RuleExprError::IncompatibleValueKind {
            operation: RuleExprOperation::InterpolatedTable,
            position: RuleExprOperand::Input,
            expected: ExpressionValueKind::Scalar,
            actual: ExpressionValueKind::Truth,
        })
    );
}

#[test]
fn fractions_lie_in_the_unit_interval() {
    assert_eq!(fraction(0.25).bits(), 0.25_f64.to_bits());
    assert_eq!(fraction(-0.0).bits(), 0);
    assert_eq!(fraction(1.0).bits(), 1.0_f64.to_bits());
    for value in [1.5_f64, -0.5, f64::NAN, f64::INFINITY] {
        assert_eq!(
            Fraction::new(V1, value.to_bits()),
            Err(FractionError::OutOfRange { bits: value.to_bits() })
        );
    }
}

#[test]
fn canonical_branches_sort_and_reject_least_repeated_branch() {
    let sorted = canonical_branches(vec![
        FractionBranch::new(branch("spill"), fraction(0.25)),
        FractionBranch::new(branch("drain"), fraction(0.5)),
    ])
    .expect("distinct branches");
    let names: Vec<&str> = sorted.iter().map(|b| b.branch().as_str()).collect();
    assert_eq!(names, ["drain", "spill"]);
    assert_eq!(
        canonical_branches(vec![
            FractionBranch::new(branch("spill"), fraction(0.1)),
            FractionBranch::new(branch("drain"), fraction(0.1)),
            FractionBranch::new(branch("spill"), fraction(0.1)),
            FractionBranch::new(branch("drain"), fraction(0.1)),
        ]),
        Err(PartitionExprError::DuplicateBranch { branch: branch("drain") })
    );
}

#[test]
fn fixed_fraction_split_requires_a_unit_total() {
    let branches = || {
        vec![
            FractionBranch::new(branch("spill"), fraction(0.25)),
            FractionBranch::new(branch("drain"), fraction(0.25)),
        ]
    };
    let total = 0.5_f64 + 0.25 + 0.25;
    let split = PartitionExpr::fixed_fraction_split(IR, V1, fraction(0.5), branches(), Ok(total.to_bits()))
        .expect("exhaustive split");
    match split.view() {
        PartitionExprView::FixedFractionSplit { retained_fraction, branches } => {
            assert_eq!(retained_fraction, fraction(0.5));
            let names: Vec<&str> = branches.iter().map(|b| b.branch().as_str()).collect();
            assert_eq!(names, ["drain", "spill"]);
        }
        _ => panic!("expected a fixed split"),
    }
    let short = 0.9_f64.to_bits();
    assert_eq!(
        PartitionExpr::fixed_fraction_split(IR, V1, fraction(0.4), branches(), Ok(short)),
        Err(PartitionExprError::InvalidFixedFractionTotal { total_bits: short })
    );
}

#[test]
fn simple_partitions_record_their_branch() {
    let retain = PartitionExpr::retain_all(IR, V1);
    assert!(matches!(retain.view(), PartitionExprView::RetainAll));
    let release = PartitionExpr::release_all(IR, V1, branch("drain"));
    assert!(matches!(release.view(), PartitionExprView::ReleaseAll { branch } if branch.as_str() == "drain"));
    let series = PartitionExpr::exogenous_series(
        IR,
        V1,
        branch("pump"),
        ForcingRef::new(ForcingId::parse("pumping").expect("valid")),
    );
    assert_eq!(series.rule_ir_version(), IR);
    assert_eq!(series.numerical_semantics_version(), V1);
    let constant = PartitionExpr::constant_fraction_transfer(IR, V1, branch("seep"), fraction(0.1))
        .expect("always valid");
    assert!(matches!(constant.view(), PartitionExprView::ConstantFractionTransfer { fraction: f, .. } if f == fraction(0.1)));
}

#[test]
fn accumulation_error_mapping_preserves_the_complete_cause() {
    let actual = fraction_accumulation_error(AccumulationError::NonFiniteSum {
        version: NumericalSemanticsVersion::V1,
        index: 3,
        partial_sum_bits: f64::MAX.to_bits(),
        addend_bits: 0.875_f64.to_bits(),
    });
    assert_eq!(
        actual,
        PartitionExprError::FractionAccumulation {
            cause: AccumulationError::NonFiniteSum {
                version: NumericalSemanticsVersion::V1,
                index: 3,
                partial_sum_bits: f64::MAX.to_bits(),
                addend_bits: 0.875_f64.to_bits()
            }
        }
    );
}

#[test]
fn fixed_fraction_split_passes_accumulation_failures_through() {
    let cause = AccumulationError::NonFiniteSum {
        version: V1,
        index: 1,
        partial_sum_bits: 0,
        addend_bits: f64::INFINITY.to_bits(),
    };
    assert_eq!(
        PartitionExpr::fixed_fraction_split(
            IR,
            V1,
            fraction(1.0),
            vec![FractionBranch::new(branch("drain"), fraction(0.0))],
            Err(cause)
        ),
        Err(PartitionExprError::FractionAccumulation { cause })
    );
}

#[test]
fn depth_is_one_more_than_the_deepest_child() {
    let shallow = literal(1.0);
    let deeper = RuleExpr::add(literal(1.0), RuleExpr::add(literal(2.0), literal(3.0)).expect("add"))
        .expect("add");
    assert_eq!(deeper.depth(), 3);
    let clamped = RuleExpr::clamp(shallow, deeper, literal(4.0)).expect("scalar operands");
    let children = match clamped.view() {
        RuleExprView::Clamp { value, lower, upper } => [value.depth(), lower.depth(), upper.depth()],
        _ => panic!("a clamp views as a clamp"),
    };
    assert_eq!(children, [1, 3, 1]);
    assert_eq!(clamped.depth(), 1 + children.iter().copied().max().unwrap_or(0));
}
