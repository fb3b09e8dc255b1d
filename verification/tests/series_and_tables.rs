use incidence_core::forcing::{ForcingSeries, ForcingSeriesError};
use incidence_core::interpolation_table::{
    InterpolationBoundaryPolicy, InterpolationTable, InterpolationTableError,
};
use incidence_core::numerical_semantics::NumericalSemanticsVersion;
use incidence_core::presence::ValueState;
use incidence_core::rule_reference::{ForcingId, TableId};
use incidence_core::temporal::{RunHorizon, TimestepIndex};

fn bits(values: &[f64]) -> Vec<u64> {
    values.iter().map(|v| v.to_bits()).collect()
}

fn horizon(first: u64, last: u64) -> RunHorizon {
    RunHorizon::new(TimestepIndex::new(first), TimestepIndex::new(last)).expect("ordered horizon")
}

fn forcing_id() -> ForcingId {
    ForcingId::parse("rainfall").expect("fixture identity must be valid")
}

fn table_id() -> TableId {
    TableId::parse("rating_curve").expect("fixture identity must be valid")
}

#[test]
fn forcing_series_answers_by_timestep() {
    let series = ForcingSeries::new(forcing_id(), horizon(10, 12), bits(&[1.0, -0.0, 2.5]))
        .expect("valid series");
    assert_eq!(series.len(), 3);
    assert!(!series.is_empty());
    assert_eq!(series.id().as_str(), "rainfall");
    assert_eq!(series.horizon(), horizon(10, 12));
    assert_eq!(series.values(), bits(&[1.0, 0.0, 2.5]).as_slice());
    assert_eq!(series.value_at(TimestepIndex::new(9)), ValueState::Absent);
    assert_eq!(series.value_at(TimestepIndex::new(10)), ValueState::Present(1.0_f64.to_bits()));
    assert_eq!(series.value_at(TimestepIndex::new(11)), ValueState::Present(0));
    assert_eq!(series.value_at(TimestepIndex::new(12)), ValueState::Present(2.5_f64.to_bits()));
    assert_eq!(series.value_at(TimestepIndex::new(13)), ValueState::Absent);
}

#[test]
fn forcing_series_rejects_wrong_length_and_first_non_finite_value() {
    assert_eq!(
        ForcingSeries::new(forcing_id(), horizon(10, 12), bits(&[1.0, 2.0])),
        Err(ForcingSeriesError::ValueCountMismatch {
            first_timestep: 10,
            last_timestep: 12,
            expected: 3,
            actual: 2,
        })
    );
    let values = bits(&[1.0, f64::INFINITY, f64::NAN]);
    assert_eq!(
        ForcingSeries::new(forcing_id(), horizon(10, 12), values.clone()),
        Err(ForcingSeriesError::NonFiniteValue { timestep: 11, bits: values[1] })
    );
}

#[test]
fn interpolation_table_keeps_canonical_points() {
    let table = InterpolationTable::new(
        table_id(),
        NumericalSemanticsVersion::V1,
        InterpolationBoundaryPolicy::ClampToEndpoint,
        bits(&[-1.0, -0.0, 2.0]),
        bits(&[5.0, 6.0, -0.0]),
    )
    .expect("valid table");
    assert_eq!(table.len(), 3);
    assert!(!table.is_empty());
    assert_eq!(table.id().as_str(), "rating_curve");
    assert_eq!(table.numerical_semantics_version(), NumericalSemanticsVersion::V1);
    assert_eq!(table.boundary_policy(), InterpolationBoundaryPolicy::ClampToEndpoint);
    assert_eq!(
        table.points(),
        vec![
            ((-1.0_f64).to_bits(), 5.0_f64.to_bits()),
            (0, 6.0_f64.to_bits()),
            (2.0_f64.to_bits(), 0),
        ]
    );
}

#[test]
fn interpolation_table_reports_failures_in_validation_order() {
    let policy = InterpolationBoundaryPolicy::Reject;
    let v1 = NumericalSemanticsVersion::V1;
    assert_eq!(
        InterpolationTable::new(table_id(), v1, policy, bits(&[1.0]), bits(&[1.0, 2.0])),
        Err(InterpolationTableError::CoordinateCountMismatch { abscissae: 1, ordinates: 2 })
    );
    assert_eq!(
        InterpolationTable::new(table_id(), v1, policy, bits(&[1.0]), bits(&[1.0])),
        Err(InterpolationTableError::TooFewPoints { points: 1 })
    );
    let nan = f64::NAN.to_bits();
    assert_eq!(
        InterpolationTable::new(
            table_id(),
            v1,
            policy,
            vec![0, 1.0_f64.to_bits(), nan],
            vec![nan, 0, 0]
        ),
        Err(InterpolationTableError::NonFiniteAbscissa { index: 2, bits: nan })
    );
    assert_eq!(
        InterpolationTable::new(table_id(), v1, policy, bits(&[3.0, 1.0]), vec![0, nan]),
        Err(InterpolationTableError::NonFiniteOrdinate { index: 1, bits: nan })
    );
    assert_eq!(
        InterpolationTable::new(table_id(), v1, policy, bits(&[1.0, 2.0, 2.0]), bits(&[0.0, 0.0, 0.0])),
        Err(InterpolationTableError::AbscissaeNotStrictlyIncreasing {
            left_index: 1,
            right_index: 2,
            left_bits: 2.0_f64.to_bits(),
            right_bits: 2.0_f64.to_bits(),
        })
    );
    assert_eq!(
        InterpolationTable::new(table_id(), v1, policy, bits(&[-0.0, 0.0]), bits(&[0.0, 0.0])),
        Err(InterpolationTableError::AbscissaeNotStrictlyIncreasing {
            left_index: 0,
            right_index: 1,
            left_bits: 0,
            right_bits: 0,
        })
    );
    assert!(InterpolationTable::new(table_id(), v1, policy, bits(&[-2.0, -1.0]), bits(&[0.0, 0.0])).is_ok());
}
