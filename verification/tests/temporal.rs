use incidence_core::temporal::{
    CalendarInstant, CalendarOrigin, FixedStepCalendar, RunHorizon, TemporalError,
    TimestepDuration, TimestepIndex,
};

fn calendar(origin: i64, seconds: u64) -> FixedStepCalendar {
    FixedStepCalendar::new(
        CalendarOrigin::new(CalendarInstant::from_unix_seconds(origin)),
        TimestepDuration::from_seconds(seconds).expect("positive duration"),
    )
}

#[test]
fn zero_duration_is_rejected() {
    assert_eq!(
        TimestepDuration::from_seconds(0),
        Err(TemporalError::ZeroTimestepDuration { seconds: 0 })
    );
    assert_eq!(TimestepDuration::from_seconds(60).map(|d| d.seconds()), Ok(60));
}

#[test]
fn instant_at_is_origin_plus_index_times_duration() {
    let cal = calendar(1_000, 60);
    let instant = cal.instant_at(TimestepIndex::new(2)).expect("representable");
    assert_eq!(instant.unix_seconds(), 1_120);
    let negative = calendar(-500, 100);
    assert_eq!(
        negative.instant_at(TimestepIndex::new(3)).map(CalendarInstant::unix_seconds),
        Ok(-200)
    );
}

#[test]
fn index_of_inverts_instant_at() {
    let cal = calendar(1_000, 60);
    for index in [0_u64, 1, 7, 1_000] {
        let instant = cal.instant_at(TimestepIndex::new(index)).expect("representable");
        assert_eq!(cal.index_of(instant).map(TimestepIndex::value), Ok(index));
    }
}

#[test]
fn index_of_rejects_preceding_and_unaligned_instants() {
    let cal = calendar(1_000, 60);
    assert_eq!(
        cal.index_of(CalendarInstant::from_unix_seconds(999)),
        Err(TemporalError::InstantBeforeOrigin {
            origin_unix_seconds: 1_000,
            instant_unix_seconds: 999,
        })
    );
    assert_eq!(
        cal.index_of(CalendarInstant::from_unix_seconds(1_030)),
        Err(TemporalError::InstantNotOnTimestep {
            origin_unix_seconds: 1_000,
            timestep_duration_seconds: 60,
            instant_unix_seconds: 1_030,
        })
    );
}

#[test]
fn instant_at_reports_overflow() {
    let cal = calendar(i64::MAX, 1);
    assert_eq!(
        cal.instant_at(TimestepIndex::new(1)),
        Err(TemporalError::CalendarArithmeticOverflow {
            origin_unix_seconds: i64::MAX,
            timestep_duration_seconds: 1,
            timestep_index: 1,
        })
    );
    assert_eq!(
        cal.instant_at(TimestepIndex::new(0)).map(CalendarInstant::unix_seconds),
        Ok(i64::MAX)
    );
}

#[test]
fn horizon_is_inclusive_and_rejects_reversal() {
    let horizon = RunHorizon::new(TimestepIndex::new(2), TimestepIndex::new(5)).expect("ordered");
    assert_eq!(horizon.first().value(), 2);
    assert_eq!(horizon.last().value(), 5);
    assert!(!horizon.contains(TimestepIndex::new(1)));
    assert!(horizon.contains(TimestepIndex::new(2)));
    assert!(horizon.contains(TimestepIndex::new(5)));
    assert!(!horizon.contains(TimestepIndex::new(6)));
    assert!(RunHorizon::new(TimestepIndex::new(4), TimestepIndex::new(4)).is_ok());
    assert_eq!(
        RunHorizon::new(TimestepIndex::new(5), TimestepIndex::new(2)),
        Err(TemporalError::ReversedRunHorizon {
            first_timestep: 5,
            last_timestep: 2,
        })
    );
}
