//! Fixed-step time: calendars map timestep indices to signed Unix seconds and back.

use vstd::prelude::*;

verus! {

/// An error constructing or operating on fixed-step temporal domain types.
#[derive(Debug, Clone, PartialEq, Eq)]
pub enum TemporalError {
    /// Fires when a timestep duration of zero seconds is requested.
    ZeroTimestepDuration { seconds: u64 },
    /// Fires when a calendar instant cannot be represented as signed Unix seconds.
    CalendarArithmeticOverflow {
        origin_unix_seconds: i64,
        timestep_duration_seconds: u64,
        timestep_index: u64,
    },
    /// Fires when an instant precedes the calendar origin.
    InstantBeforeOrigin { origin_unix_seconds: i64, instant_unix_seconds: i64 },
    /// Fires when an instant does not align with a fixed timestep.
    InstantNotOnTimestep {
        origin_unix_seconds: i64,
        timestep_duration_seconds: u64,
        instant_unix_seconds: i64,
    },
    /// Fires when the last timestep precedes the first timestep.
    ReversedRunHorizon { first_timestep: u64, last_timestep: u64 },
}

/// An exact positive whole number of seconds between timesteps.
#[derive(Debug, Clone, Copy, PartialEq, Eq, PartialOrd, Ord, Hash)]
pub struct TimestepDuration(u64);

impl View for TimestepDuration {
    type V = nat;

    closed spec fn view(&self) -> nat {
        self.0 as nat
    }
}

impl TimestepDuration {
    #[verifier::type_invariant]
    closed spec fn positive(self) -> bool {
        self.0 > 0
    }

    /// Constructs a positive timestep duration from whole seconds.
    pub fn from_seconds(seconds: u64) -> (r: Result<Self, TemporalError>)
        ensures
            r is Ok <==> seconds > 0,
            r matches Ok(d) ==> (d@ == seconds),
            r matches Err(e) ==> e == (TemporalError::ZeroTimestepDuration { seconds }),
    {
        if seconds == 0 {
            Err(TemporalError::ZeroTimestepDuration { seconds })
        } else {
            Ok(TimestepDuration(seconds))
        }
    }

    /// Returns the duration in whole seconds.
    pub fn seconds(self) -> (r: u64)
        ensures
            r == self@,
            r > 0,
    {
        proof {
            use_type_invariant(&self);
        }
        self.0
    }
}

/// A zero-based timestep ordinal.
#[derive(Debug, Clone, Copy, PartialEq, Eq, PartialOrd, Ord, Hash)]
pub struct TimestepIndex(u64);

impl View for TimestepIndex {
    type V = u64;

    closed spec fn view(&self) -> u64 {
        self.0
    }
}

impl TimestepIndex {
    /// Constructs a timestep index.
    pub fn new(value: u64) -> (r: Self)
        ensures
            r@ == value,
    {
        TimestepIndex(value)
    }

    /// Returns the zero-based ordinal.
    pub fn value(self) -> (r: u64)
        ensures
            r == self@,
    {
        self.0
    }
}

/// A calendar coordinate expressed as signed Unix seconds.
#[derive(Debug, Clone, Copy, PartialEq, Eq, PartialOrd, Ord, Hash)]
pub struct CalendarInstant(i64);

impl View for CalendarInstant {
    type V = i64;

    closed spec fn view(&self) -> i64 {
        self.0
    }
}

impl CalendarInstant {
    /// Constructs a calendar instant from signed Unix seconds.
    pub fn from_unix_seconds(seconds: i64) -> (r: Self)
        ensures
            r@ == seconds,
    {
        CalendarInstant(seconds)
    }

    /// Returns the signed Unix-second coordinate.
    pub fn unix_seconds(self) -> (r: i64)
        ensures
            r == self@,
    {
        self.0
    }
}

/// The typed origin of a fixed-step calendar.
#[derive(Debug, Clone, Copy, PartialEq, Eq, PartialOrd, Ord, Hash)]
pub struct CalendarOrigin(CalendarInstant);

impl View for CalendarOrigin {
    type V = i64;

    closed spec fn view(&self) -> i64 {
        self.0@
    }
}

impl CalendarOrigin {
    /// Constructs a calendar origin.
    pub fn new(instant: CalendarInstant) -> (r: Self)
        ensures
            r@ == instant@,
    {
        CalendarOrigin(instant)
    }

    /// Returns the origin instant.
    pub fn instant(self) -> (r: CalendarInstant)
        ensures
            r@ == self@,
    {
        self.0
    }
}

/// The instant of timestep `index` on a calendar, when it is a signed 64-bit second.
pub open spec fn spec_instant_at(origin: int, duration: int, index: int) -> Option<int> {
    let exact = origin + duration * index;
    if i64::MIN <= exact <= i64::MAX {
        Some(exact)
    } else {
        None
    }
}

/// The index of `instant` on a calendar, when it lies on a timestep at or after the origin.
pub open spec fn spec_index_of(origin: int, duration: int, instant: int) -> Option<int> {
    if instant < origin || (instant - origin) % duration != 0 {
        None
    } else {
        Some((instant - origin) / duration)
    }
}

/// A calendar defined by one origin and one fixed positive duration.
#[derive(Debug, Clone, Copy, PartialEq, Eq, Hash)]
pub struct FixedStepCalendar {
    origin: CalendarOrigin,
    timestep_duration: TimestepDuration,
}

/// The mathematical content of a calendar: its origin and its step in seconds.
pub struct CalendarView {
    pub origin: int,
    pub duration: nat,
}

impl View for FixedStepCalendar {
    type V = CalendarView;

    closed spec fn view(&self) -> CalendarView {
        CalendarView { origin: self.origin@ as int, duration: self.timestep_duration@ }
    }
}

impl FixedStepCalendar {
    #[verifier::type_invariant]
    closed spec fn positive_step(self) -> bool {
        self.timestep_duration@ > 0
    }

    /// Constructs a fixed-step calendar.
    pub fn new(origin: CalendarOrigin, timestep_duration: TimestepDuration) -> (r: Self)
        ensures
            r@.origin == origin@ as int,
            r@.duration == timestep_duration@,
    {
        proof {
            use_type_invariant(&timestep_duration);
        }
        FixedStepCalendar { origin, timestep_duration }
    }

    /// Returns the calendar origin.
    pub fn origin(self) -> (r: CalendarOrigin)
        ensures
            r@ as int == self@.origin,
    {
        self.origin
    }

    /// Returns the fixed timestep duration.
    pub fn timestep_duration(self) -> (r: TimestepDuration)
        ensures
            r@ == self@.duration,
            r@ > 0,
    {
        proof {
            use_type_invariant(&self);
        }
        self.timestep_duration
    }

    /// Resolves a timestep index to its calendar instant.
    pub fn instant_at(self, index: TimestepIndex) -> (r: Result<CalendarInstant, TemporalError>)
        ensures
            self@.duration > 0,
            match spec_instant_at(self@.origin, self@.duration as int, index@ as int) {
                Some(t) => r matches Ok(instant) && instant@ == t,
                None => r == Err::<CalendarInstant, TemporalError>(
                    TemporalError::CalendarArithmeticOverflow {
                        origin_unix_seconds: self@.origin as i64,
                        timestep_duration_seconds: self@.duration as u64,
                        timestep_index: index@,
                    },
                ),
            },
    {
        proof {
            use_type_invariant(&self);
        }
        let origin_unix_seconds = self.origin.instant().unix_seconds();
        let timestep_duration_seconds = self.timestep_duration.seconds();
        let timestep_index = index.value();
        let overflow = TemporalError::CalendarArithmeticOverflow {
            origin_unix_seconds,
            timestep_duration_seconds,
            timestep_index,
        };
        let d = timestep_duration_seconds as u128;
        let i = timestep_index as u128;
        assert(d * i <= 0xffff_ffff_ffff_ffffu128 * 0xffff_ffff_ffff_ffffu128) by (nonlinear_arith)
            requires
                d <= 0xffff_ffff_ffff_ffffu128,
                i <= 0xffff_ffff_ffff_ffffu128,
        ;
        let scaled: u128 = d * i;
        if scaled > 0x1_0000_0000_0000_0000u128 {
            return Err(overflow);
        }
        let exact: i128 = scaled as i128 + origin_unix_seconds as i128;
        if exact < i64::MIN as i128 || exact > i64::MAX as i128 {
            return Err(overflow);
        }
        Ok(CalendarInstant::from_unix_seconds(exact as i64))
    }

    /// Resolves an aligned calendar instant to its timestep index.
    pub fn index_of(self, instant: CalendarInstant) -> (r: Result<TimestepIndex, TemporalError>)
        ensures
            self@.duration > 0,
            match spec_index_of(self@.origin, self@.duration as int, instant@ as int) {
                Some(i) => r matches Ok(index) && index@ == i,
                None => if (instant@ as int) < self@.origin {
                    r == Err::<TimestepIndex, TemporalError>(
                        TemporalError::InstantBeforeOrigin {
                            origin_unix_seconds: self@.origin as i64,
                            instant_unix_seconds: instant@,
                        },
                    )
                } else {
                    r == Err::<TimestepIndex, TemporalError>(
                        TemporalError::InstantNotOnTimestep {
                            origin_unix_seconds: self@.origin as i64,
                            timestep_duration_seconds: self@.duration as u64,
                            instant_unix_seconds: instant@,
                        },
                    )
                },
            },
    {
        proof {
            use_type_invariant(&self);
        }
        let origin_unix_seconds = self.origin.instant().unix_seconds();
        let instant_unix_seconds = instant.unix_seconds();
        if instant_unix_seconds < origin_unix_seconds {
            return Err(TemporalError::InstantBeforeOrigin { origin_unix_seconds, instant_unix_seconds });
        }
        let timestep_duration_seconds = self.timestep_duration.seconds();
        let offset: i128 = instant_unix_seconds as i128 - origin_unix_seconds as i128;
        let duration: i128 = timestep_duration_seconds as i128;
        if offset % duration != 0 {
            return Err(
                TemporalError::InstantNotOnTimestep {
                    origin_unix_seconds,
                    timestep_duration_seconds,
                    instant_unix_seconds,
                },
            );
        }
        let q: i128 = offset / duration;
        assert(0 <= q <= offset) by (nonlinear_arith)
            requires
                q == offset / duration,
                offset >= 0,
                duration >= 1,
        ;
        Ok(TimestepIndex::new(q as u64))
    }
}

/// Resolving the instant of a timestep and then its index gives the timestep back.
pub proof fn law_index_of_instant_at(origin: int, duration: int, index: int)
    requires
        duration > 0,
        index >= 0,
        spec_instant_at(origin, duration, index) is Some,
    ensures
        spec_index_of(origin, duration, spec_instant_at(origin, duration, index)->0) == Some(index),
{
    let t = origin + duration * index;
    assert(duration * index >= 0) by (nonlinear_arith)
        requires
            duration > 0,
            index >= 0,
    ;
    assert((duration * index) % duration == 0 && (duration * index) / duration == index)
        by (nonlinear_arith)
        requires
            duration > 0,
    ;
    assert(t - origin == duration * index);
}

/// Resolving the index of an aligned instant and then its instant gives the instant back.
pub proof fn law_instant_at_index_of(origin: int, duration: int, instant: int)
    requires
        duration > 0,
        i64::MIN <= instant <= i64::MAX,
        spec_index_of(origin, duration, instant) is Some,
    ensures
        spec_instant_at(origin, duration, spec_index_of(origin, duration, instant)->0) == Some(
            instant,
        ),
{
    let offset = instant - origin;
    assert(duration * (offset / duration) == offset) by (nonlinear_arith)
        requires
            duration > 0,
            offset % duration == 0,
    ;
}

/// An inclusive bounded interval of timestep indices.
#[derive(Debug, Clone, Copy, PartialEq, Eq, Hash)]
pub struct RunHorizon {
    first: TimestepIndex,
    last: TimestepIndex,
}

/// The mathematical content of a horizon: its inclusive bounds.
pub struct HorizonView {
    pub first: u64,
    pub last: u64,
}

impl View for RunHorizon {
    type V = HorizonView;

    closed spec fn view(&self) -> HorizonView {
        HorizonView { first: self.first@, last: self.last@ }
    }
}

impl RunHorizon {
    #[verifier::type_invariant]
    closed spec fn ordered(self) -> bool {
        self.first@ <= self.last@
    }

    /// Constructs an inclusive run horizon.
    pub fn new(first: TimestepIndex, last: TimestepIndex) -> (r: Result<Self, TemporalError>)
        ensures
            r is Ok <==> first@ <= last@,
            r matches Ok(h) ==> (h@.first == first@ && h@.last == last@),
            r matches Err(e) ==> e == (TemporalError::ReversedRunHorizon {
                first_timestep: first@,
                last_timestep: last@,
            }),
    {
        if last.value() < first.value() {
            return Err(
                TemporalError::ReversedRunHorizon {
                    first_timestep: first.value(),
                    last_timestep: last.value(),
                },
            );
        }
        RunHorizon { first, last }.into_ok()
    }

    fn into_ok(self) -> (r: Result<Self, TemporalError>)
        ensures
            r == Ok::<Self, TemporalError>(self),
    {
        Ok(self)
    }

    /// Returns the first included timestep.
    pub fn first(self) -> (r: TimestepIndex)
        ensures
            r@ == self@.first,
            self@.first <= self@.last,
    {
        proof {
            use_type_invariant(&self);
        }
        self.first
    }

    /// Returns the last included timestep.
    pub fn last(self) -> (r: TimestepIndex)
        ensures
            r@ == self@.last,
            self@.first <= self@.last,
    {
        proof {
            use_type_invariant(&self);
        }
        self.last
    }

    /// Reports whether the timestep lies within the inclusive horizon.
    pub fn contains(self, index: TimestepIndex) -> (r: bool)
        ensures
            r == (self@.first <= index@ <= self@.last),
    {
        self.first.value() <= index.value() && index.value() <= self.last.value()
    }
}

} // verus!
