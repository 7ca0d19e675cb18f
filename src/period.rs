//! The period of a frequency as a duration, in each of the duration types
//! offered. All of them are built from `Frequency::period_nanos`.
use vstd::prelude::*;
use crate::frequency::{Frequency, period_nanos_of};

verus! {

#[verifier::external_type_specification]
#[verifier::external_body]
pub struct ExTimeDelta(chrono::TimeDelta);

#[verifier::external_type_specification]
#[verifier::external_body]
pub struct ExSignedDuration(time::Duration);

/// The length of a `std::time::Duration` in nanoseconds.
pub uninterp spec fn std_duration_nanos(d: std::time::Duration) -> nat;

/// The length of a `chrono::TimeDelta` in nanoseconds.
pub uninterp spec fn chrono_delta_nanos(d: chrono::TimeDelta) -> int;

/// The length of a `time::Duration` in nanoseconds.
pub uninterp spec fn time_duration_nanos(d: time::Duration) -> int;

/// Relies on `std::time::Duration::as_nanos`: the whole length in nanoseconds.
pub assume_specification[ core::time::Duration::as_nanos ](d: &core::time::Duration) -> (r: u128)
    ensures
        r == std_duration_nanos(*d),
;

/// Relies on `chrono::TimeDelta::num_nanoseconds`: the total nanoseconds,
/// when they fit in an `i64`.
pub assume_specification[ chrono::TimeDelta::num_nanoseconds ](d: &chrono::TimeDelta) -> (r:
    Option<i64>)
    ensures
        r matches Some(n) ==> n == chrono_delta_nanos(*d),
        i64::MIN <= chrono_delta_nanos(*d) <= i64::MAX ==> r == Some(
            chrono_delta_nanos(*d) as i64,
        ),
;

/// Relies on `time::Duration::whole_nanoseconds`: the total nanoseconds.
pub assume_specification[ time::Duration::whole_nanoseconds ](d: time::Duration) -> (r: i128)
    ensures
        r == time_duration_nanos(d),
;

/// Relies on `std::time::Duration::from_nanos`, which never panics and makes
/// a duration of exactly `nanos` nanoseconds.
#[verifier::external_body]
fn std_duration_from_nanos(nanos: u64) -> (r: std::time::Duration)
    ensures
        std_duration_nanos(r) == nanos,
{
    std::time::Duration::from_nanos(nanos)
}

/// Relies on `chrono::TimeDelta::nanoseconds`, which never panics and makes a
/// delta of exactly `nanos` nanoseconds.
#[verifier::external_body]
fn chrono_from_nanos(nanos: i64) -> (r: chrono::TimeDelta)
    ensures
        chrono_delta_nanos(r) == nanos,
{
    chrono::TimeDelta::nanoseconds(nanos)
}

/// Relies on `time::Duration::nanoseconds`, which never panics and makes a
/// duration of exactly `nanos` nanoseconds.
#[verifier::external_body]
fn time_from_nanos(nanos: i64) -> (r: time::Duration)
    ensures
        time_duration_nanos(r) == nanos,
{
    time::Duration::nanoseconds(nanos)
}

impl Frequency {
    /// The period as a `std::time::Duration` of `period_nanos()` nanoseconds.
    pub fn as_duration(&self) -> (r: std::time::Duration)
        ensures
            std_duration_nanos(r) == period_nanos_of(self.0),
    {
        std_duration_from_nanos(self.period_nanos())
    }

    /// The period as a `chrono::Duration` of `period_nanos()` nanoseconds.
    pub fn as_chrono_duration(&self) -> (r: chrono::TimeDelta)
        ensures
            chrono_delta_nanos(r) == period_nanos_of(self.0),
    {
        chrono_from_nanos(self.period_nanos() as i64)
    }

    /// The period as a `time::Duration` of `period_nanos()` nanoseconds.
    pub fn as_time_duration(&self) -> (r: time::Duration)
        ensures
            time_duration_nanos(r) == period_nanos_of(self.0),
    {
        time_from_nanos(self.period_nanos() as i64)
    }
}

} // verus!
