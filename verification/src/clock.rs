//! The monotonic clock of the standard library.

use std::time::{Duration, Instant};

use vstd::prelude::*;

verus! {

/// A moment of the monotonic clock.
#[verifier::external_type_specification]
#[verifier::external_body]
pub struct ExInstant(std::time::Instant);

/// `std::time::Instant::now`: the present moment, of which nothing is known beforehand.
pub assume_specification[ std::time::Instant::now ]() -> std::time::Instant;

/// `std::time::Instant::elapsed`: the time since a moment, of which nothing is known beforehand.
pub assume_specification[ std::time::Instant::elapsed ](
    instant: &std::time::Instant,
) -> std::time::Duration;

/// `std::time::Duration::as_nanos`: a time in nanoseconds. As the time itself, it is left open.
pub assume_specification[ std::time::Duration::as_nanos ](duration: &std::time::Duration) -> u128;

/// `moment` is one that the clock can show when it is read.
pub open spec fn is_present(moment: Instant) -> bool {
    call_ensures(Instant::now, (), moment)
}

/// `nanos` is a time since `start` that the clock can show when it is read, in nanoseconds.
pub open spec fn is_nanos_since(start: Instant, nanos: u128) -> bool {
    exists|time: Duration| #[trigger]
        call_ensures(Instant::elapsed, (&start,), time) && call_ensures(
            Duration::as_nanos,
            (&time,),
            nanos,
        )
}

/// Takes a reading.
fn reading<T, F: Fn() -> T>(read: F) -> (value: T)
    requires
        call_requires(read, ()),
    ensures
        call_ensures(read, (), value),
{
    read()
}

/// Takes a reading of something.
fn reading_of<S, T, F: Fn(&S) -> T>(read: F, source: &S) -> (value: T)
    requires
        call_requires(read, (source,)),
    ensures
        call_ensures(read, (source,), value),
{
    read(source)
}

/// The present moment.
pub(crate) fn now() -> (moment: Instant)
    ensures
        is_present(moment),
        call_ensures(Instant::now, (), moment),
{
    reading(Instant::now)
}

/// The nanoseconds that have passed since `start`.
pub(crate) fn nanos_since(start: &Instant) -> (nanos: u128)
    ensures
        is_nanos_since(*start, nanos),
        exists|time: Duration|
            (#[trigger] call_ensures(Instant::elapsed, (start,), time)) && call_ensures(
                Duration::as_nanos,
                (&time,),
                nanos,
            ),
{
    let time = reading_of(Instant::elapsed, start);
    reading_of(Duration::as_nanos, &time)
}

/// The nanoseconds since a moment are those of a time that the clock can show as elapsed since
/// then, and of nothing else: no arithmetic comes in between.
pub proof fn law_nanos_are_those_of_the_elapsed_time(start: Instant, nanos: u128)
    ensures
        is_nanos_since(start, nanos) <==> exists|time: Duration|
            (#[trigger] call_ensures(Instant::elapsed, (&start,), time)) && call_ensures(
                Duration::as_nanos,
                (&time,),
                nanos,
            ),
{
}

} // verus!
