//! A recorder that records nothing, for builds in which latencies are not measured.

use vstd::prelude::*;

verus! {

/// Measurements that are not taken start at no moment.
pub type Timestamp = ();

/// Takes the place of the recorder of [`crate::metrics`], at no cost.
#[derive(Debug)]
pub struct LatencyRecorder;

impl LatencyRecorder {
    /// A recorder that records nothing.
    pub fn new() -> (recorder: Self)
        ensures
            recorder == LatencyRecorder,
    {
        LatencyRecorder
    }

    /// Starts nothing.
    pub fn start() -> (start: Timestamp)
        ensures
            start == (),
    {
    }

    /// Records nothing.
    pub fn record(&mut self, _start: Timestamp)
        ensures
            *final(self) == *old(self),
    {
    }

    /// Records nothing.
    pub fn record_nanos(&mut self, _nanos: u64)
        ensures
            *final(self) == *old(self),
    {
    }

    /// Always 0.
    pub fn p50(&self) -> (p: u64)
        ensures
            p == 0,
    {
        0
    }

    /// Always 0.
    pub fn p90(&self) -> (p: u64)
        ensures
            p == 0,
    {
        0
    }

    /// Always 0.
    pub fn p99(&self) -> (p: u64)
        ensures
            p == 0,
    {
        0
    }

    /// Always 0.
    pub fn p999(&self) -> (p: u64)
        ensures
            p == 0,
    {
        0
    }

    /// Always 0.
    pub fn max(&self) -> (m: u64)
        ensures
            m == 0,
    {
        0
    }

    /// Always 0.
    pub fn count(&self) -> (n: u64)
        ensures
            n == 0,
    {
        0
    }

    /// Forgets nothing, as there is nothing.
    pub fn reset(&mut self)
        ensures
            *final(self) == *old(self),
    {
    }

    /// There is nothing to be printed.
    pub fn print_summary(&self, _mean: &str) -> (text: String)
        ensures
            text@ == Seq::<char>::empty(),
    {
        String::new()
    }
}

} // verus!
