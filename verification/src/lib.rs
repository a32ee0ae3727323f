//! Bookkeeping for a low-latency engine: how long its work takes, and how often it
//! allocates memory.
//!
//! [`metrics`] records latencies in the buckets of a histogram and reads percentiles
//! back. [`metrics_off`] takes its place where nothing is to be measured.
//! [`alloc_track`] counts what an allocator does between a start and a stop.
//!
//! [`levels`] says what a bucket, a percentile and a maximum are, [`laws`] what they
//! promise together, [`meaning`] what each of them comes to in plain numbers.
//! [`histogram`] and [`clock`] hold what is believed, not proved, of the `hdrhistogram`
//! crate and of the standard library. [`rank`] says how many of the recorded values a
//! quantile stands for, [`text`] writes numbers.

pub mod alloc_track;
pub mod clock;
pub mod histogram;
pub mod laws;
pub mod levels;
pub mod meaning;
pub mod metrics;
pub mod metrics_off;
pub mod rank;
pub mod text;
