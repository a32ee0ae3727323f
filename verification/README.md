# ferrox

Bookkeeping for a low-latency matching engine, verified with Verus: latencies that
are recorded and read back as percentiles, and a count of heap allocations.

- `src/metrics.rs`: `LatencyRecorder`, on top of the buckets of `hdrhistogram`.
  Its view is the sequence of latencies it has recorded.
- `src/metrics_off.rs`: the recorder for builds that measure nothing.
- `src/alloc_track.rs`: what a tracking allocator counts between a start and a stop.
- `src/levels.rs`, `src/laws.rs`: buckets, percentiles and maximum, and what they promise.
- `src/rank.rs`: how many recorded values a quantile stands for, with the rounding of a
  64-bit binary float worked out in whole numbers.
- `src/histogram.rs`, `src/clock.rs`: what is trusted of `hdrhistogram` and `std`.
- `src/text.rs`: numbers as text.
- `app/`: the global allocator with its atomics, the mean (floating point) and the
  printed summary.

A latency of up to 2047 ns keeps its exact value; a longer one is read back as the
highest value of its bucket, which is less than one part in 1024 above it. Latencies
of 2^36 ns and more are left out.
