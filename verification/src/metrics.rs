//! Latencies in nanoseconds, recorded one by one and read back as percentiles.

use vstd::prelude::*;
use vstd::string::*;

use crate::clock::{is_nanos_since, is_present, nanos_since, now};
use crate::histogram::{contents, trackable, BucketHistogram};
use crate::levels::{
    at_level, capped, first_reaching, is_peak, is_reading, kept, lemma_counted, lemma_kept,
    lemma_kept_len, lemma_level_comes_from, lemma_level_counts, lemma_levels_of,
    lemma_reaching_is_reading, lemma_some_reaches, level, levels_of, lists_recorded, reach, value_at_rank,
};
use crate::rank::{lemma_rank_bounds, rank_of, MEDIAN, NINETY, NINETY_NINE, NINETY_NINE_NINE};
use crate::text::{decimal, push_decimal, push_right_aligned, right_aligned};

verus! {

/// The lowest latency that is told apart from none.
pub const LOWEST_NANOS: u64 = 1;

/// The highest latency that a recorder is made for: one minute.
pub const HIGHEST_NANOS: u64 = 60_000_000_000;

/// How many significant digits of a latency are kept.
pub const SIGNIFICANT_DIGITS: u8 = 3;

/// The least latency that is too long to be recorded: the first power of two beyond
/// `HIGHEST_NANOS`.
pub const TRACKABLE_NANOS: u64 = 68_719_476_736;

/// A moment at which a measurement starts.
pub type Timestamp = std::time::Instant;

/// Collects latencies. Its view is the latencies that it has recorded, in order.
pub struct LatencyRecorder {
    histogram: BucketHistogram,
    recorded: Ghost<Seq<u64>>,
}

impl View for LatencyRecorder {
    type V = Seq<u64>;

    closed spec fn view(&self) -> Seq<u64> {
        self.recorded@
    }
}

/// What has been recorded after one more latency: one that is too long is left out.
pub open spec fn after_record(recorded: Seq<u64>, nanos: u64) -> Seq<u64> {
    if nanos < TRACKABLE_NANOS {
        recorded.push(nanos)
    } else {
        recorded
    }
}

impl LatencyRecorder {
    /// The histogram holds what was recorded, and nothing too long was.
    pub closed spec fn wf(&self) -> bool {
        &&& trackable(self.histogram) == TRACKABLE_NANOS
        &&& contents(self.histogram) == kept(self.recorded@)
        &&& forall|i: int|
            0 <= i < self.recorded@.len() ==> #[trigger] self.recorded@[i] < TRACKABLE_NANOS
    }

    /// At any time, no latency that is too long has been recorded.
    pub proof fn law_recorded_are_trackable(&self)
        requires
            self.wf(),
        ensures
            forall|i: int| 0 <= i < self@.len() ==> #[trigger] self@[i] < TRACKABLE_NANOS,
    {
    }

    /// A recorder that has recorded nothing.
    pub fn new() -> (recorder: Self)
        ensures
            recorder.wf(),
            recorder@ == Seq::<u64>::empty(),
    {
        proof {
            reveal_with_fuel(reach, 27);
        }
        assert(reach(HIGHEST_NANOS as nat) == TRACKABLE_NANOS);
        let made = BucketHistogram::new_with_bounds(LOWEST_NANOS, HIGHEST_NANOS, SIGNIFICANT_DIGITS);
        LatencyRecorder { histogram: made.unwrap(), recorded: Ghost(Seq::empty()) }
    }

    /// Records a latency.
    pub fn record_nanos(&mut self, nanos: u64)
        requires
            old(self).wf(),
        ensures
            final(self).wf(),
            nanos < 68_719_476_736 ==> final(self)@ == old(self)@.push(nanos),
            nanos >= 68_719_476_736 ==> final(self)@ == old(self)@,
            final(self)@ == after_record(old(self)@, nanos),
    {
        let ghost before = self.recorded@;
        let _ = self.histogram.record(nanos);
        proof {
            if nanos < TRACKABLE_NANOS {
                self.recorded@ = before.push(nanos);
                assert(self.recorded@.drop_last() =~= before);
            }
        }
    }

    /// Starts a measurement, at the moment that the clock shows.
    pub fn start() -> (start: Timestamp)
        ensures
            call_ensures(std::time::Instant::now, (), start),
            is_present(start),
    {
        now()
    }

    /// Records the nanoseconds that the clock shows since `start`.
    pub fn record(&mut self, start: Timestamp)
        requires
            old(self).wf(),
        ensures
            final(self).wf(),
            exists|time: std::time::Duration, shown: u128|
                (#[trigger] call_ensures(std::time::Instant::elapsed, (&start,), time)) && (
                #[trigger] call_ensures(std::time::Duration::as_nanos, (&time,), shown)) && (if shown
                    % 0x1_0000_0000_0000_0000 < 68_719_476_736 {
                    final(self)@ == old(self)@.push((shown % 0x1_0000_0000_0000_0000) as u64)
                } else {
                    final(self)@ == old(self)@
                }),
            exists|elapsed: u128| #[trigger]
                is_nanos_since(start, elapsed) && final(self)@ == after_record(
                    old(self)@,
                    (elapsed % 0x1_0000_0000_0000_0000) as u64,
                ),
    {
        let elapsed: u128 = nanos_since(&start);
        self.record_elapsed(elapsed);
    }

    /// Records a time in nanoseconds, of which the low 64 bits are kept.
    pub fn record_elapsed(&mut self, elapsed: u128)
        requires
            old(self).wf(),
        ensures
            final(self).wf(),
            elapsed % 0x1_0000_0000_0000_0000 < 68_719_476_736 ==> final(self)@ == old(self)@.push(
                (elapsed % 0x1_0000_0000_0000_0000) as u64,
            ),
            elapsed % 0x1_0000_0000_0000_0000 >= 68_719_476_736 ==> final(self)@ == old(self)@,
            final(self)@ == after_record(old(self)@, (elapsed % 0x1_0000_0000_0000_0000) as u64),
    {
        assert(elapsed as u64 == (elapsed % 0x1_0000_0000_0000_0000) as u64) by (bit_vector);
        self.record_nanos(
            #[verifier::truncate]
            (elapsed as u64),
        );
    }

    /// How many latencies were recorded.
    pub fn count(&self) -> (n: u64)
        requires
            self.wf(),
        ensures
            self@.len() <= u64::MAX ==> n == self@.len(),
            self@.len() > u64::MAX ==> n == u64::MAX,
            n == capped(self@.len()),
    {
        proof {
            lemma_kept_len(self.recorded@);
        }
        self.histogram.len()
    }

    /// The greatest level of a recorded latency, or 0.
    pub fn max(&self) -> (m: u64)
        requires
            self.wf(),
        ensures
            self@.len() == 0 ==> m == 0,
            self@.len() > 0 ==> exists|i: int|
                0 <= i < self@.len() && level(#[trigger] self@[i] as nat) == m,
            forall|i: int| 0 <= i < self@.len() ==> level(#[trigger] self@[i] as nat) <= m,
            is_peak(self@, m as nat),
    {
        let m: u64 = self.histogram.max();
        proof {
            let buckets = contents(self.histogram);
            lemma_kept_len(self@);
            lemma_kept(self@);
            assert forall|i: int| 0 <= i < self@.len() implies level(
                #[trigger] self@[i] as nat,
            ) <= m by {
                lemma_level_counts(self@, i);
                assert(buckets.contains(level(self@[i] as nat)));
            }
            if self@.len() > 0 {
                assert(buckets.contains(m as nat));
                lemma_level_comes_from(self@, m as nat);
            }
        }
        m
    }

    /// The levels of the recorded latencies from the lowest up, each with how often it was
    /// recorded.
    pub fn levels(&self) -> (r: Vec<(u64, u64)>)
        requires
            self.wf(),
        ensures
            lists_recorded(r@, self@),
    {
        let r = self.histogram.iter_recorded();
        proof {
            let buckets = contents(self.histogram);
            lemma_kept(self@);
            lemma_levels_of(self@);
            assert forall|l: nat| #[trigger] at_level(self@, l) > 0 implies exists|i: int|
                0 <= i < r@.len() && (#[trigger] r@[i]).0 == l by {
                assert(levels_of(self@).count(l) > 0);
                assert(buckets.contains(l));
            }
            assert forall|i: int| 0 <= i < r@.len() implies (#[trigger] r@[i]).1 > 0 && r@[i].1
                == capped(at_level(self@, r@[i].0 as nat)) by {
                assert(levels_of(self@).count(r@[i].0 as nat) == at_level(
                    self@,
                    r@[i].0 as nat,
                ));
            }
        }
        r
    }

    /// The percentile at `quantile / 2^53` of the recorded latencies.
    fn percentile(&self, quantile: u64) -> (p: u64)
        requires
            self.wf(),
            0 < quantile <= NINETY_NINE_NINE,
        ensures
            is_reading(self@, quantile as nat, p as nat),
    {
        let total: u64 = self.count();
        let wanted: u64 = rank_of(quantile, total);
        let entries = self.histogram.iter_recorded();
        let p: u64 = value_at_rank(&entries, wanted);
        proof {
            let buckets = contents(self.histogram);
            lemma_kept_len(self@);
            lemma_counted(entries@, buckets, entries@.len() as int);
            lemma_rank_bounds(quantile as nat, total as nat);
            if self@.len() > 0 {
                lemma_some_reaches(entries@, wanted as nat, entries@.len() as int);
                let i = choose|i: int| #[trigger] first_reaching(entries@, wanted as nat, i);
                lemma_reaching_is_reading(entries@, self@, quantile as nat, i);
            }
        }
        p
    }

    /// The median.
    pub fn p50(&self) -> (p: u64)
        requires
            self.wf(),
        ensures
            is_reading(self@, MEDIAN as nat, p as nat),
    {
        self.percentile(MEDIAN)
    }

    /// The 90th percentile.
    pub fn p90(&self) -> (p: u64)
        requires
            self.wf(),
        ensures
            is_reading(self@, NINETY as nat, p as nat),
    {
        self.percentile(NINETY)
    }

    /// The 99th percentile.
    pub fn p99(&self) -> (p: u64)
        requires
            self.wf(),
        ensures
            is_reading(self@, NINETY_NINE as nat, p as nat),
    {
        self.percentile(NINETY_NINE)
    }

    /// The 99.9th percentile.
    pub fn p999(&self) -> (p: u64)
        requires
            self.wf(),
        ensures
            is_reading(self@, NINETY_NINE_NINE as nat, p as nat),
    {
        self.percentile(NINETY_NINE_NINE)
    }

    /// Forgets everything that was recorded.
    pub fn reset(&mut self)
        requires
            old(self).wf(),
        ensures
            final(self).wf(),
            final(self)@ == Seq::<u64>::empty(),
    {
        self.histogram.reset();
        proof {
            self.recorded@ = Seq::empty();
        }
    }

    /// The percentiles, the maximum and the count.
    pub fn summary(&self) -> (summary: Summary)
        requires
            self.wf(),
        ensures
            summarizes(summary, self@),
    {
        Summary {
            p50: self.p50(),
            p90: self.p90(),
            p99: self.p99(),
            p999: self.p999(),
            max: self.max(),
            count: self.count(),
        }
    }

    /// The summary as it is to be printed. The mean is given as the text that stands for it.
    pub fn print_summary(&self, mean: &str) -> (text: String)
        requires
            self.wf(),
        ensures
            exists|summary: Summary| #[trigger]
                summarizes(summary, self@) && text@ == summary_text(summary, mean@),
    {
        let summary = self.summary();
        summary.to_text(mean)
    }

    /// The recorder as it is shown to a developer: by its count.
    pub fn debug_text(&self) -> (text: String)
        requires
            self.wf(),
        ensures
            text@ == "LatencyRecorder { count: "@ + decimal(capped(self@.len())) + " }"@,
            self@.len() <= u64::MAX ==> text@ == "LatencyRecorder { count: "@ + decimal(self@.len())
                + " }"@,
    {
        let mut out = String::new();
        out.append("LatencyRecorder { count: ");
        push_decimal(&mut out, self.count());
        out.append(" }");
        assert(out@ =~= "LatencyRecorder { count: "@ + decimal(capped(self@.len())) + " }"@);
        out
    }
}

/// What a recorder has to say of the latencies that it has recorded.
#[derive(Debug, Clone, Copy, PartialEq, Eq, Structural)]
pub struct Summary {
    pub p50: u64,
    pub p90: u64,
    pub p99: u64,
    pub p999: u64,
    pub max: u64,
    pub count: u64,
}

/// The summary is that of these latencies.
pub open spec fn summarizes(summary: Summary, recorded: Seq<u64>) -> bool {
    &&& is_reading(recorded, MEDIAN as nat, summary.p50 as nat)
    &&& is_reading(recorded, NINETY as nat, summary.p90 as nat)
    &&& is_reading(recorded, NINETY_NINE as nat, summary.p99 as nat)
    &&& is_reading(recorded, NINETY_NINE_NINE as nat, summary.p999 as nat)
    &&& is_peak(recorded, summary.max as nat)
    &&& summary.count == capped(recorded.len())
}

/// One line of a summary: a label, and a value in a column of ten characters.
pub open spec fn summary_line(label: Seq<char>, value: Seq<char>) -> Seq<char> {
    label + right_aligned(value, 10) + "\n"@
}

/// The lines of a summary, with a mean that is given as text.
pub open spec fn summary_text(summary: Summary, mean: Seq<char>) -> Seq<char> {
    "Latency (ns):\n"@ + summary_line("  P50   : "@, decimal(summary.p50 as nat)) + summary_line(
        "  P90   : "@,
        decimal(summary.p90 as nat),
    ) + summary_line("  P99   : "@, decimal(summary.p99 as nat)) + summary_line(
        "  P99.9 : "@,
        decimal(summary.p999 as nat),
    ) + summary_line("  Max   : "@, decimal(summary.max as nat)) + summary_line(
        "  Mean  : "@,
        mean,
    ) + summary_line("  Count : "@, decimal(summary.count as nat))
}

/// Appends a line of a summary.
fn push_line(out: &mut String, label: &str, value: &str)
    ensures
        final(out)@ == old(out)@ + summary_line(label@, value@),
{
    out.append(label);
    push_right_aligned(out, value, 10);
    out.append("\n");
    assert(out@ =~= old(out)@ + summary_line(label@, value@));
}

/// Appends a line of a summary with a number in it.
fn push_number_line(out: &mut String, label: &str, value: u64)
    ensures
        final(out)@ == old(out)@ + summary_line(label@, decimal(value as nat)),
{
    let mut number = String::new();
    push_decimal(&mut number, value);
    assert(number@ =~= decimal(value as nat));
    push_line(out, label, number.as_str());
}

impl Summary {
    /// The lines of the summary. The mean is given as the text that stands for it.
    pub fn to_text(&self, mean: &str) -> (text: String)
        ensures
            text@ == summary_text(*self, mean@),
    {
        let mut out = String::new();
        out.append("Latency (ns):\n");
        push_number_line(&mut out, "  P50   : ", self.p50);
        push_number_line(&mut out, "  P90   : ", self.p90);
        push_number_line(&mut out, "  P99   : ", self.p99);
        push_number_line(&mut out, "  P99.9 : ", self.p999);
        push_number_line(&mut out, "  Max   : ", self.max);
        push_line(&mut out, "  Mean  : ", mean);
        push_number_line(&mut out, "  Count : ", self.count);
        assert(out@ =~= summary_text(*self, mean@));
        out
    }
}

} // verus!
