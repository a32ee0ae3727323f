//! What the percentiles, the maximum and the count of a recorder promise together.

use vstd::prelude::*;

use crate::clock::is_nanos_since;
use crate::levels::{
    at_level, at_most, capped, covered, is_peak, is_percentile, is_reading, kept, lemma_kept,
    lemma_kept_len, lemma_level_comes_from, lemma_levels_of, level, levels_of, lists_recorded,
    within,
};
use crate::metrics::{
    after_record, summarizes, summary_text, Summary, Timestamp, TRACKABLE_NANOS,
};
use crate::rank::{
    law_rank_grows, lemma_rank_bounds, rank, MEDIAN, NINETY, NINETY_NINE, NINETY_NINE_NINE,
};
use crate::text::{
    decimal, is_column, law_column_reads_back, lemma_cancel, lemma_cancel_front, right_aligned,
};

verus! {

/// Three significant digits are kept: a level is not below the values that it stands for,
/// is the value itself below 2048, and beyond is off by less than one part in 1024.
pub proof fn law_three_digits_are_kept(value: nat)
    ensures
        value <= level(value),
        value < 2048 ==> level(value) == value,
        value >= 1024 ==> 1024 * (level(value) - value + 1) <= value,
    decreases value,
{
    if value >= 2048 {
        law_three_digits_are_kept(value / 2);
    }
}

/// A higher value never has a lower level.
pub proof fn law_levels_keep_order(a: nat, b: nat)
    requires
        a <= b,
    ensures
        level(a) <= level(b),
    decreases b,
{
    if a >= 2048 {
        law_levels_keep_order(a / 2, b / 2);
    } else if b >= 2048 {
        law_three_digits_are_kept(b);
    }
}

/// A higher percentile never lies below a lower one, and there is only one for each share.
pub proof fn law_percentiles_are_ordered(recorded: Seq<u64>, s: nat, t: nat, p: nat, q: nat)
    requires
        s <= t,
        is_percentile(recorded, s, p),
        is_percentile(recorded, t, q),
    ensures
        p <= q,
        s == t ==> p == q,
{
    let n = recorded.len();
    law_rank_grows(s, t, n);
    if n > 0 && q < p {
        assert(covered(recorded, q) < rank(s, n));
    }
    if n > 0 && s == t && p < q {
        assert(covered(recorded, p) < rank(t, n));
    }
}

/// However much was recorded, a higher percentile never reads lower than a lower one, and
/// reads the same whenever it is read.
pub proof fn law_readings_are_ordered(recorded: Seq<u64>, s: nat, t: nat, p: nat, q: nat)
    requires
        s <= t,
        is_reading(recorded, s, p),
        is_reading(recorded, t, q),
    ensures
        p <= q,
        s == t ==> p == q,
{
    if recorded.len() <= u64::MAX {
        law_percentiles_are_ordered(recorded, s, t, p, q);
    } else {
        let n = u64::MAX as nat;
        let buckets = kept(recorded);
        law_rank_grows(s, t, n);
        if q < p {
            assert(within(buckets, q) < rank(s, n));
        }
        if s == t && p < q {
            assert(within(buckets, p) < rank(t, n));
        }
    }
}

/// No percentile lies above the maximum.
pub proof fn law_maximum_bounds_percentiles(recorded: Seq<u64>, quantile: nat, p: nat, m: nat)
    requires
        0 < quantile <= NINETY_NINE_NINE,
        is_percentile(recorded, quantile, p),
        is_peak(recorded, m),
    ensures
        p <= m,
{
    let n = recorded.len();
    if n > 0 && m < p {
        lemma_covered_all(recorded, m);
        lemma_rank_bounds(quantile, n);
        assert(covered(recorded, m) < rank(quantile, n));
    }
}

/// However much was recorded, no percentile reads higher than the maximum.
pub proof fn law_maximum_bounds_readings(recorded: Seq<u64>, quantile: nat, p: nat, m: nat)
    requires
        0 < quantile <= NINETY_NINE_NINE,
        is_reading(recorded, quantile, p),
        is_peak(recorded, m),
    ensures
        p <= m,
{
    if recorded.len() <= u64::MAX {
        law_maximum_bounds_percentiles(recorded, quantile, p, m);
    } else if m < p {
        let buckets = kept(recorded);
        lemma_kept_len(recorded);
        lemma_kept(recorded);
        assert(buckets.filter(|y: nat| y <= m) =~= buckets) by {
            broadcast use vstd::multiset::group_multiset_axioms;

            assert forall|v: nat| buckets.filter(|y: nat| y <= m).count(v) == buckets.count(v) by {
                if buckets.count(v) > 0 {
                    assert(levels_of(recorded).count(v) > 0);
                    lemma_level_comes_from(recorded, v);
                }
            }
        }
        lemma_rank_bounds(quantile, u64::MAX as nat);
        assert(within(buckets, m) < rank(quantile, u64::MAX as nat));
    }
}

/// No recorded latency lies above the maximum.
pub proof fn law_maximum_bounds_recorded(recorded: Seq<u64>, m: nat, i: int)
    requires
        is_peak(recorded, m),
        0 <= i < recorded.len(),
    ensures
        recorded[i] <= m,
{
    law_three_digits_are_kept(recorded[i] as nat);
    assert(level(recorded[i] as nat) <= m);
}

/// A percentile is the level of the recorded latency that has the wanted rank: fewer than
/// that many lie below it, and at least that many do not lie above it.
pub proof fn law_percentile_has_its_rank(recorded: Seq<u64>, quantile: nat, p: nat)
    requires
        recorded.len() > 0,
        0 < quantile <= NINETY_NINE_NINE,
        is_percentile(recorded, quantile, p),
    ensures
        exists|i: int|
            0 <= i < recorded.len() && p == level(#[trigger] recorded[i] as nat) && at_most(
                recorded,
                recorded[i] - 1,
            ) < rank(quantile, recorded.len()) <= at_most(recorded, recorded[i] as int),
{
    let n = recorded.len();
    let r = rank(quantile, n);
    lemma_rank_bounds(quantile, n);
    lemma_at_most_all(recorded);
    lemma_least_with_rank(recorded, r, u64::MAX as int);
    let y = choose|y: int|
        0 <= y <= u64::MAX && #[trigger] at_most(recorded, y) >= r && at_most(recorded, y - 1) < r;
    lemma_step_is_recorded(recorded, y);
    let i = choose|i: int| 0 <= i < n && #[trigger] recorded[i] == y;
    lemma_at_most_is_covered(recorded, y as nat);
    let l = level(y as nat);
    if l < p {
        assert(covered(recorded, l) < r);
    }
    if p < l {
        lemma_covered_is_below(recorded, p, y as nat);
    }
    assert(p == level(recorded[i] as nat));
}

/// A percentile is never below the recorded latency that has the wanted rank, and is above
/// it by less than one part in 1024.
pub proof fn law_percentile_is_accurate(recorded: Seq<u64>, quantile: nat, p: nat)
    requires
        recorded.len() > 0,
        0 < quantile <= NINETY_NINE_NINE,
        is_percentile(recorded, quantile, p),
    ensures
        exists|i: int|
            0 <= i < recorded.len() && #[trigger] recorded[i] <= p && (p == recorded[i] || 1024 * (p
                - recorded[i] + 1) <= recorded[i]) && at_most(recorded, recorded[i] - 1) < rank(
                quantile,
                recorded.len(),
            ) <= at_most(recorded, recorded[i] as int),
{
    law_percentile_has_its_rank(recorded, quantile, p);
    let i = choose|i: int|
        0 <= i < recorded.len() && p == level(#[trigger] recorded[i] as nat) && at_most(
            recorded,
            recorded[i] - 1,
        ) < rank(quantile, recorded.len()) <= at_most(recorded, recorded[i] as int);
    law_three_digits_are_kept(recorded[i] as nat);
    assert(recorded[i] <= p);
}

/// A summary reads from the median up to the maximum without going down.
pub proof fn law_summary_is_ordered(summary: Summary, recorded: Seq<u64>)
    requires
        summarizes(summary, recorded),
    ensures
        summary.p50 <= summary.p90 <= summary.p99 <= summary.p999 <= summary.max,
{
    law_readings_are_ordered(
        recorded,
        MEDIAN as nat,
        NINETY as nat,
        summary.p50 as nat,
        summary.p90 as nat,
    );
    law_readings_are_ordered(
        recorded,
        NINETY as nat,
        NINETY_NINE as nat,
        summary.p90 as nat,
        summary.p99 as nat,
    );
    law_readings_are_ordered(
        recorded,
        NINETY_NINE as nat,
        NINETY_NINE_NINE as nat,
        summary.p99 as nat,
        summary.p999 as nat,
    );
    law_maximum_bounds_readings(
        recorded,
        NINETY_NINE_NINE as nat,
        summary.p999 as nat,
        summary.max as nat,
    );
}

/// To summarize changes nothing: the same latencies give the same summary again, and the
/// same text.
pub proof fn law_summaries_agree(a: Summary, b: Summary, recorded: Seq<u64>, mean: Seq<char>)
    requires
        summarizes(a, recorded),
        summarizes(b, recorded),
    ensures
        a == b,
        summary_text(a, mean) == summary_text(b, mean),
{
    law_readings_are_ordered(recorded, MEDIAN as nat, MEDIAN as nat, a.p50 as nat, b.p50 as nat);
    law_readings_are_ordered(recorded, NINETY as nat, NINETY as nat, a.p90 as nat, b.p90 as nat);
    law_readings_are_ordered(
        recorded,
        NINETY_NINE as nat,
        NINETY_NINE as nat,
        a.p99 as nat,
        b.p99 as nat,
    );
    law_readings_are_ordered(
        recorded,
        NINETY_NINE_NINE as nat,
        NINETY_NINE_NINE as nat,
        a.p999 as nat,
        b.p999 as nat,
    );
    if recorded.len() > 0 {
        let i = choose|i: int|
            0 <= i < recorded.len() && level(#[trigger] recorded[i] as nat) == a.max;
        let j = choose|j: int|
            0 <= j < recorded.len() && level(#[trigger] recorded[j] as nat) == b.max;
        assert(level(recorded[i] as nat) <= b.max);
        assert(level(recorded[j] as nat) <= a.max);
    }
}

/// The lines of a summary show what the recorder gives when it is asked for each of the
/// values by itself.
pub proof fn law_summary_shows_the_values(
    summary: Summary,
    recorded: Seq<u64>,
    asked: Summary,
    mean: Seq<char>,
)
    requires
        summarizes(summary, recorded),
        is_reading(recorded, MEDIAN as nat, asked.p50 as nat),
        is_reading(recorded, NINETY as nat, asked.p90 as nat),
        is_reading(recorded, NINETY_NINE as nat, asked.p99 as nat),
        is_reading(recorded, NINETY_NINE_NINE as nat, asked.p999 as nat),
        is_peak(recorded, asked.max as nat),
        asked.count == capped(recorded.len()),
    ensures
        summary == asked,
        summary_text(summary, mean) == summary_text(asked, mean),
{
    law_summaries_agree(summary, asked, recorded, mean);
}

/// The printed summary reads back: behind each of its labels stands a column of ten
/// characters, and what it shows there evaluates in base ten to the value that the label
/// names. The mean stands in its column as it was given.
pub proof fn law_summary_text_reads_back(summary: Summary, mean: Seq<char>) -> (shown: Seq<
    Seq<char>,
>)
    ensures
        shown.len() == 6,
        summary_text(summary, mean) == "Latency (ns):\n"@
            + ("  P50   : "@ + shown[0] + "\n"@)
            + ("  P90   : "@ + shown[1] + "\n"@)
            + ("  P99   : "@ + shown[2] + "\n"@)
            + ("  P99.9 : "@ + shown[3] + "\n"@)
            + ("  Max   : "@ + shown[4] + "\n"@)
            + ("  Mean  : "@ + right_aligned(mean, 10) + "\n"@)
            + ("  Count : "@ + shown[5] + "\n"@),
        forall|k: int| 0 <= k < 6 ==> is_column(#[trigger] shown[k], 10),
        shown[0].fold_left(
            0int,
            |v: int, c: char|
                if c == ' ' {
                    v
                } else {
                    10 * v + (c as int - '0' as int)
                },
        ) == summary.p50,
        shown[1].fold_left(
            0int,
            |v: int, c: char|
                if c == ' ' {
                    v
                } else {
                    10 * v + (c as int - '0' as int)
                },
        ) == summary.p90,
        shown[2].fold_left(
            0int,
            |v: int, c: char|
                if c == ' ' {
                    v
                } else {
                    10 * v + (c as int - '0' as int)
                },
        ) == summary.p99,
        shown[3].fold_left(
            0int,
            |v: int, c: char|
                if c == ' ' {
                    v
                } else {
                    10 * v + (c as int - '0' as int)
                },
        ) == summary.p999,
        shown[4].fold_left(
            0int,
            |v: int, c: char|
                if c == ' ' {
                    v
                } else {
                    10 * v + (c as int - '0' as int)
                },
        ) == summary.max,
        shown[5].fold_left(
            0int,
            |v: int, c: char|
                if c == ' ' {
                    v
                } else {
                    10 * v + (c as int - '0' as int)
                },
        ) == summary.count,
{
    law_column_reads_back(summary.p50 as nat, 10);
    law_column_reads_back(summary.p90 as nat, 10);
    law_column_reads_back(summary.p99 as nat, 10);
    law_column_reads_back(summary.p999 as nat, 10);
    law_column_reads_back(summary.max as nat, 10);
    law_column_reads_back(summary.count as nat, 10);
    seq![
        right_aligned(decimal(summary.p50 as nat), 10),
        right_aligned(decimal(summary.p90 as nat), 10),
        right_aligned(decimal(summary.p99 as nat), 10),
        right_aligned(decimal(summary.p999 as nat), 10),
        right_aligned(decimal(summary.max as nat), 10),
        right_aligned(decimal(summary.count as nat), 10),
    ]
}

/// Summaries that differ in anything are printed differently.
pub proof fn law_summary_text_is_faithful(a: Summary, b: Summary, mean: Seq<char>)
    requires
        summary_text(a, mean) == summary_text(b, mean),
    ensures
        a == b,
{
    let x = law_summary_text_reads_back(a, mean);
    let y = law_summary_text_reads_back(b, mean);
    reveal_strlit("\n");
    let end = "\n"@;
    let label = seq![
        "  P50   : "@,
        "  P90   : "@,
        "  P99   : "@,
        "  P99.9 : "@,
        "  Max   : "@,
        "  Mean  : "@ + right_aligned(mean, 10) + end + "  Count : "@,
    ];
    assert(end[0] == '\n');
    lemma_text_is_first_line(a, mean, x, label);
    lemma_text_is_first_line(b, mean, y, label);
    lemma_lines_agree("Latency (ns):\n"@, label, x, y, 0);
    assert(forall|k: int| 0 <= k < 6 ==> #[trigger] x[k] == y[k]);
}

/// The last line of the printed summary shows how many latencies were recorded: its digits
/// evaluate in base ten to their number, as long as it can be counted.
pub proof fn law_last_line_shows_how_many(
    summary: Summary,
    recorded: Seq<u64>,
    mean: Seq<char>,
) -> (shown: (Seq<char>, Seq<char>))
    requires
        summarizes(summary, recorded),
        recorded.len() <= u64::MAX,
    ensures
        summary_text(summary, mean) == shown.0 + "\n  Count : "@ + shown.1 + "\n"@,
        is_column(shown.1, 10),
        shown.1.fold_left(
            0int,
            |v: int, c: char|
                if c == ' ' {
                    v
                } else {
                    10 * v + (c as int - '0' as int)
                },
        ) == recorded.len(),
{
    let x = law_summary_text_reads_back(summary, mean);
    reveal_strlit("\n");
    reveal_strlit("  Count : ");
    reveal_strlit("\n  Count : ");
    assert("\n  Count : "@ =~= "\n"@ + "  Count : "@);
    let front = "Latency (ns):\n"@
        + ("  P50   : "@ + x[0] + "\n"@)
        + ("  P90   : "@ + x[1] + "\n"@)
        + ("  P99   : "@ + x[2] + "\n"@)
        + ("  P99.9 : "@ + x[3] + "\n"@)
        + ("  Max   : "@ + x[4] + "\n"@)
        + "  Mean  : "@ + right_aligned(mean, 10);
    assert(summary_text(summary, mean) =~= front + "\n  Count : "@ + x[5] + "\n"@);
    (front, x[5])
}

/// Fields from `k` on, each behind its label and with the end of a line behind it.
spec fn lines_from(label: Seq<Seq<char>>, field: Seq<Seq<char>>, k: int) -> Seq<char>
    decreases field.len() - k,
{
    if 0 <= k < field.len() {
        label[k] + field[k] + ("\n"@ + lines_from(label, field, k + 1))
    } else {
        Seq::empty()
    }
}

proof fn lemma_text_is_first_line(
    summary: Summary,
    mean: Seq<char>,
    shown: Seq<Seq<char>>,
    label: Seq<Seq<char>>,
)
    requires
        shown.len() == 6,
        summary_text(summary, mean) == "Latency (ns):\n"@
            + ("  P50   : "@ + shown[0] + "\n"@)
            + ("  P90   : "@ + shown[1] + "\n"@)
            + ("  P99   : "@ + shown[2] + "\n"@)
            + ("  P99.9 : "@ + shown[3] + "\n"@)
            + ("  Max   : "@ + shown[4] + "\n"@)
            + ("  Mean  : "@ + right_aligned(mean, 10) + "\n"@)
            + ("  Count : "@ + shown[5] + "\n"@),
        label == seq![
            "  P50   : "@,
            "  P90   : "@,
            "  P99   : "@,
            "  P99.9 : "@,
            "  Max   : "@,
            "  Mean  : "@ + right_aligned(mean, 10) + "\n"@ + "  Count : "@,
        ],
    ensures
        summary_text(summary, mean) == "Latency (ns):\n"@ + lines_from(label, shown, 0),
{
    let f0 = "Latency (ns):\n"@;
    let f1 = f0 + (label[0] + shown[0] + "\n"@);
    let f2 = f1 + (label[1] + shown[1] + "\n"@);
    let f3 = f2 + (label[2] + shown[2] + "\n"@);
    let f4 = f3 + (label[3] + shown[3] + "\n"@);
    let f5 = f4 + (label[4] + shown[4] + "\n"@);
    let f6 = f5 + (label[5] + shown[5] + "\n"@);
    assert(summary_text(summary, mean) =~= f6 + lines_from(label, shown, 6));
    lemma_line_moves(f0, label, shown, 0);
    lemma_line_moves(f1, label, shown, 1);
    lemma_line_moves(f2, label, shown, 2);
    lemma_line_moves(f3, label, shown, 3);
    lemma_line_moves(f4, label, shown, 4);
    lemma_line_moves(f5, label, shown, 5);
}

proof fn lemma_line_moves(
    front: Seq<char>,
    label: Seq<Seq<char>>,
    field: Seq<Seq<char>>,
    k: int,
)
    requires
        0 <= k < field.len(),
    ensures
        front + lines_from(label, field, k) == (front + (label[k] + field[k] + "\n"@))
            + lines_from(label, field, k + 1),
{
    assert(front + lines_from(label, field, k) =~= (front + (label[k] + field[k] + "\n"@))
        + lines_from(label, field, k + 1));
}

/// Lines that read the same have the same fields.
proof fn lemma_lines_agree(
    front: Seq<char>,
    label: Seq<Seq<char>>,
    x: Seq<Seq<char>>,
    y: Seq<Seq<char>>,
    k: int,
)
    requires
        0 <= k <= x.len(),
        x.len() == y.len(),
        front + lines_from(label, x, k) == front + lines_from(label, y, k),
        forall|i: int| 0 <= i < x.len() ==> is_column(#[trigger] x[i], 10),
        forall|i: int| 0 <= i < y.len() ==> is_column(#[trigger] y[i], 10),
    ensures
        forall|i: int| k <= i < x.len() ==> #[trigger] x[i] == y[i],
    decreases x.len() - k,
{
    if k < x.len() {
        reveal_strlit("\n");
        let r = lines_from(label, x, k + 1);
        let s = lines_from(label, y, k + 1);
        assert(is_column(x[k], 10));
        assert(is_column(y[k], 10));
        lemma_cancel_front(front, lines_from(label, x, k), lines_from(label, y, k));
        lemma_cancel(label[k], x[k], y[k], "\n"@ + r, "\n"@ + s, '\n');
        lemma_lines_agree("\n"@, label, x, y, k + 1);
    }
}

/// A latency that is too long is dropped whole: whatever is read afterwards is what was read
/// before.
pub proof fn law_too_long_changes_nothing(
    recorded: Seq<u64>,
    nanos: u64,
    before: Summary,
    after: Summary,
)
    requires
        nanos >= TRACKABLE_NANOS,
        summarizes(before, recorded),
        summarizes(after, after_record(recorded, nanos)),
    ensures
        after_record(recorded, nanos) == recorded,
        before == after,
{
    law_summaries_agree(before, after, recorded, seq![]);
}

/// To record a measurement is to record the nanoseconds since its start, of which the low 64
/// bits are kept.
pub proof fn law_measurement_is_its_nanos(before: Seq<u64>, start: Timestamp, after: Seq<u64>)
    requires
        exists|elapsed: u128| #[trigger]
            is_nanos_since(start, elapsed) && after == after_record(
                before,
                (elapsed % 0x1_0000_0000_0000_0000) as u64,
            ),
    ensures
        exists|elapsed: u128| #[trigger]
            is_nanos_since(start, elapsed) && after == after_record(before, elapsed as u64),
{
    let elapsed = choose|elapsed: u128| #[trigger]
        is_nanos_since(start, elapsed) && after == after_record(
            before,
            (elapsed % 0x1_0000_0000_0000_0000) as u64,
        );
    assert(elapsed as u64 == (elapsed % 0x1_0000_0000_0000_0000) as u64) by (bit_vector);
    assert(is_nanos_since(start, elapsed) && after == after_record(before, elapsed as u64));
}

/// The same latencies are always listed alike, so that whatever is computed from the list is
/// the same too.
pub proof fn law_lists_agree(a: Seq<(u64, u64)>, b: Seq<(u64, u64)>, recorded: Seq<u64>)
    requires
        lists_recorded(a, recorded),
        lists_recorded(b, recorded),
    ensures
        a == b,
{
    lemma_lists_start_alike(a, b, recorded, a.len() as int);
    lemma_lists_start_alike(b, a, recorded, b.len() as int);
    assert(a =~= b);
}

/// Where nothing is recorded, be it not yet or no longer, everything reads 0.
pub proof fn law_nothing_recorded_reads_zero(summary: Summary)
    requires
        summarizes(summary, Seq::<u64>::empty()),
    ensures
        summary == (Summary { p50: 0, p90: 0, p99: 0, p999: 0, max: 0, count: 0 }),
{
}

/// The order in which latencies were recorded has no bearing on the count, on the maximum
/// or on any percentile.
pub proof fn law_order_of_recording_is_irrelevant(
    a: Seq<u64>,
    b: Seq<u64>,
    quantile: nat,
    p: nat,
    m: nat,
)
    requires
        a.to_multiset() == b.to_multiset(),
        is_reading(a, quantile, p),
        is_peak(a, m),
    ensures
        a.len() == b.len(),
        is_reading(b, quantile, p),
        is_peak(b, m),
{
    broadcast use vstd::seq_lib::group_to_multiset_ensures;

    assert(a.len() == a.to_multiset().len() == b.len());
    assert forall|w: nat| #[trigger] covered(a, w) == covered(b, w) by {
        lemma_filter_of_multiset(a, |v: u64| level(v as nat) <= w);
        lemma_filter_of_multiset(b, |v: u64| level(v as nat) <= w);
    }
    assert(covered(a, p) == covered(b, p));
    if 0 < b.len() <= u64::MAX {
        assert forall|w: nat| w < p implies #[trigger] covered(b, w) < rank(
            quantile,
            b.len(),
        ) by {
            assert(covered(a, w) == covered(b, w));
        }
    }
    if a.len() > u64::MAX {
        lemma_kept(a);
        lemma_kept(b);
        lemma_levels_of(a);
        lemma_levels_of(b);
        assert(kept(a) =~= kept(b)) by {
            assert forall|l: nat| kept(a).count(l) == kept(b).count(l) by {
                lemma_filter_of_multiset(a, |v: u64| level(v as nat) == l);
                lemma_filter_of_multiset(b, |v: u64| level(v as nat) == l);
                assert(levels_of(a).count(l) == at_level(a, l));
                assert(levels_of(b).count(l) == at_level(b, l));
            }
        }
    }
    if a.len() > 0 {
        let i = choose|i: int| 0 <= i < a.len() && level(#[trigger] a[i] as nat) == m;
        assert(a.contains(a[i]));
        assert(b.to_multiset().count(a[i]) > 0);
        assert forall|j: int| 0 <= j < b.len() implies level(#[trigger] b[j] as nat) <= m by {
            assert(b.contains(b[j]));
            assert(a.to_multiset().count(b[j]) > 0);
        }
    }
}

/// Nor has that order any bearing on the list of levels, nor on what is computed from it.
pub proof fn law_order_of_recording_leaves_the_list(
    a: Seq<u64>,
    b: Seq<u64>,
    l: Seq<(u64, u64)>,
    m: Seq<(u64, u64)>,
)
    requires
        a.to_multiset() == b.to_multiset(),
        lists_recorded(l, a),
        lists_recorded(m, b),
    ensures
        l == m,
{
    assert forall|x: nat| #[trigger] at_level(a, x) == at_level(b, x) by {
        lemma_filter_of_multiset(a, |v: u64| level(v as nat) == x);
        lemma_filter_of_multiset(b, |v: u64| level(v as nat) == x);
    }
    assert forall|i: int| 0 <= i < m.len() implies (#[trigger] m[i]).1 == capped(
        at_level(a, m[i].0 as nat),
    ) by {
        assert(at_level(a, m[i].0 as nat) == at_level(b, m[i].0 as nat));
    }
    assert(lists_recorded(m, a));
    law_lists_agree(l, m, a);
}

/// A latency that is recorded adds one to the count and raises the maximum to its level,
/// where it was lower. One that is too long changes nothing.
pub proof fn law_recording_counts_and_raises(recorded: Seq<u64>, nanos: u64, m: nat, n: nat)
    requires
        is_peak(recorded, m),
        is_peak(after_record(recorded, nanos), n),
    ensures
        nanos < TRACKABLE_NANOS ==> after_record(recorded, nanos).len() == recorded.len() + 1,
        nanos < TRACKABLE_NANOS ==> n == (if m < level(nanos as nat) {
            level(nanos as nat)
        } else {
            m
        }),
        nanos >= TRACKABLE_NANOS ==> after_record(recorded, nanos) == recorded && n == m,
{
    let after = after_record(recorded, nanos);
    if nanos < TRACKABLE_NANOS {
        assert(after[recorded.len() as int] == nanos);
        assert(forall|i: int| 0 <= i < recorded.len() ==> after[i] == #[trigger] recorded[i]);
    }
    if recorded.len() > 0 {
        let i = choose|i: int|
            0 <= i < recorded.len() && level(#[trigger] recorded[i] as nat) == m;
        assert(after[i] == recorded[i]);
    }
}

proof fn lemma_covered_all(recorded: Seq<u64>, m: nat)
    requires
        forall|i: int| 0 <= i < recorded.len() ==> level(#[trigger] recorded[i] as nat) <= m,
    ensures
        covered(recorded, m) == recorded.len(),
    decreases recorded.len(),
{
    reveal(Seq::filter);
    if recorded.len() > 0 {
        let before = recorded.drop_last();
        assert(forall|i: int| 0 <= i < before.len() ==> before[i] == #[trigger] recorded[i]);
        assert(level(recorded[recorded.len() - 1] as nat) <= m);
        lemma_covered_all(before, m);
    }
}

proof fn lemma_at_most_all(recorded: Seq<u64>)
    ensures
        at_most(recorded, u64::MAX as int) == recorded.len(),
    decreases recorded.len(),
{
    reveal(Seq::filter);
    if recorded.len() > 0 {
        lemma_at_most_all(recorded.drop_last());
    }
}

proof fn lemma_at_most_none(recorded: Seq<u64>)
    ensures
        at_most(recorded, -1) == 0,
    decreases recorded.len(),
{
    reveal(Seq::filter);
    if recorded.len() > 0 {
        lemma_at_most_none(recorded.drop_last());
    }
}

/// Among the bounds that `r` recorded values keep there is a least one.
proof fn lemma_least_with_rank(recorded: Seq<u64>, r: nat, x: int)
    requires
        0 <= x <= u64::MAX,
        0 < r <= at_most(recorded, x),
    ensures
        exists|y: int|
            0 <= y <= u64::MAX && #[trigger] at_most(recorded, y) >= r && at_most(recorded, y - 1)
                < r,
    decreases x,
{
    lemma_at_most_none(recorded);
    if at_most(recorded, x - 1) >= r {
        lemma_least_with_rank(recorded, r, x - 1);
    }
}

/// Where the number of values that keep a bound grows, the bound was recorded.
proof fn lemma_step_is_recorded(recorded: Seq<u64>, y: int)
    requires
        at_most(recorded, y - 1) < at_most(recorded, y),
    ensures
        exists|i: int| 0 <= i < recorded.len() && #[trigger] recorded[i] == y,
    decreases recorded.len(),
{
    reveal(Seq::filter);
    if recorded.len() > 0 {
        if recorded.last() == y {
            assert(recorded[recorded.len() - 1] == y);
        } else {
            let before = recorded.drop_last();
            lemma_step_is_recorded(before, y);
            let i = choose|i: int| 0 <= i < before.len() && #[trigger] before[i] == y;
            assert(recorded[i] == y);
        }
    }
}

proof fn lemma_at_most_is_covered(recorded: Seq<u64>, x: nat)
    ensures
        at_most(recorded, x as int) <= covered(recorded, level(x)),
    decreases recorded.len(),
{
    reveal(Seq::filter);
    if recorded.len() > 0 {
        lemma_at_most_is_covered(recorded.drop_last(), x);
        if recorded.last() <= x {
            law_levels_keep_order(recorded.last() as nat, x);
        }
    }
}

proof fn lemma_covered_is_below(recorded: Seq<u64>, w: nat, x: nat)
    requires
        w < level(x),
    ensures
        covered(recorded, w) <= at_most(recorded, x - 1),
    decreases recorded.len(),
{
    reveal(Seq::filter);
    if recorded.len() > 0 {
        lemma_covered_is_below(recorded.drop_last(), w, x);
        if recorded.last() >= x {
            law_levels_keep_order(x, recorded.last() as nat);
        }
    }
}

/// How many values a filter keeps does not depend on their order.
proof fn lemma_filter_of_multiset(recorded: Seq<u64>, keep: spec_fn(u64) -> bool)
    ensures
        recorded.filter(keep).len() == recorded.to_multiset().filter(keep).len(),
    decreases recorded.len(),
{
    broadcast use {vstd::seq_lib::group_to_multiset_ensures, vstd::multiset::group_multiset_axioms};

    reveal(Seq::filter);
    if recorded.len() == 0 {
        assert(recorded.to_multiset().filter(keep) =~= vstd::multiset::Multiset::empty());
    } else {
        let before = recorded.drop_last();
        let last = recorded.last();
        lemma_filter_of_multiset(before, keep);
        assert(before.push(last) =~= recorded);
        assert(recorded.to_multiset() =~= before.to_multiset().insert(last));
        if keep(last) {
            assert(recorded.to_multiset().filter(keep) =~= before.to_multiset().filter(
                keep,
            ).insert(last));
        } else {
            assert(recorded.to_multiset().filter(keep) =~= before.to_multiset().filter(keep));
        }
    }
}

/// A level that one list holds, the other does.
proof fn lemma_listed_in_both(a: Seq<(u64, u64)>, b: Seq<(u64, u64)>, recorded: Seq<u64>, i: int)
    requires
        lists_recorded(a, recorded),
        lists_recorded(b, recorded),
        0 <= i < a.len(),
    ensures
        exists|j: int| 0 <= j < b.len() && (#[trigger] b[j]).0 == a[i].0,
{
    assert(at_level(recorded, a[i].0 as nat) > 0);
}

/// One list of the recorded levels begins as the other does.
proof fn lemma_lists_start_alike(
    a: Seq<(u64, u64)>,
    b: Seq<(u64, u64)>,
    recorded: Seq<u64>,
    n: int,
)
    requires
        lists_recorded(a, recorded),
        lists_recorded(b, recorded),
        0 <= n <= a.len(),
    ensures
        n <= b.len(),
        forall|i: int| 0 <= i < n ==> #[trigger] a[i] == b[i],
    decreases n,
{
    if n > 0 {
        lemma_lists_start_alike(a, b, recorded, n - 1);
        lemma_listed_in_both(a, b, recorded, n - 1);
        let j = choose|j: int| 0 <= j < b.len() && (#[trigger] b[j]).0 == a[n - 1].0;
        assert(j >= n - 1) by {
            if j < n - 1 {
                assert(a[j] == b[j]);
            }
        }
        lemma_listed_in_both(b, a, recorded, n - 1);
        let k = choose|k: int| 0 <= k < a.len() && (#[trigger] a[k]).0 == b[n - 1].0;
        assert(k >= n - 1) by {
            if k < n - 1 {
                assert(a[k] == b[k]);
            }
        }
        assert(a[n - 1].0 == b[n - 1].0) by {
            if j > n - 1 {
                assert(b[n - 1].0 < b[j].0);
            }
            if k > n - 1 {
                assert(a[n - 1].0 < a[k].0);
            }
        }
    }
}

} // verus!
