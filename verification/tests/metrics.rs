use ferrox::levels::value_at_rank;
use ferrox::metrics::{
    LatencyRecorder, Summary, HIGHEST_NANOS, LOWEST_NANOS, SIGNIFICANT_DIGITS, TRACKABLE_NANOS,
};
use ferrox::metrics_off;
use hdrhistogram::Histogram;

fn recorder_of(values: &[u64]) -> LatencyRecorder {
    let mut recorder = LatencyRecorder::new();
    for v in values {
        recorder.record_nanos(*v);
    }
    recorder
}

fn histogram_of(values: &[u64]) -> Histogram<u64> {
    let mut histogram =
        Histogram::new_with_bounds(LOWEST_NANOS, HIGHEST_NANOS, SIGNIFICANT_DIGITS).unwrap();
    for v in values {
        let _ = histogram.record(*v);
    }
    histogram
}

fn assert_agrees(values: &[u64]) {
    let recorder = recorder_of(values);
    let histogram = histogram_of(values);
    assert_eq!(recorder.count(), histogram.len());
    assert_eq!(recorder.max(), histogram.max());
    assert_eq!(recorder.p50(), histogram.value_at_quantile(0.50));
    assert_eq!(recorder.p90(), histogram.value_at_quantile(0.90));
    assert_eq!(recorder.p99(), histogram.value_at_quantile(0.99));
    assert_eq!(recorder.p999(), histogram.value_at_quantile(0.999));
}

/// A fixed sequence of numbers that looks random.
fn scattered(seed: u64, n: usize) -> Vec<u64> {
    let mut state = seed;
    let mut out = Vec::new();
    for _ in 0..n {
        state = state
            .wrapping_mul(6364136223846793005)
            .wrapping_add(1442695040888963407);
        out.push(state >> (24 + state % 40));
    }
    out
}

#[test]
fn record_and_read_percentiles() {
    let mut recorder = LatencyRecorder::new();
    for i in 1..=1000u64 {
        recorder.record_nanos(i * 100);
    }
    assert_eq!(recorder.count(), 1000);
    assert!(recorder.p50() > 0);
    assert!(recorder.p99() > recorder.p50());
    assert!(recorder.max() >= 100_000);
}

#[test]
fn empty_histogram() {
    let recorder = LatencyRecorder::new();
    assert_eq!(recorder.count(), 0);
    assert_eq!(recorder.p50(), 0);
    assert_eq!(recorder.max(), 0);
}

#[test]
fn reset_clears_data() {
    let mut recorder = LatencyRecorder::new();
    recorder.record_nanos(1000);
    assert_eq!(recorder.count(), 1);
    recorder.reset();
    assert_eq!(recorder.count(), 0);
}

#[test]
fn percentiles_have_their_exact_values() {
    let values: Vec<u64> = (1..=1000u64).collect();
    let recorder = recorder_of(&values);
    assert_eq!(recorder.p50(), 500);
    assert_eq!(recorder.p90(), 900);
    assert_eq!(recorder.p99(), 990);
    assert_eq!(recorder.p999(), 999);
    assert_eq!(recorder.max(), 1000);
}

#[test]
fn ranks_are_rounded_up() {
    let recorder = recorder_of(&[10, 20, 30]);
    assert_eq!(recorder.p50(), 20);
    assert_eq!(recorder.p90(), 30);
    let recorder = recorder_of(&[10, 20, 30, 40]);
    assert_eq!(recorder.p50(), 20);
    assert_eq!(recorder.p90(), 40);
}

#[test]
fn a_single_latency_is_every_percentile() {
    let recorder = recorder_of(&[1234]);
    assert_eq!(recorder.p50(), 1234);
    assert_eq!(recorder.p999(), 1234);
    assert_eq!(recorder.max(), 1234);
}

#[test]
fn a_latency_of_zero_counts() {
    let recorder = recorder_of(&[0, 0, 7]);
    assert_eq!(recorder.count(), 3);
    assert_eq!(recorder.p50(), 0);
    assert_eq!(recorder.max(), 7);
    assert_eq!(recorder.levels(), vec![(0, 2), (7, 1)]);
    let recorder = recorder_of(&[0]);
    assert_eq!(recorder.count(), 1);
    assert_eq!(recorder.max(), 0);
    assert_eq!(recorder.levels(), vec![(0, 1)]);
}

#[test]
fn levels_keep_three_digits() {
    assert_eq!(recorder_of(&[2047]).max(), 2047);
    assert_eq!(recorder_of(&[2048]).max(), 2049);
    assert_eq!(recorder_of(&[2049]).max(), 2049);
    assert_eq!(recorder_of(&[4095]).max(), 4095);
    assert_eq!(recorder_of(&[4096]).max(), 4099);
    assert_eq!(recorder_of(&[100_000]).p50(), 100_031);
    assert_eq!(recorder_of(&[60_000_000_000]).max(), 60_028_878_847);
    for v in scattered(7, 2000) {
        if v < TRACKABLE_NANOS && v >= 1024 {
            let level = recorder_of(&[v]).max();
            assert!(level >= v);
            assert!(1024 * (level - v + 1) <= v);
        }
    }
}

#[test]
fn levels_list_each_bucket_once() {
    let recorder = recorder_of(&[4096, 5, 4097, 5, 4099, 4100, 2047]);
    assert_eq!(recorder.levels(), vec![(5, 2), (2047, 1), (4099, 3), (4103, 1)]);
    assert_eq!(LatencyRecorder::new().levels(), vec![]);
}

#[test]
fn latencies_that_are_too_long_are_left_out() {
    let mut recorder = recorder_of(&[5]);
    recorder.record_nanos(TRACKABLE_NANOS);
    recorder.record_nanos(u64::MAX);
    assert_eq!(recorder.count(), 1);
    assert_eq!(recorder.max(), 5);
    recorder.record_nanos(TRACKABLE_NANOS - 1);
    assert_eq!(recorder.count(), 2);
    assert_eq!(recorder.max(), TRACKABLE_NANOS - 1);
}

#[test]
fn reset_leaves_no_trace() {
    let mut recorder = recorder_of(&[9_000_000, 8, 70_000]);
    recorder.reset();
    assert_eq!(
        recorder.summary(),
        Summary { p50: 0, p90: 0, p99: 0, p999: 0, max: 0, count: 0 }
    );
    recorder.record_nanos(3);
    assert_eq!(
        recorder.summary(),
        Summary { p50: 3, p90: 3, p99: 3, p999: 3, max: 3, count: 1 }
    );
}

#[test]
fn percentiles_agree_with_the_histogram() {
    assert_agrees(&[]);
    assert_agrees(&[0]);
    assert_agrees(&[1, 1, 1, 2]);
    assert_agrees(&[TRACKABLE_NANOS - 1, HIGHEST_NANOS, 1]);
    for n in 1..=400usize {
        assert_agrees(&scattered(n as u64, n));
    }
    assert_agrees(&scattered(11, 50_000));
}

#[test]
fn percentiles_are_ordered() {
    for n in [1usize, 2, 3, 10, 99, 100, 101, 1000, 1001] {
        let s = recorder_of(&scattered(n as u64 + 5, n)).summary();
        assert!(s.p50 <= s.p90);
        assert!(s.p90 <= s.p99);
        assert!(s.p99 <= s.p999);
        assert!(s.p999 <= s.max);
    }
}

#[test]
fn the_order_of_recording_does_not_matter() {
    let mut values = scattered(3, 500);
    let forwards = recorder_of(&values).summary();
    values.reverse();
    assert_eq!(recorder_of(&values).summary(), forwards);
    values.sort();
    assert_eq!(recorder_of(&values).summary(), forwards);
}

#[test]
fn a_percentile_is_close_to_the_latency_of_its_rank() {
    let mut values: Vec<u64> =
        scattered(21, 1000).into_iter().filter(|v| *v < TRACKABLE_NANOS).collect();
    let recorder = recorder_of(&values);
    values.sort();
    let exact = values[(values.len() * 99 + 99) / 100 - 1];
    let p = recorder.p99();
    assert!(p >= exact);
    assert!(p == exact || 1024 * (p - exact + 1) <= exact);
}

#[test]
fn recording_raises_the_maximum() {
    let mut recorder = recorder_of(&[50]);
    recorder.record_nanos(20);
    assert_eq!((recorder.count(), recorder.max()), (2, 50));
    recorder.record_nanos(5000);
    assert_eq!((recorder.count(), recorder.max()), (3, 5003));
}

#[test]
fn a_measurement_is_recorded() {
    let mut recorder = LatencyRecorder::new();
    let start = LatencyRecorder::start();
    let mut spent = scattered(2, 20_000);
    spent.sort();
    let before = start.elapsed().as_nanos() as u64;
    recorder.record(start);
    let after = start.elapsed().as_nanos() as u64;
    assert_eq!(spent.len(), 20_000);
    assert_eq!(recorder.count(), 1);
    assert!(recorder.max() >= before);
    assert!(recorder.max() <= after + after / 1024);
}

#[test]
fn a_summary_shows_each_value_and_changes_none() {
    let recorder = recorder_of(&scattered(17, 3000));
    let summary = recorder.summary();
    assert_eq!(
        summary,
        Summary {
            p50: recorder.p50(),
            p90: recorder.p90(),
            p99: recorder.p99(),
            p999: recorder.p999(),
            max: recorder.max(),
            count: recorder.count(),
        }
    );
    assert_eq!(recorder.summary(), summary);
    assert_eq!(recorder.print_summary("12"), summary.to_text("12"));
    assert_eq!(recorder.print_summary("12"), recorder.print_summary("12"));
}

#[test]
fn a_latency_that_is_too_long_leaves_everything_as_it_was() {
    let mut recorder = recorder_of(&scattered(19, 700));
    let summary = recorder.summary();
    let levels = recorder.levels();
    recorder.record_nanos(TRACKABLE_NANOS);
    assert_eq!(recorder.summary(), summary);
    assert_eq!(recorder.levels(), levels);
}

#[test]
fn levels_do_not_depend_on_the_order() {
    let mut values = scattered(23, 400);
    let levels = recorder_of(&values).levels();
    values.reverse();
    assert_eq!(recorder_of(&values).levels(), levels);
}

#[test]
fn elapsed_times_keep_their_low_bits() {
    let mut recorder = LatencyRecorder::new();
    recorder.record_elapsed(12);
    assert_eq!(recorder.levels(), vec![(12, 1)]);
    recorder.record_elapsed((1u128 << 64) + 7);
    assert_eq!(recorder.levels(), vec![(7, 1), (12, 1)]);
    recorder.record_elapsed(u64::MAX as u128);
    assert_eq!(recorder.count(), 2);
}

#[test]
fn ranks_are_looked_up_in_entries() {
    let entries = vec![(3u64, 2u64), (8, 1), (9, 4)];
    assert_eq!(value_at_rank(&entries, 1), 3);
    assert_eq!(value_at_rank(&entries, 2), 3);
    assert_eq!(value_at_rank(&entries, 3), 8);
    assert_eq!(value_at_rank(&entries, 4), 9);
    assert_eq!(value_at_rank(&entries, 7), 9);
    assert_eq!(value_at_rank(&entries, 8), 0);
    assert_eq!(value_at_rank(&vec![], 1), 0);
}

#[test]
fn summary_is_laid_out_in_columns() {
    let summary = Summary {
        p50: 500,
        p90: 90_000,
        p99: 990,
        p999: 1_234_567_890,
        max: 12_345_678_901,
        count: 0,
    };
    let expected = format!(
        "Latency (ns):\n  P50   : {:>10}\n  P90   : {:>10}\n  P99   : {:>10}\n  P99.9 : {:>10}\n  Max   : {:>10}\n  Mean  : {:>10.0}\n  Count : {:>10}\n",
        500u64, 90_000u64, 990u64, 1_234_567_890u64, 12_345_678_901u64, 512.5f64, 0u64
    );
    assert_eq!(summary.to_text(&format!("{:.0}", 512.5f64)), expected);
    assert_eq!(
        LatencyRecorder::new().print_summary("0"),
        "Latency (ns):\n  P50   :          0\n  P90   :          0\n  P99   :          0\n  P99.9 :          0\n  Max   :          0\n  Mean  :          0\n  Count :          0\n"
    );
}

#[test]
fn a_recorder_is_shown_by_its_count() {
    assert_eq!(LatencyRecorder::new().debug_text(), "LatencyRecorder { count: 0 }");
    assert_eq!(
        recorder_of(&scattered(1, 1200)).debug_text(),
        format!("LatencyRecorder {{ count: {} }}", histogram_of(&scattered(1, 1200)).len())
    );
}

#[test]
fn a_recorder_that_is_off_reads_zero() {
    let mut recorder = metrics_off::LatencyRecorder::new();
    recorder.record_nanos(1000);
    metrics_off::LatencyRecorder::start();
    recorder.record(());
    assert_eq!(recorder.count(), 0);
    assert_eq!(recorder.p50(), 0);
    assert_eq!(recorder.p90(), 0);
    assert_eq!(recorder.p99(), 0);
    assert_eq!(recorder.p999(), 0);
    assert_eq!(recorder.max(), 0);
    recorder.reset();
    assert_eq!(recorder.print_summary("0"), "");
    assert_eq!(recorder.count(), 0);
    assert_eq!(format!("{:?}", recorder), "LatencyRecorder");
}
