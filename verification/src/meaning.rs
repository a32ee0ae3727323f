//! What the words of the contracts mean, in plain numbers.

use vstd::arithmetic::div_mod::lemma_div_denominator;
use vstd::arithmetic::power2::{lemma2_to64, lemma_pow2_pos, lemma_pow2_unfold, pow2};
use vstd::prelude::*;

use crate::levels::{
    at_level, capped, counted, covered, first_reaching, is_peak, is_reading, kept, lemma_kept,
    lemma_levels_of, level, levels_of, lists_recorded, reach, within,
};
use crate::metrics::after_record;
use crate::rank::{law_rank_is_exact, rank, MEDIAN, NINETY, NINETY_NINE, NINETY_NINE_NINE};

verus! {

/// A value from `1024 * 2^k` up to, but not at, `2048 * 2^k` shares its bucket with those that
/// begin with the same eleven bits, and its level is the highest of them.
pub proof fn law_level_is_the_top_of_its_bucket(value: nat, k: nat)
    requires
        1024 * pow2(k) <= value < 2048 * pow2(k),
    ensures
        level(value) == (value / pow2(k) + 1) * pow2(k) - 1,
    decreases k,
{
    let q = value / pow2(k);
    lemma2_to64();
    lemma_pow2_pos(k);
    if k > 0 {
        let half = pow2((k - 1) as nat);
        lemma_pow2_unfold(k);
        lemma_pow2_pos((k - 1) as nat);
        law_level_is_the_top_of_its_bucket(value / 2, (k - 1) as nat);
        lemma_div_denominator(value as int, 2, half as int);
        assert(value / 2 / half == q);
        assert(level(value / 2) == (q + 1) * half - 1);
        assert((q + 1) * pow2(k) == 2 * ((q + 1) * half)) by (nonlinear_arith)
            requires
                pow2(k) == 2 * half,
        ;
    } else {
        assert(value / pow2(k) == value && (value + 1) * pow2(k) == value + 1)
            by (nonlinear_arith)
            requires
                pow2(k) == 1,
        ;
    }
}

/// Of a value from `1024 * 2^k` up to, but not at, `2048 * 2^k`, the reach is `2048 * 2^k`.
/// Below 1024 it is 2048.
pub proof fn law_reach_is_the_next_power(high: nat, k: nat)
    ensures
        high < 1024 ==> reach(high) == 2048,
        1024 * pow2(k) <= high < 2048 * pow2(k) ==> reach(high) == 2048 * pow2(k),
    decreases k,
{
    lemma2_to64();
    if k > 0 {
        lemma_pow2_unfold(k);
        lemma_pow2_pos((k - 1) as nat);
        law_reach_is_the_next_power(high / 2, (k - 1) as nat);
    }
}

/// What can be counted is counted as it is, and anything beyond as the most that can be.
pub proof fn law_counting_stops_at_the_maximum(n: nat)
    ensures
        n <= 0xffff_ffff_ffff_ffff ==> capped(n) == n,
        n > 0xffff_ffff_ffff_ffff ==> capped(n) == 0xffff_ffff_ffff_ffff,
{
}

/// A latency below `2^36` nanoseconds is added behind those recorded before, and any other is
/// left out. So, of the levels, that of the latency is recorded once more, and no other.
pub proof fn law_recording_adds_one_at_its_level(recorded: Seq<u64>, nanos: u64, l: nat)
    ensures
        nanos < 68_719_476_736 ==> after_record(recorded, nanos) == recorded.push(nanos),
        nanos >= 68_719_476_736 ==> after_record(recorded, nanos) == recorded,
        nanos < 68_719_476_736 ==> after_record(recorded, nanos).filter(
            |v: u64| level(v as nat) == l,
        ).len() == recorded.filter(|v: u64| level(v as nat) == l).len() + (if l == level(
            nanos as nat,
        ) {
            1int
        } else {
            0int
        }),
{
    reveal(Seq::filter);
    assert(recorded.push(nanos).drop_last() =~= recorded);
}

/// The maximum is the level of one of the recorded latencies, and no other has a higher one.
/// It is 0 where nothing was recorded.
pub proof fn law_peak_is_the_highest_level(recorded: Seq<u64>, m: nat)
    requires
        is_peak(recorded, m),
    ensures
        recorded.len() == 0 ==> m == 0,
        recorded.len() > 0 ==> exists|i: int|
            0 <= i < recorded.len() && level(#[trigger] recorded[i] as nat) == m,
        forall|i: int| 0 <= i < recorded.len() ==> level(#[trigger] recorded[i] as nat) <= m,
{
}

/// A percentile is the least bound that at least as many of the recorded latencies keep with
/// their levels as the quantile stands for. It is 0 where nothing was recorded.
pub proof fn law_reading_is_the_least_bound(recorded: Seq<u64>, quantile: nat, p: nat, w: nat)
    requires
        recorded.len() <= u64::MAX,
        is_reading(recorded, quantile, p),
    ensures
        recorded.len() == 0 ==> p == 0,
        recorded.len() > 0 ==> {
            &&& recorded.filter(|v: u64| level(v as nat) <= p).len() >= rank(
                quantile,
                recorded.len(),
            )
            &&& w < p ==> recorded.filter(|v: u64| level(v as nat) <= w).len() < rank(
                quantile,
                recorded.len(),
            )
        },
{
    if recorded.len() > 0 && w < p {
        assert(covered(recorded, w) < rank(quantile, recorded.len()));
    }
}

/// Where more was recorded than can be counted, a percentile is the least bound that as many
/// entries of the buckets keep as the quantile stands for out of the most that can be counted.
pub proof fn law_reading_beyond_the_count(recorded: Seq<u64>, quantile: nat, p: nat, w: nat)
    requires
        recorded.len() > u64::MAX,
        is_reading(recorded, quantile, p),
    ensures
        kept(recorded).filter(|y: nat| y <= p).len() >= rank(quantile, 0xffff_ffff_ffff_ffff),
        w < p ==> kept(recorded).filter(|y: nat| y <= w).len() < rank(
            quantile,
            0xffff_ffff_ffff_ffff,
        ),
{
    if w < p {
        assert(within(kept(recorded), w) < rank(quantile, u64::MAX as nat));
    }
}

/// A bucket holds as many entries as latencies of its level were recorded, until it holds as
/// many as it can.
pub proof fn law_buckets_hold_what_was_recorded(recorded: Seq<u64>, l: nat)
    ensures
        recorded.filter(|v: u64| level(v as nat) == l).len() <= 0xffff_ffff_ffff_ffff ==> kept(
            recorded,
        ).count(l) == recorded.filter(|v: u64| level(v as nat) == l).len(),
        recorded.filter(|v: u64| level(v as nat) == l).len() > 0xffff_ffff_ffff_ffff ==> kept(
            recorded,
        ).count(l) == 0xffff_ffff_ffff_ffff,
{
    lemma_kept(recorded);
    lemma_levels_of(recorded);
    assert(levels_of(recorded).count(l) == at_level(recorded, l));
}

/// At least half of the latencies have a level that is at most the median, and of no lower
/// bound is that true; and so with 90 %, 99 % and 99.9 % of them and the other percentiles.
/// Up to `2^42` latencies no rounding comes in between.
pub proof fn law_percentiles_split_what_was_recorded(
    recorded: Seq<u64>,
    p50: nat,
    p90: nat,
    p99: nat,
    p999: nat,
    w: nat,
)
    requires
        0 < recorded.len() <= 0x400_0000_0000,
        is_reading(recorded, MEDIAN as nat, p50),
        is_reading(recorded, NINETY as nat, p90),
        is_reading(recorded, NINETY_NINE as nat, p99),
        is_reading(recorded, NINETY_NINE_NINE as nat, p999),
    ensures
        2 * recorded.filter(|v: u64| level(v as nat) <= p50).len() >= recorded.len(),
        10 * recorded.filter(|v: u64| level(v as nat) <= p90).len() >= 9 * recorded.len(),
        100 * recorded.filter(|v: u64| level(v as nat) <= p99).len() >= 99 * recorded.len(),
        1000 * recorded.filter(|v: u64| level(v as nat) <= p999).len() >= 999 * recorded.len(),
        w < p50 ==> 2 * recorded.filter(|v: u64| level(v as nat) <= w).len() < recorded.len(),
        w < p90 ==> 10 * recorded.filter(|v: u64| level(v as nat) <= w).len() < 9 * recorded.len(),
        w < p99 ==> 100 * recorded.filter(|v: u64| level(v as nat) <= w).len() < 99
            * recorded.len(),
        w < p999 ==> 1000 * recorded.filter(|v: u64| level(v as nat) <= w).len() < 999
            * recorded.len(),
{
    law_rank_is_exact(recorded.len());
    law_reading_is_the_least_bound(recorded, MEDIAN as nat, p50, w);
    law_reading_is_the_least_bound(recorded, NINETY as nat, p90, w);
    law_reading_is_the_least_bound(recorded, NINETY_NINE as nat, p99, w);
    law_reading_is_the_least_bound(recorded, NINETY_NINE_NINE as nat, p999, w);
}

/// The list of levels goes up, gives each level with how many latencies of it were recorded,
/// as far as they can be counted, and leaves out the level of none.
pub proof fn law_list_counts_each_level(entries: Seq<(u64, u64)>, recorded: Seq<u64>, k: int)
    requires
        lists_recorded(entries, recorded),
    ensures
        forall|i: int, j: int|
            0 <= i < j < entries.len() ==> (#[trigger] entries[i]).0 < (#[trigger] entries[j]).0,
        forall|i: int|
            0 <= i < entries.len() ==> 0 < (#[trigger] entries[i]).1 <= recorded.filter(
                |v: u64| level(v as nat) == entries[i].0,
            ).len(),
        forall|i: int|
            0 <= i < entries.len() && recorded.filter(
                |v: u64| level(v as nat) == entries[i].0,
            ).len() != (#[trigger] entries[i]).1 ==> entries[i].1 == 0xffff_ffff_ffff_ffff,
        0 <= k < recorded.len() ==> exists|i: int|
            0 <= i < entries.len() && (#[trigger] entries[i]).0 == level(recorded[k] as nat),
{
    assert forall|i: int| 0 <= i < entries.len() implies at_level(
        recorded,
        (#[trigger] entries[i]).0 as nat,
    ) == recorded.filter(|v: u64| level(v as nat) == entries[i].0).len() by {
        let l = entries[i].0 as nat;
        assert((|v: u64| level(v as nat) == l) =~= (|v: u64| level(v as nat) == entries[i].0));
    }
    if 0 <= k < recorded.len() {
        let l = level(recorded[k] as nat);
        recorded.lemma_filter_contains(|v: u64| level(v as nat) == l, k);
        assert(at_level(recorded, l) > 0);
    }
}

/// What the first entries count is the sum of their counts, and an entry is the first that
/// reaches a rank where the sum with it does and the sum before it does not.
pub proof fn law_counted_is_the_sum(entries: Seq<(u64, u64)>, rank: nat, i: int)
    requires
        0 <= i < entries.len(),
    ensures
        counted(entries, i) == entries.take(i).fold_left(
            0int,
            |sum: int, e: (u64, u64)| sum + e.1,
        ),
        first_reaching(entries, rank, i) <==> rank <= entries.take(i + 1).fold_left(
            0int,
            |sum: int, e: (u64, u64)| sum + e.1,
        ) && (i > 0 ==> entries.take(i).fold_left(0int, |sum: int, e: (u64, u64)| sum + e.1)
            < rank),
{
    lemma_counted_is_the_sum(entries, i);
    lemma_counted_is_the_sum(entries, i + 1);
    if i > 0 && counted(entries, i) < rank {
        assert forall|j: int| 0 <= j < i implies #[trigger] counted(entries, j + 1) < rank by {
            crate::levels::lemma_counted_grows(entries, j + 1, i);
        }
    }
    if i > 0 && first_reaching(entries, rank, i) {
        assert(counted(entries, (i - 1) + 1) < rank);
    }
}

proof fn lemma_counted_is_the_sum(entries: Seq<(u64, u64)>, n: int)
    requires
        0 <= n <= entries.len(),
    ensures
        counted(entries, n) == entries.take(n).fold_left(
            0int,
            |sum: int, e: (u64, u64)| sum + e.1,
        ),
    decreases n,
{
    reveal_with_fuel(Seq::fold_left, 2);
    if n > 0 {
        lemma_counted_is_the_sum(entries, n - 1);
        assert(entries.take(n).drop_last() =~= entries.take(n - 1));
    }
}

} // verus!
