//! Buckets of values, and order statistics over what was recorded in them.

use vstd::multiset::Multiset;
use vstd::prelude::*;

use crate::rank::{lemma_rank_bounds, rank, NINETY_NINE_NINE};

verus! {

broadcast use vstd::multiset::group_multiset_axioms;

/// The highest value that shares a bucket with `value`.
///
/// Every value below 2048 has a bucket of its own. From there on a bucket
/// doubles in width whenever its values do.
pub open spec fn level(value: nat) -> nat
    decreases value,
{
    if value < 2048 {
        value
    } else {
        2 * level(value / 2) + 1
    }
}

/// The least `2048 * 2^k` above `high`.
pub open spec fn reach(high: nat) -> nat
    decreases high,
{
    if high < 2048 {
        2048
    } else {
        2 * reach(high / 2)
    }
}

/// How many of the recorded values have level `l`.
pub open spec fn at_level(recorded: Seq<u64>, l: nat) -> nat {
    recorded.filter(|v: u64| level(v as nat) == l).len()
}

/// How many of the recorded values have a level of at most `w`.
pub open spec fn covered(recorded: Seq<u64>, w: nat) -> nat {
    recorded.filter(|v: u64| level(v as nat) <= w).len()
}

/// How many of the recorded values are at most `w`.
pub open spec fn at_most(recorded: Seq<u64>, w: int) -> nat {
    recorded.filter(|v: u64| v <= w).len()
}

/// `p` is the percentile at `quantile / 2^53` of what was recorded: the least
/// bound that this share of the recorded values keeps with its levels. It is 0
/// where nothing was recorded.
pub open spec fn is_percentile(recorded: Seq<u64>, quantile: nat, p: nat) -> bool {
    if recorded.len() == 0 {
        p == 0
    } else {
        &&& covered(recorded, p) >= rank(quantile, recorded.len())
        &&& forall|w: nat|
            w < p ==> #[trigger] covered(recorded, w) < rank(quantile, recorded.len())
    }
}

/// `m` is the greatest level of a recorded value, or 0 where nothing was recorded.
pub open spec fn is_peak(recorded: Seq<u64>, m: nat) -> bool {
    if recorded.len() == 0 {
        m == 0
    } else {
        &&& exists|i: int| 0 <= i < recorded.len() && level(#[trigger] recorded[i] as nat) == m
        &&& forall|i: int| 0 <= i < recorded.len() ==> level(#[trigger] recorded[i] as nat) <= m
    }
}

/// The levels of the recorded values.
pub open spec fn levels_of(recorded: Seq<u64>) -> Multiset<nat>
    decreases recorded.len(),
{
    if recorded.len() == 0 {
        Multiset::empty()
    } else {
        levels_of(recorded.drop_last()).insert(level(recorded.last() as nat))
    }
}

/// `n`, or the greatest `u64` where `n` is beyond it.
pub open spec fn capped(n: nat) -> nat {
    if n < u64::MAX {
        n
    } else {
        u64::MAX as nat
    }
}

/// What the buckets hold of the recorded values: their levels, but that the counter of a
/// bucket stands still once it is at its maximum.
pub open spec fn kept(recorded: Seq<u64>) -> Multiset<nat>
    decreases recorded.len(),
{
    if recorded.len() == 0 {
        Multiset::empty()
    } else {
        let before = kept(recorded.drop_last());
        let last = level(recorded.last() as nat);
        if before.count(last) < u64::MAX {
            before.insert(last)
        } else {
            before
        }
    }
}

/// How many entries of the buckets are at most `w`.
pub open spec fn within(buckets: Multiset<nat>, w: nat) -> nat {
    buckets.filter(|y: nat| y <= w).len()
}

/// `p` is the least bound that `rank` entries of the buckets keep.
pub open spec fn is_ranked(buckets: Multiset<nat>, rank: nat, p: nat) -> bool {
    &&& within(buckets, p) >= rank
    &&& forall|w: nat| w < p ==> #[trigger] within(buckets, w) < rank
}

/// `p` is what is read as the percentile at `quantile / 2^53` of what was recorded: that
/// percentile, as long as what was recorded can be counted, and beyond it the one of what
/// the buckets hold, out of as many as can be counted.
pub open spec fn is_reading(recorded: Seq<u64>, quantile: nat, p: nat) -> bool {
    if recorded.len() <= u64::MAX {
        is_percentile(recorded, quantile, p)
    } else {
        is_ranked(kept(recorded), rank(quantile, u64::MAX as nat), p)
    }
}

/// `entries` lists `buckets` from the lowest value up, each value once, with its count.
pub open spec fn lists(entries: Seq<(u64, u64)>, buckets: Multiset<nat>) -> bool {
    &&& forall|i: int, j: int|
        0 <= i < j < entries.len() ==> (#[trigger] entries[i]).0 < (#[trigger] entries[j]).0
    &&& forall|i: int|
        0 <= i < entries.len() ==> (#[trigger] entries[i]).1 > 0 && entries[i].1 == buckets.count(
            entries[i].0 as nat,
        )
    &&& forall|v: nat| #[trigger]
        buckets.contains(v) ==> exists|i: int|
            0 <= i < entries.len() && (#[trigger] entries[i]).0 == v
}

/// `entries` lists the levels of the recorded values from the lowest up, each level once, with
/// how often it was recorded, up to what can be counted.
pub open spec fn lists_recorded(entries: Seq<(u64, u64)>, recorded: Seq<u64>) -> bool {
    &&& forall|i: int, j: int|
        0 <= i < j < entries.len() ==> (#[trigger] entries[i]).0 < (#[trigger] entries[j]).0
    &&& forall|i: int|
        0 <= i < entries.len() ==> (#[trigger] entries[i]).1 > 0 && entries[i].1 == capped(
            at_level(recorded, entries[i].0 as nat),
        )
    &&& forall|l: nat| #[trigger]
        at_level(recorded, l) > 0 ==> exists|i: int|
            0 <= i < entries.len() && (#[trigger] entries[i]).0 == l
}

/// The counts of the first `n` entries, added up.
pub open spec fn counted(entries: Seq<(u64, u64)>, n: int) -> nat
    decreases n,
{
    if n <= 0 {
        0
    } else {
        counted(entries, n - 1) + entries[n - 1].1 as nat
    }
}

/// Entry `i` is the first with which at least `rank` are counted.
pub open spec fn first_reaching(entries: Seq<(u64, u64)>, rank: nat, i: int) -> bool {
    &&& 0 <= i < entries.len()
    &&& rank <= counted(entries, i + 1)
    &&& forall|j: int| 0 <= j < i ==> #[trigger] counted(entries, j + 1) < rank
}

/// The value of the first of the `entries` with which at least `rank` are counted, or 0
/// where there is none.
pub fn value_at_rank(entries: &Vec<(u64, u64)>, rank: u64) -> (value: u64)
    ensures
        forall|i: int| #[trigger]
            first_reaching(entries@, rank as nat, i) ==> value == entries@[i].0,
        (forall|i: int| !#[trigger] first_reaching(entries@, rank as nat, i)) ==> value == 0,
{
    let mut missing: u64 = rank;
    let mut i: usize = 0;
    while i < entries.len()
        invariant
            i <= entries@.len(),
            missing + counted(entries@, i as int) == rank,
            forall|j: int| 0 <= j < i ==> #[trigger] counted(entries@, j + 1) < rank,
        decreases entries@.len() - i,
    {
        let entry: (u64, u64) = entries[i];
        assert(counted(entries@, i + 1) == counted(entries@, i as int) + entry.1);
        if missing <= entry.1 {
            proof {
                assert(first_reaching(entries@, rank as nat, i as int));
                assert forall|k: int| #[trigger]
                    first_reaching(entries@, rank as nat, k) implies k == i by {
                    if i < k {
                        assert(counted(entries@, i + 1) < rank);
                    }
                }
            }
            return entry.0;
        }
        missing = missing - entry.1;
        i = i + 1;
    }
    0
}

/// Where enough are counted in all, some entry is the first with which they are.
pub(crate) proof fn lemma_some_reaches(entries: Seq<(u64, u64)>, rank: nat, n: int)
    requires
        0 < n <= entries.len(),
        rank <= counted(entries, n),
    ensures
        exists|i: int| #[trigger] first_reaching(entries, rank, i),
    decreases n,
{
    if n > 1 && rank <= counted(entries, n - 1) {
        lemma_some_reaches(entries, rank, n - 1);
    } else {
        assert forall|j: int| 0 <= j < n - 1 implies #[trigger] counted(entries, j + 1) < rank by {
            lemma_counted_grows(entries, j + 1, n - 1);
        }
        assert(first_reaching(entries, rank, n - 1));
    }
}

pub(crate) proof fn lemma_counted_grows(entries: Seq<(u64, u64)>, i: int, j: int)
    requires
        0 <= i <= j,
    ensures
        counted(entries, i) <= counted(entries, j),
    decreases j - i,
{
    if i < j {
        lemma_counted_grows(entries, i, j - 1);
    }
}

/// Taking one value out of a multiset takes out as many as its count.
proof fn lemma_len_split(m: Multiset<nat>, x: nat)
    ensures
        m.len() == m.filter(|y: nat| y != x).len() + m.count(x),
    decreases m.count(x),
{
    let others = |y: nat| y != x;
    if m.count(x) == 0 {
        assert(m.filter(others) =~= m);
    } else {
        let rest = m.remove(x);
        lemma_len_split(rest, x);
        assert(rest.filter(others) =~= m.filter(others));
        assert(rest.insert(x) =~= m);
    }
}

proof fn lemma_subset_len(a: Multiset<nat>, b: Multiset<nat>)
    requires
        a.subset_of(b),
    ensures
        a.len() <= b.len(),
{
    assert(b.sub(a).len() == b.len() - a.len());
}

/// Where no entry is in a part of the buckets, nothing is.
proof fn lemma_no_entry(entries: Seq<(u64, u64)>, buckets: Multiset<nat>, part: Multiset<nat>)
    requires
        lists(entries, buckets),
        part.subset_of(buckets),
        forall|i: int| 0 <= i < entries.len() ==> part.count((#[trigger] entries[i]).0 as nat) == 0,
    ensures
        part.len() == 0,
{
    assert forall|v: nat| part.count(v) == 0 by {
        if part.count(v) > 0 {
            assert(part.count(v) <= buckets.count(v));
            assert(buckets.contains(v));
        }
    }
    assert(part =~= Multiset::empty());
}

/// The first entries count what is at most the value of the last of them.
pub(crate) proof fn lemma_counted(entries: Seq<(u64, u64)>, buckets: Multiset<nat>, i: int)
    requires
        lists(entries, buckets),
        0 <= i <= entries.len(),
    ensures
        i == 0 ==> counted(entries, i) == 0,
        i > 0 ==> counted(entries, i) == buckets.filter(|y: nat| y <= entries[i - 1].0).len(),
        i == entries.len() ==> counted(entries, i) == buckets.len(),
    decreases i,
{
    if i > 0 {
        let top = entries[i - 1].0 as nat;
        let upto = buckets.filter(|y: nat| y <= entries[i - 1].0);
        lemma_counted(entries, buckets, i - 1);
        lemma_len_split(upto, top);
        let below = upto.filter(|y: nat| y != top);
        if i == 1 {
            lemma_no_entry(entries, buckets, below);
        } else {
            assert(below =~= buckets.filter(|y: nat| y <= entries[i - 2].0)) by {
                assert forall|v: nat| below.count(v) == buckets.filter(
                    |y: nat| y <= entries[i - 2].0,
                ).count(v) by {
                    if buckets.count(v) > 0 {
                        assert(buckets.contains(v));
                        let k = choose|k: int|
                            0 <= k < entries.len() && (#[trigger] entries[k]).0 == v;
                        assert(entries[k].0 == v);
                    }
                }
            }
        }
        if i == entries.len() {
            assert(upto =~= buckets) by {
                assert forall|v: nat| upto.count(v) == buckets.count(v) by {
                    if buckets.count(v) > 0 {
                        assert(buckets.contains(v));
                    }
                }
            }
        }
    } else if entries.len() == 0 {
        lemma_no_entry(entries, buckets, buckets);
    }
}

/// What the levels of the recorded values say of the recorded values.
pub(crate) proof fn lemma_levels_of(recorded: Seq<u64>)
    ensures
        levels_of(recorded).len() == recorded.len(),
        forall|l: nat| #[trigger] levels_of(recorded).count(l) == at_level(recorded, l),
        forall|w: nat| within(levels_of(recorded), w) == #[trigger] covered(recorded, w),
    decreases recorded.len(),
{
    reveal(Seq::filter);
    if recorded.len() == 0 {
        assert forall|w: nat|
            levels_of(recorded).filter(|y: nat| y <= w).len() == #[trigger] covered(
                recorded,
                w,
            ) by {
            assert(levels_of(recorded).filter(|y: nat| y <= w) =~= Multiset::empty());
        }
    } else {
        let before = recorded.drop_last();
        let top = level(recorded.last() as nat);
        lemma_levels_of(before);
        assert forall|l: nat| #[trigger]
            levels_of(recorded).count(l) == at_level(recorded, l) by {
            assert(levels_of(before).count(l) == at_level(before, l));
        }
        assert forall|w: nat|
            levels_of(recorded).filter(|y: nat| y <= w).len() == #[trigger] covered(
                recorded,
                w,
            ) by {
            let keep = |y: nat| y <= w;
            assert(levels_of(before).filter(keep).len() == covered(before, w));
            if top <= w {
                assert(levels_of(recorded).filter(keep) =~= levels_of(before).filter(keep).insert(
                    top,
                ));
            } else {
                assert(levels_of(recorded).filter(keep) =~= levels_of(before).filter(keep));
            }
        }
    }
}

/// A recorded value is counted at its level.
pub(crate) proof fn lemma_level_counts(recorded: Seq<u64>, i: int)
    requires
        0 <= i < recorded.len(),
    ensures
        levels_of(recorded).count(level(recorded[i] as nat)) > 0,
    decreases recorded.len(),
{
    if i < recorded.len() - 1 {
        lemma_level_counts(recorded.drop_last(), i);
    }
}

/// A level that is counted is that of a recorded value.
pub(crate) proof fn lemma_level_comes_from(recorded: Seq<u64>, l: nat)
    requires
        levels_of(recorded).count(l) > 0,
    ensures
        exists|i: int| 0 <= i < recorded.len() && level(#[trigger] recorded[i] as nat) == l,
    decreases recorded.len(),
{
    if recorded.len() > 0 {
        if level(recorded.last() as nat) == l {
            assert(level(recorded[recorded.len() - 1] as nat) == l);
        } else {
            lemma_level_comes_from(recorded.drop_last(), l);
            let i = choose|i: int|
                0 <= i < recorded.len() - 1 && level(#[trigger] recorded.drop_last()[i] as nat) == l;
            assert(level(recorded[i] as nat) == l);
        }
    }
}

/// The counter of a bucket counts what was recorded in it, up to its maximum.
pub(crate) proof fn lemma_kept(recorded: Seq<u64>)
    ensures
        forall|l: nat| #[trigger]
            kept(recorded).count(l) == capped(levels_of(recorded).count(l)),
    decreases recorded.len(),
{
    if recorded.len() > 0 {
        let before = recorded.drop_last();
        let last = level(recorded.last() as nat);
        lemma_kept(before);
        assert(kept(before).count(last) == capped(levels_of(before).count(last)));
        assert forall|l: nat| #[trigger]
            kept(recorded).count(l) == capped(levels_of(recorded).count(l)) by {
            assert(kept(before).count(l) == capped(levels_of(before).count(l)));
        }
    }
}

/// The buckets hold, up to what can be counted, as many entries as were recorded.
pub(crate) proof fn lemma_kept_len(recorded: Seq<u64>)
    ensures
        capped(kept(recorded).len()) == capped(recorded.len()),
        recorded.len() <= u64::MAX ==> kept(recorded) == levels_of(recorded),
{
    let all = levels_of(recorded);
    lemma_levels_of(recorded);
    lemma_kept(recorded);
    if forall|l: nat| #[trigger] all.count(l) <= u64::MAX {
        assert(kept(recorded) =~= all) by {
            assert forall|l: nat| kept(recorded).count(l) == all.count(l) by {
                assert(all.count(l) <= u64::MAX);
            }
        }
    } else {
        let l = choose|l: nat| #[trigger] all.count(l) > u64::MAX;
        assert(kept(recorded).count(l) == u64::MAX);
        assert(kept(recorded).count(l) <= kept(recorded).len());
        assert(all.count(l) <= all.len());
    }
}

/// The walk over the entries of the buckets finds the least bound that `rank` of them keep.
proof fn lemma_reaching_is_ranked(
    entries: Seq<(u64, u64)>,
    buckets: Multiset<nat>,
    rank: nat,
    i: int,
)
    requires
        lists(entries, buckets),
        first_reaching(entries, rank, i),
        0 < rank,
    ensures
        is_ranked(buckets, rank, entries[i].0 as nat),
{
    let p = entries[i].0 as nat;
    lemma_counted(entries, buckets, i);
    lemma_counted(entries, buckets, i + 1);
    assert(buckets.filter(|y: nat| y <= entries[i].0) =~= buckets.filter(|y: nat| y <= p));
    assert forall|w: nat| w < p implies #[trigger] within(buckets, w) < rank by {
        let upto = buckets.filter(|y: nat| y <= w);
        if i == 0 {
            lemma_no_entry(entries, buckets, upto);
        } else {
            assert(counted(entries, (i - 1) + 1) < rank);
            let before = buckets.filter(|y: nat| y <= entries[i - 1].0);
            assert(upto.subset_of(before)) by {
                assert forall|v: nat| upto.count(v) <= before.count(v) by {
                    if upto.count(v) > 0 {
                        assert(buckets.contains(v));
                        let k = choose|k: int|
                            0 <= k < entries.len() && (#[trigger] entries[k]).0 == v;
                        assert(entries[k].0 == v);
                    }
                }
            }
            lemma_subset_len(upto, before);
        }
    }
}

/// The walk over the entries of what was recorded finds the percentile.
pub(crate) proof fn lemma_reaching_is_reading(
    entries: Seq<(u64, u64)>,
    recorded: Seq<u64>,
    quantile: nat,
    i: int,
)
    requires
        lists(entries, kept(recorded)),
        first_reaching(entries, rank(quantile, capped(recorded.len())), i),
        0 < quantile <= NINETY_NINE_NINE,
    ensures
        is_reading(recorded, quantile, entries[i].0 as nat),
{
    let n = capped(recorded.len());
    lemma_levels_of(recorded);
    lemma_kept_len(recorded);
    assert(kept(recorded).count(entries[i].0 as nat) > 0);
    assert(n > 0);
    lemma_rank_bounds(quantile, n);
    lemma_reaching_is_ranked(entries, kept(recorded), rank(quantile, n), i);
    if recorded.len() <= u64::MAX {
        assert forall|w: nat| w < entries[i].0 implies #[trigger] covered(recorded, w) < rank(
            quantile,
            n,
        ) by {
            assert(within(kept(recorded), w) < rank(quantile, n));
        }
    }
}

} // verus!
