//! The bucketed histogram of the `hdrhistogram` crate, seen through what it holds.

use hdrhistogram::Histogram;
use vstd::multiset::Multiset;
use vstd::prelude::*;

use crate::levels::{capped, level, lists, reach};

verus! {

/// Why `hdrhistogram` refuses to make a histogram.
#[verifier::external_type_specification]
#[verifier::external_body]
pub struct ExCreationError(hdrhistogram::CreationError);

/// Why `hdrhistogram` refuses a value.
#[verifier::external_type_specification]
#[verifier::external_body]
pub struct ExRecordError(hdrhistogram::RecordError);

/// A `hdrhistogram::Histogram<u64>` that is only ever made, filled, read and
/// emptied by the methods below.
#[verifier::external_body]
pub struct BucketHistogram {
    inner: Histogram<u64>,
}

/// What a histogram holds: for each of its buckets, the highest value of the
/// bucket, as often as the bucket's counter says.
pub uninterp spec fn contents(h: BucketHistogram) -> Multiset<nat>;

/// The least value that a histogram is too narrow for.
pub uninterp spec fn trackable(h: BucketHistogram) -> nat;

impl BucketHistogram {
    /// `Histogram::new_with_bounds`.
    ///
    /// With a lowest discernible value of 1 and three significant digits it
    /// fails only on a `high` below 2. What it makes is empty, does not resize
    /// itself, and has buckets up to the least `2048 * 2^k` above `high`.
    #[verifier::external_body]
    pub(crate) fn new_with_bounds(low: u64, high: u64, sigfig: u8) -> (r: Result<
        BucketHistogram,
        hdrhistogram::CreationError,
    >)
        requires
            low == 1,
            high < 0x8000_0000_0000_0000,
            sigfig == 3,
        ensures
            r is Ok <==> high >= 2,
            r matches Ok(h) ==> contents(h) == Multiset::<nat>::empty() && trackable(h) == reach(
                high as nat,
            ),
    {
        Histogram::new_with_bounds(low, high, sigfig).map(|inner| BucketHistogram { inner })
    }

    /// `Histogram::record`.
    ///
    /// A value beyond the last bucket is refused and leaves the histogram as it
    /// was. Any other value adds one to the counter of its bucket, unless that
    /// counter stands at its maximum already.
    #[verifier::external_body]
    pub(crate) fn record(&mut self, value: u64) -> (r: Result<(), hdrhistogram::RecordError>)
        ensures
            trackable(*final(self)) == trackable(*old(self)),
            r is Ok <==> value < trackable(*old(self)),
            contents(*final(self)) == (if value < trackable(*old(self)) && contents(
                *old(self),
            ).count(level(value as nat)) < u64::MAX {
                contents(*old(self)).insert(level(value as nat))
            } else {
                contents(*old(self))
            }),
    {
        self.inner.record(value)
    }

    /// `Histogram::len`: how many entries the histogram holds, up to the
    /// maximum of the counter.
    #[verifier::external_body]
    pub(crate) fn len(&self) -> (n: u64)
        ensures
            n == capped(contents(*self).len()),
    {
        self.inner.len()
    }

    /// `Histogram::max`: the greatest entry, or 0 where there is none.
    #[verifier::external_body]
    pub(crate) fn max(&self) -> (m: u64)
        ensures
            contents(*self).len() == 0 ==> m == 0,
            contents(*self).len() > 0 ==> contents(*self).contains(m as nat),
            forall|v: nat| #[trigger] contents(*self).contains(v) ==> v <= m,
    {
        self.inner.max()
    }

    /// `Histogram::reset`: the histogram is empty again, with the buckets it had.
    #[verifier::external_body]
    pub(crate) fn reset(&mut self)
        ensures
            contents(*final(self)) == Multiset::<nat>::empty(),
            trackable(*final(self)) == trackable(*old(self)),
    {
        self.inner.reset()
    }

    /// `Histogram::iter_recorded`: the buckets that hold something, from the
    /// lowest up, each as its highest value and its counter.
    #[verifier::external_body]
    pub(crate) fn iter_recorded(&self) -> (r: Vec<(u64, u64)>)
        ensures
            lists(r@, contents(*self)),
    {
        self.inner.iter_recorded().map(|b| (b.value_iterated_to(), b.count_at_value())).collect()
    }
}

} // verus!
