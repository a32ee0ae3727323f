//! What an allocator counts while its allocations are being tracked.

use vstd::prelude::*;
use vstd::string::*;

use crate::text::{
    decimal, law_decimal_reads_back, lemma_cancel, lemma_cancel_front,
    push_decimal,
};

verus! {

/// How often memory was allocated and given back, and how many bytes were allocated.
#[derive(Debug, Clone, Copy, PartialEq, Eq, Structural)]
pub struct AllocStats {
    pub alloc_count: u64,
    pub dealloc_count: u64,
    pub alloc_bytes: u64,
}

/// The counters of a tracking allocator, and whether it is counting at present.
///
/// The counters are as wide as those of the hardware, and wrap around.
#[derive(Debug, Clone, Copy, PartialEq, Eq, Structural)]
pub struct TrackingAllocator {
    pub tracking: bool,
    pub stats: AllocStats,
}

/// Something that is asked of an allocator.
pub enum AllocEvent {
    /// Memory of this many bytes is allocated.
    Alloc(usize),
    /// Memory is given back.
    Dealloc,
}

/// No allocations, no deallocations, no bytes.
pub open spec fn nothing() -> AllocStats {
    AllocStats { alloc_count: 0, dealloc_count: 0, alloc_bytes: 0 }
}

/// What an event adds to the counters.
pub open spec fn step(event: AllocEvent) -> AllocStats {
    match event {
        AllocEvent::Alloc(size) => AllocStats {
            alloc_count: 1,
            dealloc_count: 0,
            alloc_bytes: size as u64,
        },
        AllocEvent::Dealloc => AllocStats { alloc_count: 0, dealloc_count: 1, alloc_bytes: 0 },
    }
}

/// A sum as a counter of 64 bits holds it.
pub open spec fn wrapped(n: nat) -> u64 {
    (n % 0x1_0000_0000_0000_0000) as u64
}

/// Counters with what a step adds to them.
pub open spec fn added(stats: AllocStats, step: AllocStats) -> AllocStats {
    AllocStats {
        alloc_count: wrapped(stats.alloc_count as nat + step.alloc_count as nat),
        dealloc_count: wrapped(stats.dealloc_count as nat + step.dealloc_count as nat),
        alloc_bytes: wrapped(stats.alloc_bytes as nat + step.alloc_bytes as nat),
    }
}

/// The allocator after an event: what it counts only while it is tracking.
pub open spec fn after_event(allocator: TrackingAllocator, event: AllocEvent) -> TrackingAllocator {
    if allocator.tracking {
        TrackingAllocator { stats: added(allocator.stats, step(event)), ..allocator }
    } else {
        allocator
    }
}

/// What an allocation of `size` bytes adds to the counters, if they are to change at all.
pub fn alloc_step(tracking: bool, size: usize) -> (r: Option<AllocStats>)
    ensures
        !tracking ==> r is None,
        tracking ==> r == Some(
            AllocStats { alloc_count: 1, dealloc_count: 0, alloc_bytes: size as u64 },
        ),
        r matches Some(counted) ==> counted.alloc_bytes == size,
        r == (if tracking { Some(step(AllocEvent::Alloc(size))) } else { None }),
{
    if tracking {
        Some(AllocStats { alloc_count: 1, dealloc_count: 0, alloc_bytes: size as u64 })
    } else {
        None
    }
}

/// What a deallocation adds to the counters, if they are to change at all.
pub fn dealloc_step(tracking: bool) -> (r: Option<AllocStats>)
    ensures
        !tracking ==> r is None,
        tracking ==> r == Some(AllocStats { alloc_count: 0, dealloc_count: 1, alloc_bytes: 0 }),
        r == (if tracking { Some(step(AllocEvent::Dealloc)) } else { None }),
{
    if tracking {
        Some(AllocStats { alloc_count: 0, dealloc_count: 1, alloc_bytes: 0 })
    } else {
        None
    }
}

impl TrackingAllocator {
    /// An allocator that is not tracking and has counted nothing.
    pub fn new() -> (allocator: TrackingAllocator)
        ensures
            !allocator.tracking,
            allocator.stats == (AllocStats { alloc_count: 0, dealloc_count: 0, alloc_bytes: 0 }),
            allocator == (TrackingAllocator { tracking: false, stats: nothing() }),
    {
        TrackingAllocator {
            tracking: false,
            stats: AllocStats { alloc_count: 0, dealloc_count: 0, alloc_bytes: 0 },
        }
    }

    fn count(&mut self, step: AllocStats)
        ensures
            *final(self) == (TrackingAllocator { stats: added(old(self).stats, step), ..*old(self) }),
    {
        self.stats =
        AllocStats {
            alloc_count: self.stats.alloc_count.wrapping_add(step.alloc_count),
            dealloc_count: self.stats.dealloc_count.wrapping_add(step.dealloc_count),
            alloc_bytes: self.stats.alloc_bytes.wrapping_add(step.alloc_bytes),
        };
    }

    /// Takes note of an allocation of `size` bytes.
    pub fn on_alloc(&mut self, size: usize)
        ensures
            final(self).tracking == old(self).tracking,
            !old(self).tracking ==> final(self).stats == old(self).stats,
            old(self).tracking ==> {
                &&& final(self).stats.alloc_count == (old(self).stats.alloc_count + 1)
                    % 0x1_0000_0000_0000_0000
                &&& final(self).stats.dealloc_count == old(self).stats.dealloc_count
                &&& final(self).stats.alloc_bytes == (old(self).stats.alloc_bytes + size)
                    % 0x1_0000_0000_0000_0000
            },
            *final(self) == after_event(*old(self), AllocEvent::Alloc(size)),
    {
        if let Some(step) = alloc_step(self.tracking, size) {
            self.count(step);
        }
    }

    /// Takes note of a deallocation.
    pub fn on_dealloc(&mut self)
        ensures
            final(self).tracking == old(self).tracking,
            !old(self).tracking ==> final(self).stats == old(self).stats,
            old(self).tracking ==> {
                &&& final(self).stats.alloc_count == old(self).stats.alloc_count
                &&& final(self).stats.dealloc_count == (old(self).stats.dealloc_count + 1)
                    % 0x1_0000_0000_0000_0000
                &&& final(self).stats.alloc_bytes == old(self).stats.alloc_bytes
            },
            *final(self) == after_event(*old(self), AllocEvent::Dealloc),
    {
        if let Some(step) = dealloc_step(self.tracking) {
            self.count(step);
        }
    }
}

/// The allocator after tracking was started, whatever it had counted before.
pub open spec fn started() -> TrackingAllocator {
    TrackingAllocator { tracking: true, stats: nothing() }
}

/// The allocator after tracking was stopped.
pub open spec fn stopped(allocator: TrackingAllocator) -> TrackingAllocator {
    TrackingAllocator { tracking: false, ..allocator }
}

/// Starts to count, from nothing.
pub fn start_tracking(allocator: &mut TrackingAllocator)
    ensures
        final(allocator).tracking,
        final(allocator).stats.alloc_count == 0,
        final(allocator).stats.dealloc_count == 0,
        final(allocator).stats.alloc_bytes == 0,
        *final(allocator) == started(),
{
    allocator.stats.alloc_count = 0;
    allocator.stats.dealloc_count = 0;
    allocator.stats.alloc_bytes = 0;
    allocator.tracking = true;
}

/// Ceases to count, and gives what was counted.
pub fn stop_tracking(allocator: &mut TrackingAllocator) -> (stats: AllocStats)
    ensures
        !final(allocator).tracking,
        final(allocator).stats == old(allocator).stats,
        *final(allocator) == stopped(*old(allocator)),
        stats == old(allocator).stats,
{
    allocator.tracking = false;
    AllocStats {
        alloc_count: allocator.stats.alloc_count,
        dealloc_count: allocator.stats.dealloc_count,
        alloc_bytes: allocator.stats.alloc_bytes,
    }
}

/// The counters as a line of text.
pub open spec fn stats_text(stats: AllocStats) -> Seq<char> {
    "allocs: "@ + decimal(stats.alloc_count as nat) + ", deallocs: "@ + decimal(
        stats.dealloc_count as nat,
    ) + ", bytes: "@ + decimal(stats.alloc_bytes as nat)
}

impl AllocStats {
    /// The counters as a line of text, as in `allocs: 2, deallocs: 1, bytes: 96`.
    pub fn to_text(&self) -> (text: String)
        ensures
            text@ == stats_text(*self),
            text@ == "allocs: "@ + decimal(self.alloc_count as nat) + ", deallocs: "@ + decimal(
                self.dealloc_count as nat,
            ) + ", bytes: "@ + decimal(self.alloc_bytes as nat),
    {
        let mut out = String::new();
        out.append("allocs: ");
        push_decimal(&mut out, self.alloc_count);
        out.append(", deallocs: ");
        push_decimal(&mut out, self.dealloc_count);
        out.append(", bytes: ");
        push_decimal(&mut out, self.alloc_bytes);
        assert(out@ =~= stats_text(*self));
        out
    }
}

/// The allocator after some events, from the first to the last.
pub open spec fn after_events(
    allocator: TrackingAllocator,
    events: Seq<AllocEvent>,
) -> TrackingAllocator
    decreases events.len(),
{
    if events.len() == 0 {
        allocator
    } else {
        after_event(after_events(allocator, events.drop_last()), events.last())
    }
}

/// How many of the events are allocations.
pub open spec fn allocs_in(events: Seq<AllocEvent>) -> nat {
    events.filter(|e: AllocEvent| e is Alloc).len()
}

/// How many of the events are deallocations.
pub open spec fn deallocs_in(events: Seq<AllocEvent>) -> nat {
    events.filter(|e: AllocEvent| e is Dealloc).len()
}

/// How many bytes the events allocate in all.
pub open spec fn bytes_in(events: Seq<AllocEvent>) -> nat
    decreases events.len(),
{
    if events.len() == 0 {
        0
    } else {
        bytes_in(events.drop_last()) + step(events.last()).alloc_bytes as nat
    }
}

proof fn lemma_wrapped_sum(n: nat, m: nat)
    ensures
        wrapped(wrapped(n) as nat + m) == wrapped(n + m),
{
}

proof fn lemma_wrapped_commutes(n: u64, a: u64, b: u64)
    ensures
        wrapped(wrapped(n as nat + a as nat) as nat + b as nat) == wrapped(
            wrapped(n as nat + b as nat) as nat + a as nat,
        ),
{
    lemma_wrapped_sum(n as nat + a as nat, b as nat);
    lemma_wrapped_sum(n as nat + b as nat, a as nat);
    assert(n as nat + a as nat + b as nat == n as nat + b as nat + a as nat);
}

proof fn lemma_added_commutes(stats: AllocStats, a: AllocStats, b: AllocStats)
    ensures
        added(added(stats, a), b) == added(added(stats, b), a),
{
    lemma_wrapped_commutes(stats.alloc_count, a.alloc_count, b.alloc_count);
    lemma_wrapped_commutes(stats.dealloc_count, a.dealloc_count, b.dealloc_count);
    lemma_wrapped_commutes(stats.alloc_bytes, a.alloc_bytes, b.alloc_bytes);
}

/// Counting adds up: after any events, an allocator that is tracking has counted, on top
/// of what it had counted before, their allocations, their deallocations and their bytes.
pub proof fn law_tracked_events_add_up(allocator: TrackingAllocator, events: Seq<AllocEvent>)
    requires
        allocator.tracking,
    ensures
        after_events(allocator, events) == (TrackingAllocator {
            tracking: true,
            stats: AllocStats {
                alloc_count: wrapped(allocator.stats.alloc_count as nat + allocs_in(events)),
                dealloc_count: wrapped(allocator.stats.dealloc_count as nat + deallocs_in(events)),
                alloc_bytes: wrapped(allocator.stats.alloc_bytes as nat + bytes_in(events)),
            },
        }),
    decreases events.len(),
{
    reveal(Seq::filter);
    if events.len() > 0 {
        let before = events.drop_last();
        let last = step(events.last());
        law_tracked_events_add_up(allocator, before);
        lemma_wrapped_sum(
            allocator.stats.alloc_count as nat + allocs_in(before),
            last.alloc_count as nat,
        );
        lemma_wrapped_sum(
            allocator.stats.dealloc_count as nat + deallocs_in(before),
            last.dealloc_count as nat,
        );
        lemma_wrapped_sum(
            allocator.stats.alloc_bytes as nat + bytes_in(before),
            last.alloc_bytes as nat,
        );
    }
}

/// Two events count the same whichever comes first.
pub proof fn law_events_commute(allocator: TrackingAllocator, a: AllocEvent, b: AllocEvent)
    ensures
        after_event(after_event(allocator, a), b) == after_event(after_event(allocator, b), a),
{
    lemma_added_commutes(allocator.stats, step(a), step(b));
}

/// What `stop_tracking` gives is what happened since `start_tracking`, and nothing else.
pub proof fn law_stop_reports_since_start(events: Seq<AllocEvent>)
    ensures
        after_events(started(), events).stats == (AllocStats {
            alloc_count: wrapped(allocs_in(events)),
            dealloc_count: wrapped(deallocs_in(events)),
            alloc_bytes: wrapped(bytes_in(events)),
        }),
{
    law_tracked_events_add_up(started(), events);
}

/// A run without allocations is reported as one, and no other run is, as long as its
/// allocations can be counted.
pub proof fn law_zero_means_no_allocation(events: Seq<AllocEvent>)
    requires
        allocs_in(events) < 0x1_0000_0000_0000_0000,
    ensures
        after_events(started(), events).stats.alloc_count == 0 <==> forall|i: int|
            0 <= i < events.len() ==> !(#[trigger] events[i] is Alloc),
{
    law_stop_reports_since_start(events);
    let allocates = |e: AllocEvent| e is Alloc;
    if allocs_in(events) > 0 {
        events.lemma_filter_pred(allocates, 0);
        let found = events.filter(allocates)[0];
        assert(events.filter(allocates).contains(found));
        events.lemma_filter_contains_rev(allocates, found);
    }
    assert forall|i: int| 0 <= i < events.len() && allocs_in(events) == 0 implies !(
    #[trigger] events[i] is Alloc) by {
        if events[i] is Alloc {
            events.lemma_filter_contains(allocates, i);
        }
    }
}

/// An allocator that is not tracking counts nothing, whatever is asked of it.
pub proof fn law_untracked_events_do_not_count(
    allocator: TrackingAllocator,
    events: Seq<AllocEvent>,
)
    requires
        !allocator.tracking,
    ensures
        after_events(allocator, events) == allocator,
    decreases events.len(),
{
    if events.len() > 0 {
        law_untracked_events_do_not_count(allocator, events.drop_last());
    }
}

/// Once stopped, an allocator goes on reporting what it had counted by then: to stop it
/// again, with any events in between, gives the same counters.
pub proof fn law_stopped_counters_stay(allocator: TrackingAllocator, events: Seq<AllocEvent>)
    ensures
        after_events(stopped(allocator), events) == stopped(allocator),
        stopped(after_events(stopped(allocator), events)).stats == allocator.stats,
{
    law_untracked_events_do_not_count(stopped(allocator), events);
}

/// One event, in plain numbers: while the allocator is tracking, an allocation of any size
/// adds one allocation and its own size, and a deallocation adds one deallocation, each
/// modulo `2^64`. Nothing else changes, and nothing at all while it is not tracking.
pub proof fn law_each_event_counts_itself(allocator: TrackingAllocator, size: usize)
    ensures
        ({
            let before = allocator.stats;
            let after = after_event(allocator, AllocEvent::Alloc(size));
            &&& after.tracking == allocator.tracking
            &&& allocator.tracking ==> after.stats.alloc_count == (before.alloc_count + 1)
                % 0x1_0000_0000_0000_0000
            &&& allocator.tracking ==> after.stats.alloc_bytes == (before.alloc_bytes + size)
                % 0x1_0000_0000_0000_0000
            &&& after.stats.dealloc_count == before.dealloc_count
            &&& !allocator.tracking ==> after == allocator
        }),
        ({
            let before = allocator.stats;
            let after = after_event(allocator, AllocEvent::Dealloc);
            &&& after.tracking == allocator.tracking
            &&& allocator.tracking ==> after.stats.dealloc_count == (before.dealloc_count + 1)
                % 0x1_0000_0000_0000_0000
            &&& after.stats.alloc_count == before.alloc_count
            &&& after.stats.alloc_bytes == before.alloc_bytes
            &&& !allocator.tracking ==> after == allocator
        }),
{
}

/// A whole run: after any events, the bytes have grown by the sum of the sizes that the
/// allocations themselves asked for, and the other counters by how many of the events were
/// allocations and deallocations, each modulo `2^64`. From a start they grow from zero.
pub proof fn law_run_adds_up_the_sizes(states: Seq<TrackingAllocator>, events: Seq<AllocEvent>)
    requires
        states.len() == events.len() + 1,
        states[0].tracking,
        forall|i: int|
            0 <= i < events.len() ==> states[i + 1] == after_event(
                states[i],
                #[trigger] events[i],
            ),
    ensures
        states.last().tracking,
        states.last().stats.alloc_count == (states[0].stats.alloc_count + events.filter(
            |e: AllocEvent| e is Alloc,
        ).len()) % 0x1_0000_0000_0000_0000,
        states.last().stats.dealloc_count == (states[0].stats.dealloc_count + events.filter(
            |e: AllocEvent| e is Dealloc,
        ).len()) % 0x1_0000_0000_0000_0000,
        states.last().stats.alloc_bytes == (states[0].stats.alloc_bytes + events.fold_left(
            0int,
            |sum: int, e: AllocEvent|
                match e {
                    AllocEvent::Alloc(size) => sum + size,
                    AllocEvent::Dealloc => sum,
                },
        )) % 0x1_0000_0000_0000_0000,
{
    lemma_run_is_after_events(states, events);
    law_tracked_events_add_up(states[0], events);
    lemma_bytes_are_sizes(events);
}

proof fn lemma_run_is_after_events(states: Seq<TrackingAllocator>, events: Seq<AllocEvent>)
    requires
        states.len() == events.len() + 1,
        forall|i: int|
            0 <= i < events.len() ==> states[i + 1] == after_event(
                states[i],
                #[trigger] events[i],
            ),
    ensures
        states.last() == after_events(states[0], events),
    decreases events.len(),
{
    if events.len() > 0 {
        let earlier = events.drop_last();
        let before = states.drop_last();
        assert forall|i: int| 0 <= i < earlier.len() implies before[i + 1] == after_event(
            before[i],
            #[trigger] earlier[i],
        ) by {
            assert(earlier[i] == events[i]);
        }
        lemma_run_is_after_events(before, earlier);
        assert(states.last() == after_event(before.last(), events[events.len() - 1]));
    }
}

proof fn lemma_bytes_are_sizes(events: Seq<AllocEvent>)
    ensures
        bytes_in(events) == events.fold_left(
            0int,
            |sum: int, e: AllocEvent|
                match e {
                    AllocEvent::Alloc(size) => sum + size,
                    AllocEvent::Dealloc => sum,
                },
        ),
    decreases events.len(),
{
    reveal_with_fuel(Seq::fold_left, 2);
    if events.len() > 0 {
        lemma_bytes_are_sizes(events.drop_last());
    }
}

/// A start leaves counters at zero, whatever was counted before, and a stop leaves them as
/// they were.
pub proof fn law_start_is_zero_and_stop_keeps(allocator: TrackingAllocator)
    ensures
        started().tracking,
        started().stats.alloc_count == 0,
        started().stats.dealloc_count == 0,
        started().stats.alloc_bytes == 0,
        !stopped(allocator).tracking,
        stopped(allocator).stats == allocator.stats,
{
}

/// The line of text reads back: after each of its labels stand digits and nothing else, and
/// they evaluate in base ten to the counter that the label names.
pub proof fn law_stats_text_reads_back(stats: AllocStats) -> (shown: (
    Seq<char>,
    Seq<char>,
    Seq<char>,
))
    ensures
        stats_text(stats) == "allocs: "@ + shown.0 + ", deallocs: "@ + shown.1 + ", bytes: "@
            + shown.2,
        shown.0.len() > 0,
        shown.1.len() > 0,
        shown.2.len() > 0,
        forall|i: int| 0 <= i < shown.0.len() ==> '0' <= #[trigger] shown.0[i] <= '9',
        forall|i: int| 0 <= i < shown.1.len() ==> '0' <= #[trigger] shown.1[i] <= '9',
        forall|i: int| 0 <= i < shown.2.len() ==> '0' <= #[trigger] shown.2[i] <= '9',
        shown.0.len() > 1 ==> shown.0[0] != '0',
        shown.1.len() > 1 ==> shown.1[0] != '0',
        shown.2.len() > 1 ==> shown.2[0] != '0',
        shown.0.fold_left(0int, |v: int, c: char| 10 * v + (c as int - '0' as int))
            == stats.alloc_count,
        shown.1.fold_left(0int, |v: int, c: char| 10 * v + (c as int - '0' as int))
            == stats.dealloc_count,
        shown.2.fold_left(0int, |v: int, c: char| 10 * v + (c as int - '0' as int))
            == stats.alloc_bytes,
{
    law_decimal_reads_back(stats.alloc_count as nat);
    law_decimal_reads_back(stats.dealloc_count as nat);
    law_decimal_reads_back(stats.alloc_bytes as nat);
    (
        decimal(stats.alloc_count as nat),
        decimal(stats.dealloc_count as nat),
        decimal(stats.alloc_bytes as nat),
    )
}

/// Counters that differ in anything have different lines of text.
pub proof fn law_stats_text_is_faithful(a: AllocStats, b: AllocStats)
    requires
        stats_text(a) == stats_text(b),
    ensures
        a == b,
{
    let (a0, a1, a2) = law_stats_text_reads_back(a);
    let (b0, b1, b2) = law_stats_text_reads_back(b);
    reveal_strlit(", deallocs: ");
    reveal_strlit(", bytes: ");
    let first = "allocs: "@;
    let second = ", deallocs: "@;
    let third = ", bytes: "@;
    assert(stats_text(a) =~= first + a0 + (second + a1 + third + a2));
    assert(stats_text(b) =~= first + b0 + (second + b1 + third + b2));
    lemma_cancel(first, a0, b0, second + a1 + third + a2, second + b1 + third + b2, ',');
    assert(second + a1 + third + a2 =~= second + a1 + (third + a2));
    assert(second + b1 + third + b2 =~= second + b1 + (third + b2));
    lemma_cancel(second, a1, b1, third + a2, third + b2, ',');
    lemma_cancel_front(third, a2, b2);
}

} // verus!
