use ferrox::alloc_track::{
    alloc_step, dealloc_step, start_tracking, stop_tracking, AllocStats, TrackingAllocator,
};

fn stats(alloc_count: u64, dealloc_count: u64, alloc_bytes: u64) -> AllocStats {
    AllocStats { alloc_count, dealloc_count, alloc_bytes }
}

#[test]
fn counts_between_start_and_stop() {
    let mut allocator = TrackingAllocator::new();
    allocator.on_alloc(1000);
    start_tracking(&mut allocator);
    allocator.on_alloc(64);
    allocator.on_dealloc();
    allocator.on_alloc(32);
    assert_eq!(stop_tracking(&mut allocator), stats(2, 1, 96));
    assert!(!allocator.tracking);
}

#[test]
fn counts_nothing_before_start() {
    let mut allocator = TrackingAllocator::new();
    allocator.on_alloc(64);
    allocator.on_dealloc();
    assert_eq!(allocator, TrackingAllocator::new());
    assert_eq!(stop_tracking(&mut allocator), stats(0, 0, 0));
}

#[test]
fn counters_stay_after_stop() {
    let mut allocator = TrackingAllocator::new();
    start_tracking(&mut allocator);
    allocator.on_alloc(8);
    let first = stop_tracking(&mut allocator);
    allocator.on_alloc(8);
    allocator.on_dealloc();
    assert_eq!(stop_tracking(&mut allocator), first);
    assert_eq!(first, stats(1, 0, 8));
}

#[test]
fn start_forgets_what_was_counted() {
    let mut allocator = TrackingAllocator { tracking: true, stats: stats(3, 4, 5) };
    start_tracking(&mut allocator);
    assert_eq!(allocator, TrackingAllocator { tracking: true, stats: stats(0, 0, 0) });
}

#[test]
fn a_run_without_allocations_reports_zero() {
    let mut allocator = TrackingAllocator::new();
    start_tracking(&mut allocator);
    allocator.on_dealloc();
    assert_eq!(stop_tracking(&mut allocator).alloc_count, 0);
    start_tracking(&mut allocator);
    allocator.on_alloc(0);
    assert_eq!(stop_tracking(&mut allocator), stats(1, 0, 0));
}

#[test]
fn events_commute() {
    let mut a = TrackingAllocator { tracking: true, stats: stats(u64::MAX, 1, 2) };
    let mut b = a;
    a.on_alloc(10);
    a.on_dealloc();
    b.on_dealloc();
    b.on_alloc(10);
    assert_eq!(a, b);
}

#[test]
fn counters_wrap_around() {
    let mut allocator = TrackingAllocator {
        tracking: true,
        stats: stats(u64::MAX, u64::MAX, u64::MAX - 1),
    };
    allocator.on_alloc(5);
    allocator.on_dealloc();
    assert_eq!(allocator.stats, stats(0, 0, 3));
}

#[test]
fn steps_are_taken_only_while_tracking() {
    assert_eq!(alloc_step(true, 48), Some(stats(1, 0, 48)));
    assert_eq!(alloc_step(false, 48), None);
    assert_eq!(dealloc_step(true), Some(stats(0, 1, 0)));
    assert_eq!(dealloc_step(false), None);
}

#[test]
fn stats_read_as_a_line() {
    assert_eq!(stats(2, 1, 96).to_text(), "allocs: 2, deallocs: 1, bytes: 96");
    assert_eq!(stats(0, 10, 907).to_text(), "allocs: 0, deallocs: 10, bytes: 907");
    assert_eq!(
        stats(u64::MAX, 0, 1).to_text(),
        "allocs: 18446744073709551615, deallocs: 0, bytes: 1"
    );
}
