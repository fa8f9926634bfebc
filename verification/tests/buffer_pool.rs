//! The buffer pool, driven by a clock that each test moves on by hand.

use std::collections::VecDeque;
use std::rc::Rc;

use candle_metal_kernels::buffer::Buffer;
use candle_metal_kernels::buffer_pool::{
    BufferPool, GpuClock, PooledBuffer, ResidualExceeded, DEFAULT_FREE_BUDGET_BYTES,
};

/// Hands out buffers that no other buffer stands for.
struct Dev {
    next: usize,
}

impl Dev {
    fn new() -> Dev {
        Dev { next: 1 }
    }

    fn new_buffer(&mut self, size: usize) -> Buffer {
        let b = Buffer::new(self.next, size, self.next * 0x1_0000_0000);
        self.next += 1;
        b
    }
}

fn pool_with_clock() -> (BufferPool, GpuClock) {
    (BufferPool::new(), GpuClock::new())
}

/// Closes the open epoch, reports it finished, and sweeps.
fn gpu_completes(pool: &mut BufferPool, clock: &mut GpuClock) {
    let epoch = clock.commit_epoch();
    clock.mark_completed(epoch);
    pool.drain_completed(clock);
}

/// Reuses a buffer of the pool, or makes one and hands it to the pool.
fn alloc_one(pool: &mut BufferPool, dev: &mut Dev, size: usize) -> PooledBuffer {
    if let Some(b) = pool.acquire(size) {
        return b;
    }
    let raw = dev.new_buffer(size);
    pool.adopt(raw, size)
}

fn release_and_complete(pool: &mut BufferPool, clock: &mut GpuClock, b: PooledBuffer) {
    pool.release(b, clock);
    gpu_completes(pool, clock);
}

/// As [`alloc_one`], with the residual asked before anything new is made.
fn alloc_checked(
    pool: &mut BufferPool,
    dev: &mut Dev,
    size: usize,
) -> Result<PooledBuffer, ResidualExceeded> {
    if let Some(b) = pool.acquire(size) {
        return Ok(b);
    }
    pool.check_residual(size)?;
    let raw = dev.new_buffer(size);
    Ok(pool.adopt(raw, size))
}

/// Gives up one of the owners of a buffer, and releases it with the last of them.
fn let_go(pool: &mut BufferPool, clock: &GpuClock, owner: Rc<PooledBuffer>) {
    if let Some(b) = Rc::into_inner(owner) {
        pool.release(b, clock);
    }
}

#[test]
fn residual_admits_inside_the_cap_and_refuses_past_it() {
    let mut dev = Dev::new();
    let (mut pool, _clock) = pool_with_clock();
    pool.set_residual_cap(1024 * 1024, 0);

    let a = alloc_checked(&mut pool, &mut dev, 256 * 1024).expect("inside the cap must be admitted");
    assert_eq!(pool.unplanned_bytes(), Some(256 * 1024));

    let b = alloc_checked(&mut pool, &mut dev, 768 * 1024).expect("exactly at the cap fits");
    assert_eq!(pool.unplanned_bytes(), Some(1024 * 1024));

    let err = alloc_checked(&mut pool, &mut dev, 1).expect_err("past the cap must be refused");
    assert_eq!(err.limit, 1024 * 1024);
    assert_eq!(err.unplanned, 1024 * 1024);
    assert_eq!(err.requested, 1);
    drop((a, b));
}

#[test]
fn no_cap_installed_means_no_refusal() {
    let mut dev = Dev::new();
    let (mut pool, _clock) = pool_with_clock();
    assert_eq!(pool.unplanned_bytes(), None);
    for _ in 0..8 {
        alloc_checked(&mut pool, &mut dev, 1024 * 1024).expect("uncapped pool never refuses");
    }
    assert!(pool.check_residual(usize::MAX / 2).is_ok());
}

#[test]
fn planned_bytes_are_subtracted_so_the_weights_are_not_refused() {
    let mut dev = Dev::new();
    let (mut pool, _clock) = pool_with_clock();
    let planned = 4 * 1024 * 1024;
    pool.set_residual_cap(1024 * 1024, planned);

    let mut held = Vec::new();
    for _ in 0..4 {
        held.push(
            alloc_checked(&mut pool, &mut dev, 1024 * 1024)
                .expect("a planned allocation must never be refused"),
        );
    }
    assert_eq!(pool.unplanned_bytes(), Some(0));
    alloc_checked(&mut pool, &mut dev, 1024 * 1024).expect("the first unplanned MiB fits");
    alloc_checked(&mut pool, &mut dev, 1).expect_err("the residual still bounds the rest");
}

#[test]
fn pending_and_free_bytes_are_counted_not_only_live() {
    let mut dev = Dev::new();
    let (mut pool, mut clock) = pool_with_clock();
    pool.set_residual_cap(4 * 1024 * 1024, 0);

    let b = alloc_checked(&mut pool, &mut dev, 2 * 1024 * 1024).expect("first fits");
    pool.release(b, &clock);
    assert_eq!(pool.unplanned_bytes(), Some(2 * 1024 * 1024));

    gpu_completes(&mut pool, &mut clock);
    assert_eq!(pool.unplanned_bytes(), Some(2 * 1024 * 1024));
}

#[test]
fn a_pool_hit_is_not_subject_to_the_cap() {
    let mut dev = Dev::new();
    let (mut pool, mut clock) = pool_with_clock();
    pool.set_residual_cap(2 * 1024 * 1024, 0);

    let b = alloc_checked(&mut pool, &mut dev, 1024 * 1024).expect("first fits");
    release_and_complete(&mut pool, &mut clock, b);

    pool.set_residual_cap(0, 0);
    assert!(pool.check_residual(1).is_err());
    assert!(alloc_checked(&mut pool, &mut dev, 1024 * 1024).is_ok());
}

#[test]
fn refusal_message_names_the_residual_and_the_overrun() {
    let (mut pool, _clock) = pool_with_clock();
    pool.set_residual_cap(1000, 0);
    let err = pool.check_residual(2000).expect_err("must refuse");
    let msg = err.message();
    assert!(msg.contains("residual exhausted"));
    assert!(msg.contains("§9.5k"));
    assert!(msg.contains("§6.3b"));
}

#[test]
fn empty_pool_misses() {
    let mut pool = BufferPool::new();
    assert!(pool.acquire(128).is_none());
    let c = pool.counters();
    assert_eq!(c.lookups, 1);
    assert_eq!(c.hits, 0);
    assert_eq!(c.buckets_probed, 2);
}

#[test]
fn occupancy_of_empty_pool_is_zero() {
    let mut pool = BufferPool::new();
    let occ = pool.occupancy();
    assert_eq!(occ.free_buckets, 0);
    assert_eq!(occ.total_buffers(), 0);
}

#[test]
fn drop_parks_the_buffer_until_the_gpu_is_done() {
    let mut dev = Dev::new();
    let (mut pool, mut clock) = pool_with_clock();

    let b = alloc_one(&mut pool, &mut dev, 1024);
    assert_eq!(pool.occupancy().free_buffers, 0);
    assert_eq!(pool.counters().releases, 0);

    pool.release(b, &clock);

    assert_eq!(pool.counters().releases, 1);
    assert_eq!(pool.counters().deferred, 1);
    assert_eq!(pool.occupancy().free_buffers, 0);
    assert_eq!(pool.occupancy().pending_buffers, 1);
    assert_eq!(pool.occupancy().live_buffers, 0);

    gpu_completes(&mut pool, &mut clock);

    assert_eq!(pool.occupancy().free_buffers, 1);
    assert_eq!(pool.occupancy().pending_buffers, 0);
    assert_eq!(pool.counters().drained, 1);
}

#[test]
fn in_flight_buffer_is_not_handed_out_again() {
    let mut dev = Dev::new();
    let (mut pool, mut clock) = pool_with_clock();

    let first = alloc_one(&mut pool, &mut dev, 4096);
    pool.release(first, &clock);

    assert!(pool.acquire(4096).is_none());

    gpu_completes(&mut pool, &mut clock);
    assert!(pool.acquire(4096).is_some());
}

#[test]
fn release_is_deferred_even_when_the_gpu_is_idle() {
    let mut dev = Dev::new();
    let (mut pool, mut clock) = pool_with_clock();

    let epoch = clock.commit_epoch();
    clock.mark_completed(epoch);
    assert!(clock.is_complete(epoch));

    let b = alloc_one(&mut pool, &mut dev, 1024);
    pool.release(b, &clock);

    assert_eq!(pool.counters().deferred, 1);
    assert_eq!(pool.occupancy().free_buffers, 0);

    gpu_completes(&mut pool, &mut clock);
    assert_eq!(pool.occupancy().free_buffers, 1);
}

#[test]
fn released_buffer_is_reused() {
    let mut dev = Dev::new();
    let (mut pool, mut clock) = pool_with_clock();

    let first = alloc_one(&mut pool, &mut dev, 2048);
    let addr = first.buffer().raw_id();
    release_and_complete(&mut pool, &mut clock, first);

    let second = alloc_one(&mut pool, &mut dev, 2048);
    assert_eq!(second.buffer().raw_id(), addr);
    assert_eq!(pool.counters().allocations, 1);
    assert_eq!(pool.counters().hits, 1);
}

#[test]
fn earlier_epochs_are_freed_by_later_completions() {
    let mut dev = Dev::new();
    let (mut pool, mut clock) = pool_with_clock();

    let b = alloc_one(&mut pool, &mut dev, 1024);
    pool.release(b, &clock);
    let e0 = clock.commit_epoch();

    let b = alloc_one(&mut pool, &mut dev, 2048);
    pool.release(b, &clock);
    let e1 = clock.commit_epoch();

    assert_eq!(pool.occupancy().pending_buffers, 2);

    clock.mark_completed(e0);
    pool.drain_completed(&clock);
    assert_eq!(pool.occupancy().free_buffers, 1);
    assert_eq!(pool.occupancy().pending_buffers, 1);

    clock.mark_completed(e1);
    pool.drain_completed(&clock);
    assert_eq!(pool.occupancy().free_buffers, 2);
    assert_eq!(pool.occupancy().pending_buffers, 0);
}

#[test]
fn reclamation_needs_no_caller_cooperation() {
    let mut dev = Dev::new();
    let (mut pool, mut clock) = pool_with_clock();

    let b = Rc::new(alloc_one(&mut pool, &mut dev, 512));
    let clone = b.clone();

    let_go(&mut pool, &clock, clone);
    assert_eq!(pool.counters().releases, 0);

    let_go(&mut pool, &clock, b);
    assert_eq!(pool.counters().releases, 1);

    gpu_completes(&mut pool, &mut clock);
    assert_eq!(pool.occupancy().free_buffers, 1);
}

#[test]
fn larger_buffer_satisfies_smaller_request() {
    let mut dev = Dev::new();
    let (mut pool, mut clock) = pool_with_clock();

    let b = alloc_one(&mut pool, &mut dev, 4096);
    release_and_complete(&mut pool, &mut clock, b);
    let got = pool.acquire(1024).expect("larger buffer should satisfy");
    assert_eq!(got.size(), 4096);
    assert_eq!(pool.counters().allocations, 1);
}

#[test]
fn smallest_sufficient_buffer_wins() {
    let mut dev = Dev::new();
    let (mut pool, mut clock) = pool_with_clock();

    let mut held = Vec::new();
    for s in [8192, 2048, 4096] {
        held.push(alloc_one(&mut pool, &mut dev, s));
    }
    for b in held {
        pool.release(b, &clock);
    }
    gpu_completes(&mut pool, &mut clock);
    assert_eq!(pool.occupancy().free_buckets, 3);

    let got = pool.acquire(1024).expect("something should satisfy");
    assert_eq!(got.size(), 2048);
}

#[test]
fn exact_match_costs_one_probe() {
    let mut dev = Dev::new();
    let (mut pool, mut clock) = pool_with_clock();

    for size in [512, 1024, 2048, 4096, 8192] {
        let b = alloc_one(&mut pool, &mut dev, size);
    pool.release(b, &clock);
    }
    gpu_completes(&mut pool, &mut clock);
    pool.reset_counters();

    let got = pool.acquire(2048).expect("exact match exists");
    assert_eq!(got.size(), 2048);
    assert_eq!(pool.counters().buckets_probed, 1);
}

#[test]
fn emptied_buckets_do_not_accumulate() {
    let mut dev = Dev::new();
    let (mut pool, mut clock) = pool_with_clock();

    for i in 0..64 {
        let size = 1024 + i * 128;
        let b = alloc_one(&mut pool, &mut dev, size);
        release_and_complete(&mut pool, &mut clock, b);
        let b = pool.acquire(size).expect("just released");
        std::mem::forget(b);
    }

    assert_eq!(pool.occupancy().free_buckets, 0);
}

#[test]
fn lookup_cost_is_bounded_regardless_of_pool_size() {
    let mut dev = Dev::new();
    let (mut pool, mut clock) = pool_with_clock();

    let mut held = Vec::new();
    for i in 0..256 {
        held.push(alloc_one(&mut pool, &mut dev, 1024 + i * 128));
    }
    for b in held {
        pool.release(b, &clock);
    }
    gpu_completes(&mut pool, &mut clock);
    assert_eq!(pool.occupancy().free_buckets, 256);

    pool.reset_counters();
    for i in 0..256 {
        let b = pool.acquire(1024 + i * 128).expect("exact match exists");
        std::mem::forget(b);
    }
    let c = pool.counters();
    assert_eq!(c.lookups, 256);
    assert_eq!(c.buckets_probed, 256);
}

#[test]
fn trim_frees_only_what_is_free() {
    let mut dev = Dev::new();
    let (mut pool, mut clock) = pool_with_clock();

    let live = alloc_one(&mut pool, &mut dev, 1024);
    let b = alloc_one(&mut pool, &mut dev, 2048);
    release_and_complete(&mut pool, &mut clock, b);
    assert_eq!(pool.occupancy().free_buffers, 1);

    let freed = pool.trim(&clock).freed;
    assert_eq!(freed.len(), 1);
    assert_eq!(pool.occupancy().free_buffers, 0);
    assert_eq!(pool.occupancy().live_buffers, 1);

    release_and_complete(&mut pool, &mut clock, live);
    assert_eq!(pool.occupancy().free_buffers, 1);
}

#[test]
fn trim_leaves_buffers_the_gpu_may_still_be_using() {
    let mut dev = Dev::new();
    let (mut pool, mut clock) = pool_with_clock();

    let b = alloc_one(&mut pool, &mut dev, 2048);
    pool.release(b, &clock);
    assert_eq!(pool.occupancy().pending_buffers, 1);

    let freed = pool.trim(&clock).freed;
    assert!(freed.is_empty());
    assert_eq!(pool.occupancy().pending_buffers, 1);

    let epoch = clock.commit_epoch();
    clock.mark_completed(epoch);
    assert_eq!(pool.trim(&clock).freed.len(), 1);
}

#[test]
fn unpooled_handle_does_not_return_to_any_pool() {
    let mut dev = Dev::new();
    let mut pool = BufferPool::new();

    let clock = GpuClock::new();
    let raw = dev.new_buffer(1024);
    let b = PooledBuffer::unpooled(raw, 1024);
    pool.release(b, &clock);

    assert_eq!(pool.occupancy().free_buffers, 0);
    assert_eq!(pool.counters().releases, 0);
}

#[test]
fn a_workload_that_never_reuses_a_size_does_not_grow_the_pool() {
    let mut dev = Dev::new();
    let (mut pool, mut clock) = pool_with_clock();
    pool.set_free_budget(4 * 1024 * 1024);

    for i in 0..512usize {
        let size = 64 * 1024 + i * 1024;
        let b = alloc_one(&mut pool, &mut dev, size);
        release_and_complete(&mut pool, &mut clock, b);
    }

    let occ = pool.occupancy();
    assert!(occ.free_bytes <= 4 * 1024 * 1024);
    assert!(pool.counters().evicted > 0);
}

#[test]
fn a_reusing_workload_never_evicts() {
    let mut dev = Dev::new();
    let (mut pool, mut clock) = pool_with_clock();
    pool.set_free_budget(1024 * 1024);

    for _ in 0..256 {
        let b = alloc_one(&mut pool, &mut dev, 4096);
        release_and_complete(&mut pool, &mut clock, b);
    }

    let c = pool.counters();
    assert_eq!(c.evicted, 0);
    assert_eq!(c.allocations, 1);
    assert_eq!(c.hits, 255);
}

#[test]
fn fixed_shape_work_allocates_the_window_then_stops() {
    let mut dev = Dev::new();
    let (mut pool, mut clock) = pool_with_clock();

    const DEPTH: usize = 8;

    let mut in_flight: VecDeque<PooledBuffer> = VecDeque::new();
    for _ in 0..DEPTH {
        in_flight.push_back(alloc_one(&mut pool, &mut dev, 4096));
    }

    for _ in 0..1000 {
        let oldest = in_flight.pop_front().expect("window is full");
        pool.release(oldest, &clock);
        gpu_completes(&mut pool, &mut clock);
        in_flight.push_back(alloc_one(&mut pool, &mut dev, 4096));
    }

    let c = pool.counters();
    assert_eq!(c.allocations, DEPTH as u64);
    assert_eq!(c.hits, 1000);
}

#[test]
fn eviction_takes_the_oldest_free_buffer_first() {
    let mut dev = Dev::new();
    let (mut pool, mut clock) = pool_with_clock();

    let held = vec![
        alloc_one(&mut pool, &mut dev, 4096),
        alloc_one(&mut pool, &mut dev, 8192),
        alloc_one(&mut pool, &mut dev, 12288),
    ];
    for b in held {
        pool.release(b, &clock);
    }

    pool.set_free_budget(16384);
    gpu_completes(&mut pool, &mut clock);

    assert!(pool.occupancy().free_bytes <= 16384);
    assert!(pool.acquire(12288).is_some());
    assert!(pool.counters().evicted > 0);
}

#[test]
fn buffer_outliving_its_pool_drops_cleanly() {
    let mut dev = Dev::new();
    let (mut pool, _clock) = pool_with_clock();
    let b = alloc_one(&mut pool, &mut dev, 1024);

    drop(pool);
    assert_eq!(b.buffer().length(), 1024);
    drop(b);
}

#[test]
fn a_fresh_clock_has_completed_nothing() {
    let mut clock = GpuClock::new();
    assert_eq!(clock.current_epoch(), 0);
    assert_eq!(clock.completed_count(), 0);
    assert!(!clock.is_complete(0));

    clock.mark_completed(0);
    assert!(clock.is_complete(0));
}

#[test]
fn completion_never_goes_backwards() {
    let mut clock = GpuClock::new();
    clock.mark_completed(5);
    clock.mark_completed(2);
    assert_eq!(clock.completed_count(), 6);
    assert!(clock.is_complete(5));
}

/// The exact text of a refusal: how far over, what no planner holds, and against what.
#[test]
fn a_refusal_reads_as_expected() {
    let refusal = ResidualExceeded {
        unplanned: 1_500_000_000,
        requested: 600_000_000,
        limit: 2_000_000_000,
        planned: 6_254_000_000,
    };
    let expected = format!(
        "memory residual exhausted: {:.2} GB unplanned + {:.2} GB requested \
         > {:.2} GB residual (DESIGN.md §9.5k). {:.2} GB of predicted \
         classes are excluded from the figure. Either an allocation path is \
         growing without bound (§9.5f candidate 2 -- §6.3b's stranding is \
         the measured instance) or admission was given a configuration the \
         run then left behind.",
        1.5, 0.6, 2.0, 6.254
    );
    assert_eq!(refusal.message(), expected);
}

/// Every buffer is lent, waiting or free, and none is in two places.
#[test]
fn buffers_are_neither_lost_nor_doubled() {
    let mut dev = Dev::new();
    let (mut pool, mut clock) = pool_with_clock();
    let mut held = VecDeque::new();
    for round in 0..200usize {
        held.push_back(alloc_one(&mut pool, &mut dev, 256 * (1 + round % 7)));
        if round % 3 == 0 {
            let b = held.pop_front().unwrap();
            pool.release(b, &clock);
        }
        if round % 5 == 0 {
            gpu_completes(&mut pool, &mut clock);
        }
        let occ = pool.occupancy();
        assert_eq!(occ.total_buffers() as u64, pool.counters().allocations);
        assert_eq!(occ.live_buffers, held.len());
    }
    let mut ids: Vec<usize> = held.iter().map(|b| b.buffer().raw_id()).collect();
    ids.sort();
    ids.dedup();
    assert_eq!(ids.len(), held.len());
}

/// The oldest free buffers go first, and are handed out so that others can be told.
#[test]
fn evicted_buffers_are_handed_out() {
    let mut dev = Dev::new();
    let (mut pool, mut clock) = pool_with_clock();
    let a = alloc_one(&mut pool, &mut dev, 4096);
    let b = alloc_one(&mut pool, &mut dev, 8192);
    let first = a.buffer().raw_id();
    pool.release(a, &clock);
    pool.release(b, &clock);
    gpu_completes(&mut pool, &mut clock);
    let out = pool.set_free_budget(8192);
    assert_eq!(out.len(), 1);
    assert_eq!(out[0].raw_id(), first);
    assert_eq!(pool.counters().evicted, 1);
    assert_eq!(pool.occupancy().free_bytes, 8192);
}

/// Taking the cap away lets everything through again.
#[test]
fn a_cleared_cap_refuses_nothing() {
    let (mut pool, _clock) = pool_with_clock();
    pool.set_residual_cap(10, 0);
    assert!(pool.check_residual(11).is_err());
    pool.clear_residual_cap();
    assert!(pool.check_residual(11).is_ok());
    assert_eq!(pool.unplanned_bytes(), None);
}

#[test]
fn a_new_pool_keeps_a_quarter_of_a_gibibyte_free() {
    assert_eq!(DEFAULT_FREE_BUDGET_BYTES, 256 * 1024 * 1024);
    let pool = BufferPool::default();
    assert_eq!((pool.frees(), pool.occupancy().total_buffers()), (0, 0));
    assert!(pool.unplanned_bytes().is_none());
}

#[test]
fn a_reused_buffer_is_not_the_oldest() {
    let mut dev = Dev::new();
    let (mut pool, mut clock) = pool_with_clock();

    let small = alloc_one(&mut pool, &mut dev, 4096);
    let large = alloc_one(&mut pool, &mut dev, 8192);
    release_and_complete(&mut pool, &mut clock, small);
    release_and_complete(&mut pool, &mut clock, large);

    let again = pool.acquire(4096).expect("a free buffer of that size");
    assert_eq!(again.size(), 4096);
    release_and_complete(&mut pool, &mut clock, again);

    let evicted = pool.set_free_budget(8192);
    assert_eq!(evicted.len(), 1);
    assert_eq!(evicted[0].length(), 8192);
    assert_eq!(pool.occupancy().free_bytes, 4096);
    assert!(pool.acquire(8192).is_none());
    assert!(pool.acquire(4096).is_some());
}

#[test]
fn the_oldest_of_one_size_is_evicted() {
    let mut dev = Dev::new();
    let (mut pool, mut clock) = pool_with_clock();

    let first = alloc_one(&mut pool, &mut dev, 4096);
    let second = alloc_one(&mut pool, &mut dev, 4096);
    let third = alloc_one(&mut pool, &mut dev, 4096);
    let (a, b, c) = (*first.buffer(), *second.buffer(), *third.buffer());
    release_and_complete(&mut pool, &mut clock, second);
    release_and_complete(&mut pool, &mut clock, first);
    release_and_complete(&mut pool, &mut clock, third);

    assert_eq!(pool.set_free_budget(8192), vec![b]);
    // The buffer that became free last is handed out first.
    let lent = pool.acquire(4096).expect("a free buffer of that size");
    assert_eq!(*lent.buffer(), c);
    assert_eq!(pool.set_free_budget(0), vec![a]);
}

#[test]
fn eviction_goes_by_age_and_stops_in_time() {
    let mut dev = Dev::new();
    let (mut pool, mut clock) = pool_with_clock();

    let held: Vec<PooledBuffer> =
        [1024usize, 8192, 2048, 4096].iter().map(|&n| alloc_one(&mut pool, &mut dev, n)).collect();
    for b in held {
        release_and_complete(&mut pool, &mut clock, b);
    }
    // Twice out and back, so two of the entries that remember 1024 bytes are out of date.
    for _ in 0..2 {
        let b = pool.acquire(1024).expect("a free buffer of that size");
        assert_eq!(b.size(), 1024);
        release_and_complete(&mut pool, &mut clock, b);
    }

    let evicted: Vec<usize> = pool.set_free_budget(5120).iter().map(|b| b.length()).collect();
    assert_eq!(evicted, vec![8192, 2048]);
    assert_eq!(pool.occupancy().free_bytes, 5120);
    assert_eq!(pool.counters().evicted, 2);
}
