//! Plans for the activation arena, and the arena that serves them.

use candle_metal_kernels::arena::{
    plan_from_intervals, plan_from_sizes, Arena, ArenaLayout, ArenaRecorder, Slot, StepPlan,
    ARENA_ALIGNMENT,
};
use candle_metal_kernels::arena_cursor::{ArenaCursor, ArenaOffsets, ARENA_DECLINED};
use candle_metal_kernels::buffer::Buffer;
use candle_metal_kernels::buffer_pool::BufferPool;

fn arena_of(sizes: &[usize], last_use: &[usize], layout: ArenaLayout) -> (Arena, BufferPool) {
    let plan = plan_from_sizes(sizes, last_use, layout);
    let base = Buffer::new(1, plan.arena_bytes().max(1), 0x1_0000);
    let mut pool = BufferPool::new();
    let arena = Arena::new(&mut pool, base, plan, layout).expect("plan is valid");
    (arena, pool)
}

fn slots_of(plan: &StepPlan) -> Vec<usize> {
    (0..plan.allocations()).map(|i| plan.slot_of(i).unwrap()).collect()
}

#[test]
fn disjoint_values_share_a_slot_and_overlapping_ones_do_not() {
    let sizes = [4096, 4096, 4096];
    let last_use = [1, 2, 2];
    let plan = plan_from_sizes(&sizes, &last_use, ArenaLayout::Packed);
    let s: Vec<usize> = slots_of(&plan);
    assert_ne!(s[0], s[1]);
    assert_ne!(s[1], s[2]);
    assert_eq!(s[0], s[2]);
    assert_eq!(plan.slots().len(), 2);
}

#[test]
fn non_aliasing_reference_never_shares_bytes() {
    let sizes = [4096, 4096, 4096];
    let last_use = [1, 2, 2];
    let packed = plan_from_sizes(&sizes, &last_use, ArenaLayout::Packed);
    let reference = plan_from_sizes(&sizes, &last_use, ArenaLayout::NonAliasing);

    assert_eq!(reference.slots().len(), 3);
    let s: Vec<usize> = slots_of(&reference);
    assert_eq!(s, vec![0, 1, 2]);
    assert!(reference.arena_bytes() > packed.arena_bytes());
    reference.check_disjoint().expect("reference slots overlap");
}

/// The reference is larger wherever two values share a slot, by however little, and as large where
/// none do.
#[test]
fn packing_saves_wherever_a_slot_is_shared() {
    for (sizes, last_use) in [
        (vec![1, 1], vec![0, 1]),
        (vec![128, 1], vec![0, 1]),
        (vec![4096, 7, 300, 7], vec![1, 1, 3, 3]),
    ] {
        let packed = plan_from_sizes(&sizes, &last_use, ArenaLayout::Packed);
        let reference = plan_from_sizes(&sizes, &last_use, ArenaLayout::NonAliasing);
        assert!(packed.slots().len() < reference.slots().len());
        assert!(packed.arena_bytes() < reference.arena_bytes());
    }
    let packed = plan_from_sizes(&[256, 128], &[1, 1], ArenaLayout::Packed);
    let reference = plan_from_sizes(&[256, 128], &[1, 1], ArenaLayout::NonAliasing);
    assert_eq!(packed.arena_bytes(), reference.arena_bytes());
}

#[test]
fn size_major_does_not_widen_a_slot_a_small_value_opened() {
    let sizes = [4096, 21504, 21504];
    let last_use = [0, 2, 2];
    let plan = plan_from_sizes(&sizes, &last_use, ArenaLayout::Packed);

    let mlp_slots = plan.slots().iter().filter(|s| s.size == 21504).count();
    assert_eq!(mlp_slots, 2);
}

#[test]
fn slots_are_cache_line_aligned() {
    assert_eq!(ARENA_ALIGNMENT, 128);
    let sizes = [4096, 21504, 1024, 32];
    let last_use = [3, 3, 3, 3];
    let plan = plan_from_sizes(&sizes, &last_use, ArenaLayout::Packed);
    for s in plan.slots() {
        assert_eq!(s.offset % ARENA_ALIGNMENT, 0);
    }
    plan.check_disjoint().expect("slots overlap");
}

#[test]
fn overlap_check_catches_overlapping_slots() {
    let good = StepPlan::new(
        vec![
            Slot {
                offset: 0,
                size: 128,
            },
            Slot {
                offset: 128,
                size: 128,
            },
        ],
        vec![(0, 128), (1, 128)],
    );
    good.check_disjoint().expect("disjoint slots rejected");

    let bad = StepPlan::new(
        vec![
            Slot {
                offset: 0,
                size: 256,
            },
            Slot {
                offset: 128,
                size: 128,
            },
        ],
        vec![(0, 256), (1, 128)],
    );
    let err = bad
        .check_disjoint()
        .expect_err("overlapping slots were accepted");
    assert!(err.contains("overlap"));

    let misaligned = StepPlan::new(
        vec![Slot {
            offset: 64,
            size: 128,
        }],
        vec![(0, 128)],
    );
    let err = misaligned
        .check_disjoint()
        .expect_err("a 64 B aligned slot was accepted");
    assert!(err.contains("aligned"));
}

#[test]
fn the_same_ordinal_gets_the_same_slot_every_step() {
    let sizes = [4096, 21504, 4096];
    let last_use = [2, 2, 2];
    let (mut arena, _pool) = arena_of(&sizes, &last_use, ArenaLayout::Packed);

    let mut per_step = Vec::new();
    for _ in 0..8 {
        arena.begin_step();
        let step: Vec<usize> = sizes
            .iter()
            .map(|&s| {
                let b = arena.acquire(s).expect("plan covers this ordinal");
                (b.base_offset(), b.length()).0
            })
            .collect();
        arena.end_step();
        per_step.push(step);
    }

    let first = &per_step[0];
    for step in per_step.iter() {
        assert_eq!(step, first);
    }
}

#[test]
fn arena_buffers_never_enter_the_free_list() {
    let sizes = [4096, 21504];
    let last_use = [1, 1];
    let (mut arena, pool) = arena_of(&sizes, &last_use, ArenaLayout::Packed);

    for _ in 0..4 {
        arena.begin_step();
        for &s in &sizes {
            arena.acquire(s).expect("plan covers this ordinal");
        }
        arena.end_step();
    }

    assert_eq!(pool.counters().releases, 0);
    assert_eq!(pool.occupancy().free_buffers, 0);
}

#[test]
fn arena_size_mismatch_declines_rather_than_drifting() {
    let sizes = [4096, 21504];
    let last_use = [1, 1];
    let (mut arena, _pool) = arena_of(&sizes, &last_use, ArenaLayout::Packed);

    for token in 0..4usize {
        arena.begin_step();
        assert!(arena.acquire(4096).is_some());
        assert!(arena.acquire(21504 + 128 * (token + 1)).is_none());
        arena.end_step();
    }

    let c = arena.counters();
    assert_eq!(c.declined_size, 4);
    assert_eq!(c.hits, 4);
}

#[test]
fn nothing_is_served_outside_a_step() {
    let (mut arena, _pool) = arena_of(&[4096], &[0], ArenaLayout::Packed);
    assert!(arena.acquire(4096).is_none());
    arena.begin_step();
    assert!(arena.acquire(4096).is_some());
    arena.end_step();
    assert!(arena.acquire(4096).is_none());
}

#[test]
fn allocations_past_the_plan_are_declined() {
    let (mut arena, _pool) = arena_of(&[4096], &[0], ArenaLayout::Packed);
    arena.begin_step();
    assert!(arena.acquire(4096).is_some());
    assert!(arena.acquire(4096).is_none());
    assert_eq!(arena.counters().declined_exhausted, 1);
}

#[test]
fn a_view_addresses_only_its_own_region() {
    let base = Buffer::new(1, 4096, 0x1_0000);
    let parent_ptr = base.contents();

    let view = base.view(128, 256);
    assert_eq!(view.length(), 256);
    assert_eq!(view.base_offset(), 128);
    assert_eq!(view.contents(), parent_ptr + 128);

    let inner = view.view(64, 64);
    assert_eq!(inner.base_offset(), 192);
    assert_eq!(inner.length(), 64);
    assert_eq!(inner.contents(), parent_ptr + 192);

    assert_eq!(base.base_offset(), 0);
    assert_eq!(base.length(), 4096);
}

#[test]
fn liveness_keys_on_the_value_not_on_the_recycled_buffer() {
    let mut rec = ArenaRecorder::new();

    for token in 0..3u64 {
        rec.record_alloc(token, 21504);
        rec.record_free(token);
    }

    let plan = rec.plan(ArenaLayout::Packed);
    assert_eq!(plan.slots().len(), 1);
    assert_eq!(plan.arena_bytes(), 21504);
    let slots: Vec<usize> = slots_of(&plan);
    assert_eq!(slots, vec![0, 0, 0]);
}

#[test]
fn simultaneously_live_values_do_not_share() {
    let mut rec = ArenaRecorder::new();
    rec.record_alloc(0, 21504);
    rec.record_alloc(1, 21504);
    rec.record_alloc(2, 21504);
    rec.record_free(0);
    rec.record_free(1);
    rec.record_free(2);

    let plan = rec.plan(ArenaLayout::Packed);
    assert_eq!(plan.slots().len(), 3);
    assert_eq!(plan.arena_bytes(), 3 * 21504);
}

#[test]
fn a_value_never_freed_shares_with_nothing() {
    let mut rec = ArenaRecorder::new();
    rec.record_alloc(0, 4096);
    rec.record_alloc(1, 4096);
    rec.record_free(1);
    rec.record_alloc(2, 4096);
    rec.record_free(2);

    let plan = rec.plan(ArenaLayout::Packed);
    let slots: Vec<usize> = slots_of(&plan);
    assert_ne!(slots[0], slots[1]);
    assert_ne!(slots[0], slots[2]);
    assert_eq!(slots[1], slots[2]);
    assert_eq!(plan.slots().len(), 2);
}

#[test]
fn arena_bytes_is_the_packed_peak() {
    let sizes = [21504, 21504, 21504, 4096, 1024];
    let last_use = [4, 4, 4, 4, 4];
    let plan = plan_from_sizes(&sizes, &last_use, ArenaLayout::Packed);
    assert_eq!(plan.arena_bytes(), 3 * 21504 + 4096 + 1024);
    assert_eq!(plan.arena_bytes(), 69632);
    assert_eq!(plan.slots().len(), 5);
}

fn reference_plan(sizes: &[usize], excluded: &[bool]) -> StepPlan {
    let first: Vec<usize> = (0..sizes.len()).collect();
    let last: Vec<usize> = (0..sizes.len()).collect();
    plan_from_intervals(sizes, &first, &last, excluded, ArenaLayout::NonAliasing)
}

#[test]
fn bump_capacity_exceeds_arena_bytes_when_the_last_size_is_unrounded() {
    let unrounded = reference_plan(&[100, 300, 5000], &[false; 3]);
    assert_eq!(unrounded.arena_bytes(), 5512);
    assert_eq!(unrounded.bump_capacity(), 5632);
    assert!(unrounded.bump_capacity() > unrounded.arena_bytes());

    let lfm2 = reference_plan(&[21504, 4096, 1024], &[false; 3]);
    assert_eq!(lfm2.arena_bytes(), lfm2.bump_capacity());
}

#[test]
fn a_packed_plan_is_not_bump_reproducible() {
    let sizes = [4096usize, 4096, 4096];
    let first = [0usize, 0, 2];
    let last = [1usize, 2, 2];
    let packed = plan_from_intervals(&sizes, &first, &last, &[false; 3], ArenaLayout::Packed);
    let reference =
        plan_from_intervals(&sizes, &first, &last, &[false; 3], ArenaLayout::NonAliasing);

    assert!(reference.is_bump_reproducible());
    assert!(!packed.is_bump_reproducible());
}

#[test]
fn the_default_offset_source_is_the_cpu() {
    assert_eq!(ArenaOffsets::default(), ArenaOffsets::Cpu);
    assert!(!ArenaOffsets::default().is_gpu());
    assert!(ArenaOffsets::Gpu.is_gpu());
}

/// What a bump allocator hands out agrees with the reference plan, and a wrong table is told so.
#[test]
fn a_cursor_is_held_against_the_plan() {
    let sizes = [4096usize, 21504, 1024, 300, 21504, 4096];
    let excluded = [false, false, true, false, false, false];
    let plan = reference_plan(&sizes, &excluded);
    assert!(plan.is_bump_reproducible());
    let expected = plan.expected_offsets();
    let cursor = ArenaCursor::new(&plan.request_sizes(), plan.bump_capacity().max(1)).unwrap();
    assert_eq!(cursor.len() as usize, sizes.len());
    let got: Vec<u32> = expected
        .iter()
        .map(|e| e.map(|o| o as u32).unwrap_or(ARENA_DECLINED))
        .collect();
    assert_eq!(got[2], ARENA_DECLINED);
    assert!(cursor.verify_against(&got, &expected).is_ok());

    let mut wrong = got.clone();
    wrong[3] += 128;
    assert!(cursor.verify_against(&wrong, &expected).is_err());
    let mut served = got.clone();
    served[2] = 0;
    assert!(cursor.verify_against(&served, &expected).is_err());
    assert!(cursor.verify_against(&got[1..], &expected).is_err());
}

/// An arena that is too short for its plan, or whose plan overlaps, is refused.
#[test]
fn an_arena_refuses_what_it_cannot_hold() {
    let plan = plan_from_sizes(&[4096, 4096], &[1, 1], ArenaLayout::Packed);
    let mut pool = BufferPool::new();
    let short = Buffer::new(1, plan.arena_bytes() - 1, 0x1_0000);
    assert!(Arena::new(&mut pool, short, plan, ArenaLayout::Packed).is_err());
    assert_eq!(pool.counters().allocations, 0);

    let overlapping = StepPlan::new(
        vec![Slot { offset: 0, size: 256 }, Slot { offset: 128, size: 128 }],
        vec![(0, 256), (1, 128)],
    );
    let base = Buffer::new(1, 4096, 0x1_0000);
    let err = Arena::new(&mut pool, base, overlapping, ArenaLayout::Packed).unwrap_err();
    assert!(err.contains("overlap"));
}

/// Values that are live together never share bytes, in either layout, and packing takes no more
/// than the reference.
#[test]
fn live_values_keep_apart_in_both_layouts() {
    let sizes = [100usize, 4096, 300, 21503, 5000, 4096, 21504, 128];
    let last = [1usize, 3, 4, 5, 6, 7, 7, 7];
    let packed = plan_from_sizes(&sizes, &last, ArenaLayout::Packed);
    let reference = plan_from_sizes(&sizes, &last, ArenaLayout::NonAliasing);
    assert!(packed.arena_bytes() <= reference.arena_bytes());
    for plan in [&packed, &reference] {
        plan.check_disjoint().unwrap();
        let at = slots_of(plan);
        for i in 0..sizes.len() {
            assert!(sizes[i] <= plan.slots()[at[i]].size);
            for j in i + 1..sizes.len() {
                if j <= last[i] {
                    assert_ne!(at[i], at[j], "{i} and {j} are live together");
                }
            }
        }
    }
}

/// A request of nothing, and a recorder that is reset.
#[test]
fn a_recorder_starts_over() {
    let mut rec = ArenaRecorder::new();
    assert!(rec.is_empty());
    rec.record_alloc(7, 64);
    rec.record_free(8);
    assert_eq!(rec.len(), 1);
    rec.reset();
    assert!(rec.is_empty());
    assert_eq!(rec.plan(ArenaLayout::Packed).allocations(), 0);
}

/// Outside a step everything is left to the pool; inside one the ordinal decides.
#[test]
fn an_arena_serves_only_inside_a_step() {
    let plan = plan_from_sizes(&[256, 512], &[0, 1], ArenaLayout::Packed);
    let mut pool = BufferPool::new();
    let base = Buffer::new(1, 1024, 0x1_0000);
    let mut arena = Arena::new(&mut pool, base, plan, ArenaLayout::Packed).unwrap();
    assert!(!arena.is_active());
    assert!(arena.acquire(256).is_none());
    arena.begin_step();
    assert!(arena.is_active());
    assert!(arena.acquire(256).is_some());
    assert!(arena.acquire(511).is_none());
    assert!(arena.acquire(256).is_none());
    arena.end_step();
    assert!(arena.acquire(256).is_none());
    let c = arena.counters();
    assert_eq!((c.offers, c.hits, c.declined_size, c.declined_exhausted, c.steps), (3, 1, 1, 1, 1));
    arena.reset_counters();
    assert_eq!(arena.counters().offers, 0);
}
