//! Plans pinned by a digest over every slot and assignment.

use candle_metal_kernels::arena::{plan_from_sizes, ArenaLayout, StepPlan, ARENA_ALIGNMENT};

struct Digest {
    hex: String,
    distinct: usize,
}

fn digest_records(records: &[Vec<u64>]) -> Digest {
    let mut h: u64 = 0xcbf2_9ce4_8422_2325;
    for rec in records {
        for field in rec {
            for b in field.to_be_bytes() {
                h ^= b as u64;
                h = h.wrapping_mul(0x1000_0000_01b3);
            }
        }
        h ^= 0xff;
        h = h.wrapping_mul(0x1000_0000_01b3);
    }
    let distinct = records
        .iter()
        .collect::<std::collections::HashSet<_>>()
        .len();
    Digest {
        hex: format!("{h:016x}"),
        distinct,
    }
}

fn assert_digest(what: &str, records: &[Vec<u64>], expected: &str) {
    let d = digest_records(records);

    assert!(d.distinct >= 2, "{what}: the digest is vacuous");

    assert_eq!(d.hex, expected, "{what}");
}

const FIXTURE_SIZES: [usize; 8] = [100, 4096, 300, 21503, 5000, 4096, 21504, 128];
const FIXTURE_LAST_USE: [usize; 8] = [1, 3, 4, 5, 6, 7, 7, 7];

fn plan_records(plan: &StepPlan) -> Vec<Vec<u64>> {
    let mut records: Vec<Vec<u64>> = Vec::new();
    for (i, s) in plan.slots().iter().enumerate() {
        records.push(vec![0, i as u64, s.offset as u64, s.size as u64]);
    }
    for ord in 0..plan.allocations() {
        let slot = plan.slot_of(ord).map(|s| s as u64 + 1).unwrap_or(0);
        records.push(vec![1, ord as u64, slot]);
    }
    records
}

#[test]
fn arena_plan_packed_digest() {
    let plan = plan_from_sizes(&FIXTURE_SIZES, &FIXTURE_LAST_USE, ArenaLayout::Packed);
    assert_digest(
        "ArenaLayout::Packed plan",
        &plan_records(&plan),
        PACKED_PLAN_DIGEST,
    );
}

#[test]
fn arena_plan_non_aliasing_digest() {
    let plan = plan_from_sizes(&FIXTURE_SIZES, &FIXTURE_LAST_USE, ArenaLayout::NonAliasing);
    assert_digest(
        "ArenaLayout::NonAliasing plan",
        &plan_records(&plan),
        NON_ALIASING_PLAN_DIGEST,
    );
}

#[test]
fn the_two_layouts_digest_differently_on_this_fixture() {
    let packed = digest_records(&plan_records(&plan_from_sizes(
        &FIXTURE_SIZES,
        &FIXTURE_LAST_USE,
        ArenaLayout::Packed,
    )));
    let reference = digest_records(&plan_records(&plan_from_sizes(
        &FIXTURE_SIZES,
        &FIXTURE_LAST_USE,
        ArenaLayout::NonAliasing,
    )));
    assert_ne!(packed.hex, reference.hex);
}

#[test]
fn the_fixture_is_unaligned_where_the_rounding_happens() {
    let unaligned = FIXTURE_SIZES
        .iter()
        .filter(|s| *s % ARENA_ALIGNMENT != 0)
        .count();
    assert!(unaligned >= 2);

    let plan = plan_from_sizes(&FIXTURE_SIZES, &FIXTURE_LAST_USE, ArenaLayout::Packed);
    for s in plan.slots().iter() {
        assert_eq!(s.offset % ARENA_ALIGNMENT, 0);
    }
}

#[test]
fn a_changed_plan_changes_the_digest() {
    let base = digest_records(&plan_records(&plan_from_sizes(
        &FIXTURE_SIZES,
        &FIXTURE_LAST_USE,
        ArenaLayout::Packed,
    )));

    let largest = FIXTURE_SIZES
        .iter()
        .enumerate()
        .max_by_key(|(_, s)| **s)
        .map(|(i, _)| i)
        .expect("the fixture is not empty");
    let mut sizes = FIXTURE_SIZES;
    sizes[largest] += ARENA_ALIGNMENT;
    let size_mutant = digest_records(&plan_records(&plan_from_sizes(
        &sizes,
        &FIXTURE_LAST_USE,
        ArenaLayout::Packed,
    )));
    assert_ne!(base.hex, size_mutant.hex);

    let mut last_use = FIXTURE_LAST_USE;
    last_use[0] = FIXTURE_LAST_USE.len();
    let liveness_mutant = digest_records(&plan_records(&plan_from_sizes(
        &FIXTURE_SIZES,
        &last_use,
        ArenaLayout::Packed,
    )));
    assert_ne!(base.hex, liveness_mutant.hex);
}

#[test]
#[should_panic(expected = "the digest is vacuous")]
fn the_non_vacuity_guard_rejects_a_constant_record_stream() {
    let constant = vec![vec![0u64, 0, 0]; 16];
    assert_digest("a mechanism that computes nothing", &constant, "irrelevant");
}


const PACKED_PLAN_DIGEST: &str = "ae0f21712c4c6d23";

const NON_ALIASING_PLAN_DIGEST: &str = "e57b78609936ed07";
