//! Hazards, barriers, waits and parameter capture of an encoder.

use std::collections::HashMap;

use candle_metal_kernels::buffer::Buffer;
use candle_metal_kernels::encoder::{
    hazard_key, read_hazards, set_hazard_key, write_hazards, Barrier, BlitCommandEncoder,
    BoundRange, BoundSet, ComputeCommandEncoder, EncoderState, HazardKey, HazardKind, HazardKinds,
    HazardSetting,
};
use candle_metal_kernels::executor::{
    Classical, DispatchAction, DispatchRecord, Disposition, Executor, ExecutorSlot, Grid, Size3,
};

fn r(ptr: usize, offset: usize, len: usize) -> BoundRange {
    BoundRange { ptr, offset, len }
}

#[test]
fn ranges_overlap_exactly_when_they_share_a_byte() {
    assert!(!r(1, 0, 128).overlaps(&r(1, 128, 128)));
    assert!(!r(1, 128, 128).overlaps(&r(1, 0, 128)));
    assert!(r(1, 0, 129).overlaps(&r(1, 128, 128)));
    assert!(r(1, 0, 256).overlaps(&r(1, 64, 64)));
    assert!(r(1, 64, 64).overlaps(&r(1, 0, 256)));
    assert!(r(1, 0, 128).overlaps(&r(1, 0, 128)));
    assert!(!r(1, 0, 128).overlaps(&r(2, 0, 128)));
}

#[test]
fn an_unknown_extent_orders_conservatively() {
    assert!(r(1, 0, 0).overlaps(&r(1, 4096, 128)));
    assert!(r(1, 4096, 128).overlaps(&r(1, 0, 0)));
    assert!(!r(1, 0, 0).overlaps(&r(2, 0, 0)));
}

#[test]
fn a_barrier_can_be_owed_to_more_than_one_direction() {
    let mut k = HazardKinds::none();
    assert!(k.is_empty());
    assert_eq!(k.iter().len(), 0);

    k.insert(HazardKind::Waw);
    k.insert(HazardKind::War);
    assert!(k.contains(HazardKind::Waw) && k.contains(HazardKind::War));
    assert!(!k.contains(HazardKind::Raw));
    assert_eq!(k.iter().into_iter().map(HazardKind::as_str).collect::<Vec<_>>(), ["waw", "war"]);

    let mut twice = HazardKinds::none();
    twice.insert(HazardKind::Raw);
    twice.insert(HazardKind::Raw);
    assert_eq!(twice.iter().len(), 1);

    let drained = k.take();
    assert!(k.is_empty());
    assert_eq!(drained.iter().len(), 2);
}

#[test]
fn a_write_can_be_both_waw_and_war_and_both_must_be_seen() {
    let slot = r(9, 0, 128);

    let mut prev_outputs = BoundSet::default();
    prev_outputs.insert(HazardKey::Range, slot);
    let mut prev_inputs = BoundSet::default();
    prev_inputs.insert(HazardKey::Range, slot);

    let kinds = write_hazards(&prev_outputs, &prev_inputs, HazardKey::Range, &slot);
    assert_eq!(kinds.iter().into_iter().map(HazardKind::as_str).collect::<Vec<_>>(), ["waw", "war"]);

    let only_waw = write_hazards(&prev_outputs, &BoundSet::default(), HazardKey::Range, &slot);
    assert_eq!(only_waw.iter().into_iter().map(HazardKind::as_str).collect::<Vec<_>>(), ["waw"]);
    let only_war = write_hazards(&BoundSet::default(), &prev_inputs, HazardKey::Range, &slot);
    assert_eq!(only_war.iter().into_iter().map(HazardKind::as_str).collect::<Vec<_>>(), ["war"]);
    assert!(write_hazards( &prev_outputs, &prev_inputs, HazardKey::Range, &r(9, 4096, 128) ) .is_empty());
}

#[test]
fn two_reads_never_conflict() {
    let weight = r(11, 0, 4096);

    let mut prev_outputs = BoundSet::default();
    assert!(read_hazards(&prev_outputs, HazardKey::Range, &weight).is_empty());

    prev_outputs.insert(HazardKey::Range, r(11, 8192, 128));
    assert!(read_hazards(&prev_outputs, HazardKey::Range, &weight).is_empty());

    prev_outputs.insert(HazardKey::Range, weight);
    assert_eq!(read_hazards(&prev_outputs, HazardKey::Range, &weight) .iter().into_iter().map(HazardKind::as_str).collect::<Vec<_>>(), ["raw"]);
}

#[test]
fn range_keying_is_a_refinement_of_pointer_keying() {
    let a = r(7, 0, 128);
    let b = r(7, 128, 128);

    let mut ptr_set = BoundSet::default();
    ptr_set.insert(HazardKey::Pointer, a);
    assert!(ptr_set.conflicts(HazardKey::Pointer, &b));

    let mut range_set = BoundSet::default();
    range_set.insert(HazardKey::Range, a);
    assert!(!range_set.conflicts(HazardKey::Range, &b));
    assert!(range_set.conflicts(HazardKey::Range, &r(7, 64, 128)));
}

#[test]
fn a_sessions_keying_is_fixed_when_it_opens() {
    let s = EncoderState::with_hazard_key(HazardKey::Range);
    assert_eq!(s.hazard_key, HazardKey::Range);
    let s = EncoderState::with_hazard_key(HazardKey::Pointer);
    assert_eq!(s.hazard_key, HazardKey::Pointer);
    assert_eq!(EncoderState::new().hazard_key, HazardKey::Pointer);
    assert_eq!(HazardKey::default(), HazardKey::Pointer);
}

fn classical() -> ExecutorSlot<Classical> {
    ExecutorSlot::Classical
}

fn size(width: usize) -> Size3 {
    Size3 { width, height: 1, depth: 1 }
}

/// An executor that reports every position as part of a run in flight, while `held` is set.
struct InFlight {
    held: bool,
}

impl Executor for InFlight {
    fn disposition(&self) -> Disposition {
        if self.held {
            Disposition::ReplayedInFlightRun
        } else {
            Disposition::Unknown
        }
    }
}

/// A write, a dispatch, and a read of the same bytes: the second dispatch stands behind a
/// barrier. A read of other bytes does not, where ranges are told apart.
#[test]
fn a_read_of_what_was_written_waits_for_it() {
    for (key, neighbour_waits) in [(HazardKey::Pointer, true), (HazardKey::Range, false)] {
        let writers = HashMap::new();
        let mut slot = classical();
        let mut e = ComputeCommandEncoder::new(key);
        let arena = Buffer::new(5, 1024, 0x1000);
        let a = arena.view(0, 128);
        let b = arena.view(128, 128);

        e.set_output_buffer(&writers, &mut slot, 0, Some(&a), 0);
        let first = e.dispatch_thread_groups(&mut slot, size(1), size(32));
        assert_eq!(first.barrier, Barrier::NotNeeded);
        assert_eq!(first.action, DispatchAction::Encode);

        e.set_input_buffer(&writers, &mut slot, 0, Some(&b), 0);
        let second = e.dispatch_thread_groups(&mut slot, size(1), size(32));
        assert_eq!(second.barrier != Barrier::NotNeeded, neighbour_waits);

        e.set_output_buffer(&writers, &mut slot, 0, Some(&a), 0);
        e.dispatch_threads(&mut slot, size(64), size(32));
        e.set_input_buffer(&writers, &mut slot, 0, Some(&a), 0);
        match e.dispatch_threads(&mut slot, size(64), size(32)).barrier {
            Barrier::Emit(kinds) => assert!(kinds.contains(HazardKind::Raw)),
            other => panic!("no barrier before a dependent read: {other:?}"),
        }
        assert_eq!(e.auto_barrier(&slot), Barrier::NotNeeded);
    }
}

/// A barrier that is held back for a run in flight is still owed to the next dispatch.
#[test]
fn a_held_back_barrier_is_not_forgotten() {
    let writers = HashMap::new();
    let mut slot = ExecutorSlot::Custom(InFlight { held: true });
    let mut e = ComputeCommandEncoder::new(HazardKey::Range);
    let b = Buffer::new(5, 128, 0x1000);
    e.set_output_buffer(&writers, &mut slot, 0, Some(&b), 0);
    assert_eq!(e.auto_barrier(&slot), Barrier::NotNeeded);
    e.set_output_buffer(&writers, &mut slot, 0, Some(&b), 0);
    assert_eq!(e.auto_barrier(&slot), Barrier::Deferred);
    if let ExecutorSlot::Custom(x) = &mut slot {
        x.held = false;
    }
    match e.auto_barrier(&slot) {
        Barrier::Emit(kinds) => {
            assert!(kinds.contains(HazardKind::Waw));
            assert!(!kinds.contains(HazardKind::Raw));
        }
        other => panic!("the barrier was lost: {other:?}"),
    }
    assert_eq!(e.auto_barrier(&slot), Barrier::NotNeeded);
}

/// A session waits on the last writer of what it touches, once.
#[test]
fn a_last_writer_is_waited_on_once() {
    let mut writers = HashMap::new();
    writers.insert(5usize, 77usize);
    let mut slot = classical();
    let mut e = ComputeCommandEncoder::new(HazardKey::Pointer);
    let b = Buffer::new(5, 128, 0x1000);
    let other = Buffer::new(6, 128, 0x2000);
    assert_eq!(e.set_input_buffer(&writers, &mut slot, 0, Some(&b), 0).wait, Some(77));
    assert_eq!(e.set_output_buffer(&writers, &mut slot, 1, Some(&b), 0).wait, None);
    assert_eq!(e.set_input_buffer(&writers, &mut slot, 2, Some(&other), 0).wait, None);
    assert_eq!(e.output_list(), [5]);
    assert!(e.outputs().contains(&5));
}

/// A view starts where it starts, and an empty slot is bound as it is.
#[test]
fn a_binding_starts_at_the_view() {
    let writers = HashMap::new();
    let mut slot = classical();
    let mut e = ComputeCommandEncoder::new(HazardKey::Range);
    let v = Buffer::new(5, 4096, 0x1000).view(256, 128);
    let b = e.set_input_buffer(&writers, &mut slot, 3, Some(&v), 16);
    assert_eq!((b.index, b.offset, b.wait), (3, 272, None));
    let none = e.set_output_buffer(&writers, &mut slot, 4, None, 16);
    assert_eq!((none.index, none.offset, none.wait), (4, 16, None));
}

/// Scalars go into the block, each at its own alignment; buffers keep slots of their own.
#[test]
fn a_parameter_block_is_packed() {
    let writers = HashMap::new();
    let mut slot = classical();
    let mut e = ComputeCommandEncoder::new(HazardKey::Range);
    assert!(!e.capture_scalar(&[9], 1));
    assert!(!e.is_capturing());
    e.begin_param_capture();
    assert!(e.is_capturing());
    assert!(e.has_slot());
    assert!(e.capture_scalar(&[1], 1));
    assert!(e.capture_scalar(&[2, 0, 0, 0], 4));
    let b = Buffer::new(5, 128, 0x1000);
    assert_eq!(e.set_input_buffer(&writers, &mut slot, 0, Some(&b), 0).index, 1);
    let staged = Buffer::new(6, 64, 0x2000);
    assert_eq!(e.capture_array(&writers, staged).index, 2);
    assert_eq!(e.set_output_buffer(&writers, &mut slot, 9, Some(&b), 0).index, 3);
    assert!(e.capture_scalar(&[3], 1));
    let (bytes, arrays) = e.end_param_capture(8);
    assert_eq!(bytes, [1, 0, 0, 0, 2, 0, 0, 0, 3, 0, 0, 0, 0, 0, 0, 0]);
    assert_eq!(arrays, [staged]);
    assert!(!e.is_capturing());
    e.begin_param_capture();
    e.capture_scalar(&[7], 1);
    assert_eq!(e.end_param_capture(0).0, [7]);
}

/// The name of a kernel is kept where something asks for it.
#[test]
fn a_kernel_is_named_where_it_is_asked_for() {
    let mut slot = classical();
    let mut e = ComputeCommandEncoder::new(HazardKey::Range);
    assert_eq!(e.dispatch_label(), "<unnamed>");
    e.note_pipeline(&mut slot, 1, Some("cos".to_string()), false);
    assert_eq!(e.dispatch_label(), "<unnamed>");
    e.note_pipeline(&mut slot, 1, Some("cos".to_string()), true);
    assert_eq!(e.dispatch_label(), "cos");
    let mut custom = ExecutorSlot::Custom(Classical);
    e.note_pipeline(&mut custom, 1, Some("sin".to_string()), false);
    let r: DispatchRecord = e.dispatch_record(Grid::Threads(size(64)), size(32));
    assert_eq!(r.kernel.as_deref(), Some("sin"));
    assert_eq!(r.grid, Grid::Threads(size(64)));
    assert_eq!(r.threads_per_threadgroup, size(32));
}

/// A blit waits on the last writers of what it touches, each once, and is the last writer of
/// what it wrote.
#[test]
fn a_blit_is_ordered_on_both_sides() {
    let mut writers = HashMap::new();
    writers.insert(1usize, 70usize);
    writers.insert(2usize, 70usize);
    writers.insert(3usize, 71usize);
    let src = Buffer::new(1, 64, 0x1000);
    let dst = Buffer::new(2, 64, 0x2000);
    let third = Buffer::new(3, 64, 0x3000);
    let mut blit = BlitCommandEncoder::new();
    assert_eq!(blit.copy_from_buffer(&writers, &src, &dst), [70]);
    assert_eq!(blit.copy_from_buffer(&writers, &src, &third), [70, 71]);
    assert_eq!(blit.fill_buffer(&writers, &Buffer::new(4, 64, 0x4000)), [0usize; 0]);
    blit.end_encoding(&mut writers, 80);
    assert_eq!(writers[&1], 70);
    assert_eq!(writers[&2], 80);
    assert_eq!(writers[&3], 80);
    assert_eq!(writers[&4], 80);
}

/// The environment decides once; a set key stands.
#[test]
fn the_keying_is_settled_once() {
    assert_eq!(HazardKey::parse("range"), Some(HazardKey::Range));
    assert_eq!(HazardKey::parse("ptr"), Some(HazardKey::Pointer));
    assert_eq!(HazardKey::parse("pointer"), Some(HazardKey::Pointer));
    assert_eq!(HazardKey::parse("both"), None);
    let mut s = HazardSetting::default();
    assert_eq!(hazard_key(&mut s, Some("range")), HazardKey::Range);
    assert_eq!(hazard_key(&mut s, None), HazardKey::Range);
    let mut s = HazardSetting::default();
    set_hazard_key(&mut s, HazardKey::Range);
    assert_eq!(hazard_key(&mut s, Some("ptr")), HazardKey::Range);
    let mut s = HazardSetting::default();
    assert_eq!(hazard_key(&mut s, Some("")), HazardKey::Pointer);
    assert_eq!(hazard_key(&mut s, Some("range")), HazardKey::Pointer);
}

/// What range keying orders, pointer keying orders too; a conflict either way is symmetric.
#[test]
fn range_keying_orders_less_and_never_more() {
    let ranges = [r(1, 0, 64), r(1, 64, 64), r(1, 32, 64), r(1, 0, 0), r(2, 0, 64)];
    for a in ranges {
        for b in ranges {
            let mut by_range = BoundSet::default();
            by_range.insert(HazardKey::Range, a);
            let mut by_pointer = BoundSet::default();
            by_pointer.insert(HazardKey::Pointer, a);
            if by_range.conflicts(HazardKey::Range, &b) {
                assert!(by_pointer.conflicts(HazardKey::Pointer, &b));
            }
            assert_eq!(a.overlaps(&b), b.overlaps(&a));
        }
    }
}
