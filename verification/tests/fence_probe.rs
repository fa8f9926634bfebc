//! Waits on fences: what was recorded of them, and how many of them order anything.

use std::collections::HashMap;

use candle_metal_kernels::encoder::BoundRange;
use candle_metal_kernels::fence_probe::{
    arena_ptr, forget_writer, is_recording, note_encoder_begin, note_writer_ranges,
    probe_requested, record_wait, set_arena_ptr, set_recording, set_region, skipped_count,
    summarize, survives_range_test, take_events, writer_ranges, CallSite, ProbeState, Summary,
    WaitEvent,
};

fn r(ptr: usize, offset: usize, len: usize) -> BoundRange {
    BoundRange { ptr, offset, len }
}

fn ev(
    reader: BoundRange,
    writer_ranges: Vec<BoundRange>,
    emitted: bool,
    arena: bool,
) -> WaitEvent {
    WaitEvent {
        seq: 0,
        site: CallSite::Input,
        encoder: 0,
        reader,
        found_fence: !writer_ranges.is_empty(),
        emitted,
        fence: 1,
        writer_ranges,
        arena,
        region: None,
    }
}

#[test]
fn disjoint_ranges_in_one_allocation_are_a_false_dependency() {
    let e = ev(r(9, 0, 100), vec![r(9, 100, 100)], true, true);
    assert_eq!(survives_range_test(&e), Some(false));
    let s = summarize(&[e]);
    assert_eq!(s.emitted, 1);
    assert_eq!(s.emitted_arena, 1);
    assert_eq!(s.emitted_arena_false, 1);
    assert_eq!(s.emitted_arena_survives_range, 0);
}

#[test]
fn overlapping_ranges_survive() {
    let e = ev(r(9, 50, 100), vec![r(9, 100, 100)], true, true);
    assert_eq!(survives_range_test(&e), Some(true));
    assert_eq!(summarize(&[e]).emitted_arena_survives_range, 1);
}

#[test]
fn a_wait_that_was_deduped_is_not_counted_as_emitted() {
    let e = ev(r(9, 0, 100), vec![r(9, 0, 100)], false, true);
    let s = summarize(&[e]);
    assert_eq!(s.calls, 1);
    assert_eq!(s.emitted, 0);
    assert_eq!(s.emitted_arena, 0);
}

#[test]
fn an_unrecorded_writer_is_undecidable_rather_than_either_verdict() {
    let e = ev(r(9, 0, 100), vec![], true, true);
    assert_eq!(survives_range_test(&e), None);
    let s = summarize(&[e]);
    assert_eq!(s.emitted_undecidable, 1);
    assert_eq!(s.emitted_arena_false, 0);
    assert_eq!(s.emitted_arena_survives_range, 0);
}

#[test]
fn a_zero_length_binding_fails_toward_ordering() {
    let e = ev(r(9, 0, 0), vec![r(9, 4096, 100)], true, true);
    assert_eq!(survives_range_test(&e), Some(true));
}

#[test]
fn different_allocations_never_overlap() {
    let e = ev(r(9, 0, 100), vec![r(10, 0, 100)], true, false);
    assert_eq!(survives_range_test(&e), Some(false));
}

#[test]
fn sessions_and_sites_are_counted_separately() {
    let mut a = ev(r(9, 0, 10), vec![r(9, 0, 10)], true, false);
    a.encoder = 0;
    a.site = CallSite::Input;
    let mut b = ev(r(9, 0, 10), vec![r(9, 0, 10)], true, false);
    b.encoder = 1;
    b.site = CallSite::Output;
    let s = summarize(&[a, b]);
    assert_eq!(s.sessions, 2);
    assert_eq!(s.emitted, 2);
    assert_eq!(s.by_site.len(), 2);
}

/// A probe that nobody asked for records nothing, whatever is switched on.
#[test]
fn an_unrequested_probe_stays_silent() {
    for env in [None, Some("0"), Some("off"), Some("false"), Some("")] {
        let mut p = ProbeState::new(env);
        assert!(!probe_requested(&p));
        set_recording(&mut p, true);
        assert!(!is_recording(&p));
        record_wait(&mut p, CallSite::Input, r(9, 0, 10), true, true, 1, vec![]);
        assert!(take_events(&mut p).is_empty());
    }
}

/// What is recorded is what was reported, in order, with the session and the region of the moment.
#[test]
fn a_requested_probe_records_in_order() {
    let mut p = ProbeState::new(Some("1"));
    assert!(probe_requested(&p));
    record_wait(&mut p, CallSite::Input, r(9, 0, 10), true, true, 1, vec![]);
    assert_eq!(skipped_count(&p), 1);
    set_recording(&mut p, true);
    assert!(is_recording(&p));
    set_arena_ptr(&mut p, Some(9));
    assert_eq!(arena_ptr(&p), Some(9));
    set_region(&mut p, Some("step 3".to_string()));
    note_encoder_begin(&mut p);

    let mut written = HashMap::new();
    written.insert(9usize, vec![r(9, 0, 64), r(9, 128, 64)]);
    written.insert(8usize, vec![r(8, 0, 4)]);
    note_writer_ranges(&mut p, 70, &written);
    assert_eq!(writer_ranges(&p, 70, 9), [r(9, 0, 64), r(9, 128, 64)]);
    assert_eq!(writer_ranges(&p, 70, 8), [r(8, 0, 4)]);
    assert!(writer_ranges(&p, 71, 9).is_empty());

    let ranges = writer_ranges(&p, 70, 9);
    record_wait(&mut p, CallSite::Input, r(9, 64, 64), true, true, 70, ranges.clone());
    let other = writer_ranges(&p, 70, 8);
    record_wait(&mut p, CallSite::Output, r(8, 0, 4), true, true, 70, other);
    forget_writer(&mut p, 70);
    assert!(writer_ranges(&p, 70, 9).is_empty());

    let events = take_events(&mut p);
    assert_eq!(events.len(), 2);
    assert_eq!(events[0].writer_ranges, ranges);
    assert!(events[0].arena && !events[1].arena);
    assert_eq!(events[0].region.as_deref(), Some("step 3"));
    assert_eq!(events[0].encoder, events[1].encoder);
    assert!(events[0].seq < events[1].seq);
    assert!(take_events(&mut p).is_empty());

    let s = summarize(&events);
    assert_eq!(s.emitted, 2);
    assert_eq!(s.emitted_arena_false, 1);
    assert_eq!(s.emitted_other_survives_range, 1);
    assert_eq!(s.sessions, 1);
}

/// Every emitted wait is counted once: it orders bytes, it does not, or it cannot be told.
#[test]
fn every_emitted_wait_is_counted_once() {
    let events = [
        ev(r(9, 0, 100), vec![r(9, 100, 100)], true, true),
        ev(r(9, 0, 100), vec![r(9, 50, 100)], true, true),
        ev(r(7, 0, 100), vec![r(7, 100, 100)], true, false),
        ev(r(7, 0, 100), vec![r(7, 0, 1)], true, false),
        ev(r(7, 0, 100), vec![], true, false),
        ev(r(7, 0, 100), vec![r(7, 0, 1)], false, false),
    ];
    let s = summarize(&events);
    assert_eq!(s.calls, 6);
    assert_eq!(s.found, 5);
    assert_eq!(s.emitted, 5);
    assert_eq!(
        s.emitted,
        s.emitted_arena_survives_range
            + s.emitted_arena_false
            + s.emitted_other_survives_range
            + s.emitted_other_false
            + s.emitted_undecidable
    );
    assert_eq!(summarize(&[]), Summary::default());
}

#[test]
fn call_sites_have_names() {
    assert_eq!(CallSite::Input.as_str(), "input");
    assert_eq!(CallSite::Output.as_str(), "output");
}

/// Drains return what came since the one before, numbered on from there; one right after another
/// returns nothing.
#[test]
fn drains_go_on_counting() {
    let mut s = ProbeState::new(Some("on"));
    set_recording(&mut s, true);
    let mut seen: Vec<u64> = Vec::new();
    for n in [3usize, 0, 1, 4] {
        for k in 0..n {
            record_wait(&mut s, CallSite::Input, r(9, k, 1), false, false, 0, Vec::new());
        }
        // What is seen while nothing is recorded takes no number.
        set_recording(&mut s, false);
        record_wait(&mut s, CallSite::Output, r(9, 0, 1), false, false, 0, Vec::new());
        set_recording(&mut s, true);

        let events = take_events(&mut s);
        assert_eq!(events.iter().map(|e| e.reader.offset).collect::<Vec<_>>(), (0..n).collect::<Vec<_>>());
        seen.extend(events.iter().map(|e| e.seq));
        assert_eq!(s.recorded(), seen.len() as u64);
        assert!(take_events(&mut s).is_empty());
    }
    assert_eq!(seen, (0..8).collect::<Vec<u64>>());
    assert_eq!(skipped_count(&s), 4);
    note_encoder_begin(&mut s);
    assert_eq!(s.sessions(), 1);
}
