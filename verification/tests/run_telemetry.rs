//! Samples and marks of a run.

use candle_metal_kernels::run_telemetry::{
    accepted, compiled, engaged, mark, reset, sample, set_enabled, set_token, to_jsonl, Event,
    MemClass, Recorder,
};

#[test]
fn the_feature_off_build_records_nothing() {
    let mut r = Recorder::new(false);
    assert!(!compiled(&r));
    set_enabled(&mut r, true);
    set_token(&mut r, 7);
    sample(&mut r, 0, MemClass::Pool, 1234, 5, 6);
    mark(&mut r, 0, Event::Compaction, 1);
    assert_eq!(accepted(&r), 0);
    assert!(!engaged(&r));
    assert!(to_jsonl(&r, "r").is_empty());
}

#[test]
fn samples_and_marks_land_on_one_clock_with_a_token_index() {
    let mut r = Recorder::new(true);
    reset(&mut r);
    set_enabled(&mut r, true);
    set_token(&mut r, 42);
    sample(&mut r, 11, MemClass::Pool, 1000, 3, 200);
    mark(&mut r, 12, Event::Compaction, 598);
    let out = to_jsonl(&r, "run-x");

    assert!(out.contains("\"signal\":\"mem/pool/live_bytes\",\"value\":1000"));
    assert!(out.contains("\"signal\":\"mem/pool/pending_bytes\",\"value\":200"));
    assert!(out.contains("\"signal\":\"event/compaction\",\"value\":598"));
    assert!(out.contains("\"token\":42"));
    assert!(engaged(&r));
    reset(&mut r);
    set_enabled(&mut r, false);
}

#[test]
fn recording_is_off_until_enabled() {
    let mut r = Recorder::new(true);
    reset(&mut r);
    set_enabled(&mut r, false);
    sample(&mut r, 0, MemClass::Arena, 1, 1, 1);
    mark(&mut r, 0, Event::ArenaInstall, 0);
    assert_eq!(accepted(&r), 0);
    assert!(!engaged(&r));
}

#[test]
fn every_class_and_event_has_a_distinct_name() {
    let classes = [
        MemClass::Pool,
        MemClass::Arena,
        MemClass::Scratch,
        MemClass::Kv,
        MemClass::Residency,
    ];
    let mut names: Vec<&str> = classes.iter().map(|c| c.as_str()).collect();
    names.sort_unstable();
    let n = names.len();
    names.dedup();
    assert_eq!(names.len(), n);

    let events = [
        Event::CommandBufferCreate,
        Event::CommandBufferComplete,
        Event::EncoderSessionBegin,
        Event::EncoderSessionEnd,
        Event::ArenaInstall,
        Event::IcbPlanBuild,
        Event::Compaction,
        Event::TokenBoundary,
    ];
    let mut ev: Vec<&str> = events.iter().map(|e| e.as_str()).collect();
    ev.sort_unstable();
    let m = ev.len();
    ev.dedup();
    assert_eq!(ev.len(), m);
}

/// Three lines for a sample, one for a mark, samples first.
#[test]
fn a_series_reads_as_expected() {
    let mut r = Recorder::new(true);
    set_enabled(&mut r, true);
    mark(&mut r, 5, Event::TokenBoundary, 9);
    set_token(&mut r, 1);
    sample(&mut r, 6, MemClass::Kv, 7, 8, 0);
    assert_eq!(accepted(&r), 2);
    assert_eq!(
        to_jsonl(&r, "a"),
        "{\"run_id\":\"a\",\"t0_ns\":6,\"t1_ns\":6,\"signal\":\"mem/kv/live_bytes\",\"value\":7,\"unit\":\"bytes\",\"token\":1}\n\
         {\"run_id\":\"a\",\"t0_ns\":6,\"t1_ns\":6,\"signal\":\"mem/kv/live_count\",\"value\":8,\"unit\":\"count\",\"token\":1}\n\
         {\"run_id\":\"a\",\"t0_ns\":6,\"t1_ns\":6,\"signal\":\"mem/kv/pending_bytes\",\"value\":0,\"unit\":\"bytes\",\"token\":1}\n\
         {\"run_id\":\"a\",\"t0_ns\":5,\"t1_ns\":5,\"signal\":\"event/token_boundary\",\"value\":9,\"unit\":\"marker\",\"token\":0}\n"
    );
    reset(&mut r);
    assert!(to_jsonl(&r, "a").is_empty());
}
