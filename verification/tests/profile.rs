//! How long the device was busy, and with what.

use candle_metal_kernels::profile::{
    dispatches_of, enabled, record_command_buffer, record_dispatch, record_encoder, reset, snapshot,
    union_and_span, GpuInterval, Profile,
};

fn ns(seconds: f64) -> u64 {
    (seconds * 1e9) as u64
}

fn iv(start: f64, end: f64) -> GpuInterval {
    GpuInterval { start: ns(start), end: ns(end) }
}

#[test]
fn union_merges_overlapping_intervals() {
    let ivs = vec![iv(0.0, 2.0), iv(1.0, 3.0), iv(5.0, 6.0)];
    let (union, span) = union_and_span(&ivs);
    assert_eq!(union, ns(4.0));
    assert_eq!(span, ns(6.0));
}

#[test]
fn union_equals_sum_when_disjoint() {
    let ivs = vec![iv(0.0, 1.0), iv(2.0, 3.0)];
    let (union, span) = union_and_span(&ivs);
    assert_eq!(union, ns(2.0));
    assert_eq!(span, ns(3.0));
}

#[test]
fn union_is_order_independent() {
    let a = vec![iv(5.0, 6.0), iv(0.0, 2.0), iv(1.0, 3.0)];
    let b = vec![iv(0.0, 2.0), iv(1.0, 3.0), iv(5.0, 6.0)];
    assert_eq!(union_and_span(&a), union_and_span(&b));
}

#[test]
fn union_handles_containment() {
    let ivs = vec![iv(0.0, 10.0), iv(2.0, 3.0)];
    let (union, _) = union_and_span(&ivs);
    assert_eq!(union, ns(10.0));
}

#[test]
fn empty_is_zero() {
    assert_eq!(union_and_span(&[]), (ns(0.0), ns(0.0)));
}

/// The busy time is at most the sum of the intervals, and at most the time they span.
#[test]
fn union_is_bounded_by_sum_and_span() {
    let ivs = vec![iv(3.0, 9.0), iv(0.0, 2.0), iv(1.5, 4.0), iv(20.0, 20.0), iv(8.0, 8.5)];
    let (union, span) = union_and_span(&ivs);
    let sum: u64 = ivs.iter().map(|i| i.end - i.start).sum();
    assert_eq!(union, ns(9.0));
    assert_eq!(span, ns(20.0));
    assert!(union <= sum && union <= span);
}

/// A profile that is off counts nothing.
#[test]
fn a_profile_that_is_off_counts_nothing() {
    let mut p = Profile::new(None);
    assert!(!enabled(&p));
    record_dispatch(&mut p, "cos");
    record_encoder(&mut p);
    record_command_buffer(&mut p, 0, 10);
    let s = snapshot(&p);
    assert_eq!((s.dispatches, s.encoders, s.command_buffers), (0, 0, 0));
    assert!(s.by_label.is_empty());
}

/// Command buffers that carry no times are counted and not timed; labels come most frequent
/// first.
#[test]
fn a_profile_counts_what_it_is_told() {
    let mut p = Profile::new(Some("1"));
    assert!(enabled(&p));
    for label in ["mul", "add", "mul", "gemm", "mul", "add"] {
        record_dispatch(&mut p, label);
    }
    record_encoder(&mut p);
    record_command_buffer(&mut p, 100, 200);
    record_command_buffer(&mut p, 150, 300);
    record_command_buffer(&mut p, 0, 0);
    let s = snapshot(&p);
    assert_eq!(s.dispatches, 6);
    assert_eq!(s.encoders, 1);
    assert_eq!(s.command_buffers, 3);
    assert_eq!(s.timed_command_buffers, 2);
    assert_eq!(s.gpu_busy_sum_ns, 250);
    assert_eq!(s.gpu_busy_union_ns, 200);
    assert_eq!(s.gpu_span_ns, 200);
    let labels: Vec<(&str, usize)> =
        s.by_label.iter().map(|l| (l.name.as_str(), l.count)).collect();
    assert_eq!(labels, [("mul", 3), ("add", 2), ("gemm", 1)]);
    assert_eq!(dispatches_of(&p, "add"), 2);
    assert_eq!(dispatches_of(&p, "sub"), 0);
    reset(&mut p);
    assert!(enabled(&p));
    assert_eq!(snapshot(&p).dispatches, 0);
    assert!(snapshot(&p).by_label.is_empty());
}
