//! The buffers that are kept resident, and what it takes to change them.

use candle_metal_kernels::buffer::Buffer;
use candle_metal_kernels::residency_set::{ResidencyCounters, ResidencySet};

fn b(id: usize) -> Buffer {
    Buffer::new(id, 64, id * 0x1000)
}

/// A batch adds what is new, and commits once where there is anything.
#[test]
fn a_batch_is_committed_once() {
    let mut s = ResidencySet::new(true);
    assert!(s.is_empty());
    assert_eq!(s.insert_batch(&[b(1), b(2), b(1)]), [b(1), b(2)]);
    assert_eq!(s.len(), 2);
    assert_eq!(s.counters().commits, 1);
    assert_eq!(s.counters().added, 2);
    assert_eq!(s.insert_batch(&[b(1), b(2)]), [b(0); 0]);
    assert_eq!(s.counters().commits, 1);
    assert!(s.contains(&b(1)) && !s.contains(&b(3)));
}

/// What is removed is what was there.
#[test]
fn only_members_are_removed() {
    let mut s = ResidencySet::new(true);
    s.insert_batch(&[b(1), b(2), b(3)]);
    assert_eq!(s.remove_batch(&[b(2), b(9), b(2)]), [b(2)]);
    assert_eq!(s.remove(&b(9)), [b(0); 0]);
    assert_eq!(s.remove(&b(1)), [b(1)]);
    assert_eq!(s.len(), 1);
    assert_eq!(s.counters().removed, 2);
    assert_eq!(s.remove_all(), 1);
    assert!(s.is_empty());
}

/// A buffer that was retired is no member any more, and the device is told nothing.
#[test]
fn retiring_is_silent() {
    let mut s = ResidencySet::new(true);
    s.insert(&b(1));
    s.insert(&b(2));
    let commits = s.counters().commits;
    let n = s.retire_batch(&[b(1), b(9)]);
    assert_eq!(n, 1);
    assert_eq!(s.counters().retired, 1);
    assert!(!s.contains(&b(1)) && s.contains(&b(2)));
    assert_eq!(s.counters().commits, commits);
    s.reset_counters();
    assert_eq!(s.counters(), ResidencyCounters::default());
}

/// Where there is no set on the device nothing is kept.
#[test]
fn an_unavailable_set_keeps_nothing() {
    let mut s = ResidencySet::new(false);
    assert_eq!(s.insert(&b(1)), [b(0); 0]);
    assert_eq!(s.insert_batch(&[b(1), b(2)]), [b(0); 0]);
    assert_eq!(s.remove_batch(&[b(1)]), [b(0); 0]);
    assert_eq!(s.remove_all(), 0);
    assert!(s.is_empty());
}
