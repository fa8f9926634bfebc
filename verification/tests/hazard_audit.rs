//! Whether every dependency between dispatches is ordered by something.

use candle_metal_kernels::encoder::{BoundRange, HazardKind, HazardKinds};
use candle_metal_kernels::hazard_audit::{
    begin, cover, finish, record_barrier, record_barrier_suppressed, record_binding,
    record_dispatch, record_encoder_begin, AuditBinding, AuditDispatch, AuditReport, AuditState,
    LISTED,
};

const SLOT: usize = 0x1000;

fn bind(is_output: bool) -> AuditBinding {
    AuditBinding {
        ptr: SLOT,
        offset: 0,
        len: 128,
        is_output,
    }
}

fn d(seq: u64, is_output: bool) -> AuditDispatch {
    AuditDispatch {
        seq,
        kernel: format!("k{seq}"),
        bindings: vec![bind(is_output)],
        barrier: false,
        kinds: HazardKinds::none(),
        barrier_suppressed: false,
        encoder: 0,
        run: None,
        is_run_head: false,
        icb_barrier: false,
    }
}

#[test]
fn the_three_directions_are_detected_and_rar_is_not_a_hazard() {
    let raw = cover("raw", &[d(0, true), d(1, false)]);
    assert_eq!(raw.edges, 1);
    assert_eq!(raw.edges_raw, 1);

    let waw = cover("waw", &[d(0, true), d(1, true)]);
    assert_eq!(waw.edges_waw, 1);

    let war = cover("war", &[d(0, false), d(1, true)]);
    assert_eq!(war.edges_war, 1);

    let rar = cover("rar", &[d(0, false), d(1, false)]);
    assert_eq!(rar.edges, 0);
}

#[test]
fn overlap_decides_an_edge_and_an_unknown_extent_fails_toward_reporting() {
    let mut lo = d(0, true);
    lo.bindings = vec![AuditBinding {
        ptr: SLOT,
        offset: 0,
        len: 128,
        is_output: true,
    }];
    let mut hi = d(1, true);
    hi.bindings = vec![AuditBinding {
        ptr: SLOT,
        offset: 128,
        len: 128,
        is_output: true,
    }];
    assert_eq!(cover("adjacent", &[lo.clone(), hi.clone()]).edges, 0);

    let mut overlapping = hi.clone();
    overlapping.bindings[0].offset = 127;
    assert_eq!(cover("overlapping", &[lo.clone(), overlapping]).edges, 1);

    let mut unknown = hi.clone();
    unknown.bindings[0].len = 0;
    assert_eq!(cover("unknown-extent", &[lo, unknown]).edges, 1);

    let mut other_buffer = d(1, true);
    other_buffer.bindings = vec![AuditBinding {
        ptr: SLOT + 0x10000,
        offset: 0,
        len: 0,
        is_output: true,
    }];
    assert_eq!(cover("other-buffer", &[d(0, true), other_buffer]).edges, 0);
}

#[test]
fn a_surviving_fence_covers_an_edge_and_its_absence_is_reported() {
    let w = d(0, true);
    let mut r = d(1, false);

    r.barrier = true;
    r.kinds = {
        let mut k = HazardKinds::none();
        k.insert(HazardKind::Raw);
        k
    };
    let good = cover("fence", &[w.clone(), r.clone()]);
    assert_eq!(good.by_barrier, 1);
    assert!(good.is_clean());
    assert_eq!(good.barriers_raw, 1);

    r.barrier = false;
    let bad = cover("no-fence", &[w, r]);
    assert_eq!(bad.uncovered.len(), 1);
    assert_eq!(bad.uncovered[0].kind, HazardKind::Raw);
}

#[test]
fn a_fence_orders_across_an_interleaved_gap_position() {
    let mut gap = d(1, false);
    gap.bindings = vec![AuditBinding {
        ptr: SLOT + 0x10000,
        offset: 0,
        len: 128,
        is_output: false,
    }];

    let w = d(0, true);
    let mut r = d(2, false);
    r.barrier = true;

    let rep = cover("interleaved", &[w, gap, r]);
    assert!(rep.is_clean());
    assert_eq!(rep.by_barrier, 1);
}

#[test]
fn a_session_seam_covers_an_edge_and_removing_it_is_visible() {
    let w = d(0, true);
    let mut r = d(1, false);
    r.encoder = 1;
    assert!(!r.barrier);

    let good = cover("seam", &[w.clone(), r.clone()]);
    assert_eq!(good.by_seam, 1);
    assert!(good.is_clean());

    let mut r_same = r;
    r_same.encoder = 0;
    let bad = cover("seam-removed", &[w, r_same]);
    assert_eq!(bad.uncovered.len(), 1);
}

#[test]
fn the_icb_set_barrier_covers_within_a_run_and_every_condition_is_load_bearing() {
    let mut w = d(0, true);
    w.run = Some(0);
    w.is_run_head = true;

    let mut r = d(1, false);
    r.run = Some(0);
    r.icb_barrier = true;
    r.barrier_suppressed = true;

    let good = cover("icb", &[w.clone(), r.clone()]);
    assert_eq!(good.by_icb, 1);
    assert!(good.is_clean());
    assert_eq!(good.barriers_suppressed, 1);

    let mut no_barrier = r.clone();
    no_barrier.icb_barrier = false;
    assert_eq!(cover("icb-off", &[w.clone(), no_barrier]).uncovered.len(), 1);

    let mut head = r.clone();
    head.is_run_head = true;
    assert_eq!(cover("icb-head", &[w.clone(), head]).uncovered.len(), 1);

    let mut other_run = r;
    other_run.run = Some(1);
    assert_eq!(cover("icb-cross-run", &[w, other_run]).uncovered.len(), 1);
}

#[test]
fn the_run_heads_mutation_is_reported_where_the_digest_gate_is_blind() {
    let mk = |seq: u64, out: bool, head: bool| {
        let mut x = d(seq, out);
        x.run = Some(0);
        x.is_run_head = head;
        x.icb_barrier = !head;
        x
    };

    let mut head = mk(0, true, true);
    head.barrier = true;
    head.kinds = {
        let mut k = HazardKinds::none();
        k.insert(HazardKind::Waw);
        k
    };
    let mut a = mk(1, false, false);
    a.barrier_suppressed = true;
    let mut b = mk(2, true, false);
    b.barrier_suppressed = true;

    let good = cover("proposal", &[head.clone(), a.clone(), b.clone()]);
    assert!(good.is_clean());
    assert_eq!(good.barriers_suppressed, 2);
    assert_eq!(good.barriers_waw, 1);

    let mut gap_writer = d(0, true);
    gap_writer.seq = 0;
    let mut head_suppressed = head;
    head_suppressed.seq = 1;
    head_suppressed.barrier = false;
    head_suppressed.barrier_suppressed = true;
    let mut a2 = a;
    a2.seq = 2;
    let mut b2 = b;
    b2.seq = 3;

    let bad = cover("run-heads-mutation", &[gap_writer, head_suppressed, a2, b2]);
    assert!(!bad.is_clean());
}

#[test]
fn barriers_are_attributed_by_direction() {
    let mut raw_barrier = d(1, false);
    raw_barrier.barrier = true;
    raw_barrier.kinds = {
        let mut k = HazardKinds::none();
        k.insert(HazardKind::Raw);
        k
    };

    let mut both = d(3, true);
    both.barrier = true;
    both.kinds = {
        let mut k = HazardKinds::none();
        k.insert(HazardKind::Waw);
        k.insert(HazardKind::War);
        k
    };

    let rep = cover("attribution", &[d(0, true), raw_barrier, d(2, false), both]);
    assert_eq!(rep.barriers, 2);
    assert_eq!(rep.barriers_raw, 1);
    assert_eq!(rep.barriers_waw, 1);
    assert_eq!(rep.barriers_war, 1);
    assert_eq!(rep.barriers_raw + rep.barriers_waw + rep.barriers_war, 3);
    assert_eq!(rep.barriers, 2);
}

fn bound(offset: usize) -> BoundRange {
    BoundRange { ptr: SLOT, offset, len: 128 }
}

/// A recording is audited as it was recorded; what came before it is not attributed to it.
#[test]
fn a_recording_is_audited() {
    let mut s = AuditState::new();
    record_binding(&mut s, &bound(0), true);
    record_dispatch(&mut s, "before");
    begin(&mut s, "decode");
    record_binding(&mut s, &bound(0), true);
    record_dispatch(&mut s, "writer");
    record_binding(&mut s, &bound(0), false);
    record_binding(&mut s, &bound(4096), true);
    record_dispatch(&mut s, "reader");
    record_encoder_begin(&mut s);
    record_binding(&mut s, &bound(0), false);
    record_dispatch(&mut s, "later");
    let rep = finish(&mut s, &[]);
    assert_eq!(rep.positions, 3);
    assert_eq!(rep.edges, 2);
    assert_eq!(rep.by_seam, 1);
    assert_eq!(rep.uncovered.len(), 1);
    assert_eq!(
        rep.render(),
        "region=decode positions=3 edges=2 (raw=2 waw=0 war=0)\n  \
         barriers=0 (raw=0 waw=0 war=0) suppressed=0\n  \
         cover: barrier=0 seam=1 icb=0  UNCOVERED=1\n    \
         !! #0 writer -> #1 reader  raw buf=0x1000 off=0 len=128\n"
    );
    assert_eq!(finish(&mut s, &[]).positions, 0);
}

/// A barrier that was held back is covered by the command that replaces its dispatch.
#[test]
fn a_replayed_position_is_ordered_by_its_command() {
    for (icb_barrier, clean) in [(true, true), (false, false)] {
        let mut s = AuditState::new();
        begin(&mut s, "replay");
        record_binding(&mut s, &bound(0), true);
        record_dispatch(&mut s, "head");
        record_binding(&mut s, &bound(0), false);
        record_barrier_suppressed(&mut s);
        record_dispatch(&mut s, "body");
        let rep = finish(&mut s, &[(0, 4, true, false), (1, 4, false, icb_barrier), (9, 4, false, true)]);
        assert_eq!(rep.is_clean(), clean);
        assert_eq!(rep.barriers_suppressed, 1);
        assert_eq!(rep.by_icb, if clean { 1 } else { 0 });
    }
}

/// A barrier that was emitted is counted under its directions, and covers.
#[test]
fn an_emitted_barrier_covers() {
    let mut s = AuditState::new();
    begin(&mut s, "fenced");
    record_binding(&mut s, &bound(0), false);
    record_dispatch(&mut s, "a");
    record_binding(&mut s, &bound(0), true);
    let mut kinds = HazardKinds::none();
    kinds.insert(HazardKind::War);
    record_barrier(&mut s, kinds);
    record_dispatch(&mut s, "b");
    let rep = finish(&mut s, &[]);
    assert!(rep.is_clean());
    assert_eq!((rep.barriers, rep.barriers_war, rep.by_barrier), (1, 1, 1));
}

/// Every edge is of one direction, and is covered once or reported.
#[test]
fn every_edge_is_accounted_for() {
    let mut ds = Vec::new();
    for seq in 0..12u64 {
        let mut x = d(seq, seq % 3 == 0);
        x.barrier = seq == 5;
        x.encoder = seq / 8;
        ds.push(x);
    }
    let rep = cover("mixed", &ds);
    assert_eq!(rep.edges, rep.edges_raw + rep.edges_waw + rep.edges_war);
    assert_eq!(rep.edges, rep.by_barrier + rep.by_seam + rep.by_icb + rep.uncovered.len());
    assert!(rep.uncovered.len() > 0);
}

/// What is dispatched before a session and after it is ordered by the seam, not by an indirect
/// command; what stands on one side of it is judged as without it.
#[test]
fn a_session_separates() {
    let stream = |with_session: bool, runs: &[(usize, u64, bool, bool)]| {
        let mut s = AuditState::new();
        begin(&mut s, "r");
        for i in 0..4 {
            if i == 2 && with_session {
                record_encoder_begin(&mut s);
            }
            record_binding(&mut s, &bound(0), true);
            record_dispatch(&mut s, "k");
        }
        assert_eq!(s.recorded(), 4);
        assert_eq!(s.sessions(), u64::from(with_session));
        finish(&mut s, runs)
    };

    let joined = stream(false, &[]);
    assert_eq!((joined.edges, joined.by_seam, joined.uncovered.len()), (6, 0, 6));
    let parted = stream(true, &[]);
    assert_eq!((parted.edges, parted.by_seam, parted.uncovered.len()), (6, 4, 2));

    let runs: Vec<(usize, u64, bool, bool)> = (0..4).map(|p| (p, 7, p == 0, true)).collect();
    let joined = stream(false, &runs);
    assert_eq!((joined.by_icb, joined.by_seam, joined.uncovered.len()), (6, 0, 0));
    let parted = stream(true, &runs);
    assert_eq!((parted.by_icb, parted.by_seam, parted.uncovered.len()), (2, 4, 0));
}

/// A long list of findings is cut, and says so.
#[test]
fn a_long_list_is_cut() {
    let ds: Vec<AuditDispatch> = (0..10).map(|seq| d(seq, true)).collect();
    let rep = cover("many", &ds);
    assert_eq!(rep.uncovered.len(), 45);
    let text = rep.render();
    assert_eq!(text.lines().count(), 3 + LISTED + 1);
    assert!(text.ends_with("    ... and 5 more\n"));
    assert!(AuditReport::default().is_clean());
    assert_eq!(AuditReport::default().edges, 0);
}

/// There are never more edges than pairs of positions.
#[test]
fn edges_are_pairs_of_positions() {
    for n in 0..8u64 {
        let ds: Vec<AuditDispatch> = (0..n).map(|seq| d(seq, true)).collect();
        assert_eq!(cover("all", &ds).edges as u64, n * n.saturating_sub(1) / 2);
    }
}
