//! Whether configurations fit, against the figures of the machine they were measured on.

use candle_metal_kernels::admission::{
    planned_in_pool, prefill_activation_bytes, reconcile_weights, unplanned_bytes, Budget,
    PrefillGeometry, ACTIVATION_ARENA_BYTES, KV_BYTES_PER_TOKEN, OBSERVED_STRANDING_BYTES,
    WeightReconciliation, WEIGHT_RECONCILE_TOLERANCE,
};
use candle_metal_kernels::buffer_pool::PoolOccupancySnapshot;

/// The part of a working set that a process may claim.
fn part(working_set: u64) -> u64 {
    (working_set as f64 * 0.65) as u64
}

const GB: f64 = 1e9;
const MACHINE: u64 = 68_719_476_736;
const WEIGHTS_FULL: u64 = 6_254_000_000;

fn b1(capacity: u64, max_context: u64) -> Budget {
    Budget::new(WEIGHTS_FULL, capacity, max_context)
}

#[test]
fn kv_geometry_is_16384_not_16000() {
    assert_eq!(KV_BYTES_PER_TOKEN, 16_384);
    assert_ne!(KV_BYTES_PER_TOKEN, 16_000);
    let understated = 32 * (KV_BYTES_PER_TOKEN - 16_000) * 131_072;
    assert!((understated as f64 / GB - 1.61).abs() < 0.01);
}

#[test]
fn footprint_reconciles_with_design_9_5b() {
    let cases = [
        ("B=1 ctx 4k", 1, 4096, 4096, 6.591 - 0.268),
        ("B=1 ctx 32k", 1, 32768, 32768, 7.068 - 0.268),
        ("B=1 ctx 128k", 1, 131072, 131072, 8.705 - 0.268),
        ("B=16 ctx 128k", 16, 131072, 131072, 41.441 - 0.268),
    ];
    for (label, batch, cap, mc, expect_gb) in cases {
        let mut b = b1(cap, mc);
        b.batch = batch;
        let got = b.footprint().predicted() as f64 / GB;
        assert!((got - expect_gb).abs() < 0.01, "{label}: {got:.3} GB");
    }
}

#[test]
fn admits_a_configuration_that_fits_and_refuses_one_that_does_not() {
    let ok = b1(4096, 4096).evaluate(MACHINE, part(MACHINE));
    assert!(ok.fits);
    assert!(ok.residual > OBSERVED_STRANDING_BYTES);

    let mut over = b1(131_072, 131_072);
    over.batch = 32;
    let refused = over.evaluate(MACHINE, part(MACHINE));
    assert!(!refused.fits);
    assert!(refused.residual_signed() < 0);
    assert!(refused.footprint.kv as f64 / GB > 68.0);
}

#[test]
fn b16_ctx128k_fits_the_sum_and_is_tight_against_measured_stranding() {
    let mut b = b1(131_072, 131_072);
    b.batch = 16;
    let a = b.evaluate(MACHINE, part(MACHINE));

    assert!(a.fits);
    let share = a.footprint.predicted() as f64 / MACHINE as f64;
    assert!((share - 0.603).abs() < 0.01);

    assert!(a.is_tight());
    assert!((a.residual as f64 / GB - 3.495).abs() < 0.02);
    assert!(a.residual < OBSERVED_STRANDING_BYTES);
}

#[test]
fn residual_reconciles_with_design_9_5k() {
    let cases = [
        ("B=1 ctx 4k", 1, 4096, 4096, 38.345),
        ("B=1 ctx 128k", 1, 131072, 131072, 36.231),
        ("B=16 ctx 32k", 16, 32768, 32768, 29.680),
        ("B=16 ctx 128k", 16, 131072, 131072, 3.495),
    ];
    for (label, batch, cap, mc, expect_gb) in cases {
        let mut b = b1(cap, mc);
        b.batch = batch;
        let got = b.evaluate(MACHINE, part(MACHINE)).residual as f64 / GB;
        assert!((got - expect_gb).abs() < 0.02, "{label}: {got:.3} GB");
    }
}

#[test]
fn unplanned_subtracts_the_classes_the_pool_already_holds() {
    let f = b1(4096, 4096).footprint();
    let planned = planned_in_pool(&f);

    let occ = PoolOccupancySnapshot {
        live_bytes: planned as usize,
        free_bytes: 0,
        pending_bytes: 0,
        ..Default::default()
    };
    assert_eq!(unplanned_bytes(&occ, planned), 0);

    let strand = 21 * 1_000_000;
    let occ = PoolOccupancySnapshot {
        live_bytes: planned as usize,
        pending_bytes: strand as usize,
        ..Default::default()
    };
    assert_eq!(unplanned_bytes(&occ, planned), strand);
}

#[test]
fn unplanned_counts_free_and_pending_not_only_live() {
    let occ = PoolOccupancySnapshot {
        live_bytes: 100,
        free_bytes: 20,
        pending_bytes: 3,
        ..Default::default()
    };
    assert_eq!(unplanned_bytes(&occ, 100), 23);
    assert_eq!(unplanned_bytes(&occ, 10_000), 0);
}

const WEIGHTS_LANGUAGE: u64 = 5_394_397_184;
const VISION_TOWER: u64 = 825_299_424;

fn pool_holding(weights: u64) -> PoolOccupancySnapshot {
    PoolOccupancySnapshot {
        live_bytes: (weights + 42_000_000) as usize,
        ..Default::default()
    }
}

#[test]
fn a_caller_passing_the_language_figure_for_a_vl_load_is_caught() {
    let occ = pool_holding(WEIGHTS_LANGUAGE + VISION_TOWER);
    let r = reconcile_weights(WEIGHTS_LANGUAGE, &occ, 0, WEIGHT_RECONCILE_TOLERANCE);

    assert!(r.under_predicted());
    assert!(!r.over_predicted());
    assert!(!r.agrees());

    let short = r.divergence - 42_000_000;
    assert!((short - VISION_TOWER as i128).abs() < 1_000_000);
    assert!(r.describe().contains("UNDER-PREDICTED"));
}

#[test]
fn the_correct_caller_is_quiet_and_over_prediction_reads_as_over() {
    let occ = pool_holding(WEIGHTS_LANGUAGE);
    let right = reconcile_weights(WEIGHTS_LANGUAGE, &occ, 0, WEIGHT_RECONCILE_TOLERANCE);
    assert!(right.agrees());
    assert!(!right.under_predicted() && !right.over_predicted());

    let over = reconcile_weights(
        WEIGHTS_LANGUAGE + VISION_TOWER,
        &occ,
        0,
        WEIGHT_RECONCILE_TOLERANCE,
    );
    assert!(over.over_predicted());
    assert!(!over.under_predicted());
    assert!(over.describe().contains("over-predicted"));
}

#[test]
fn tolerance_cannot_hide_the_vision_tower() {
    assert!(WEIGHT_RECONCILE_TOLERANCE > 42_000_000 * 4);
    assert!((VISION_TOWER as f64 / WEIGHT_RECONCILE_TOLERANCE as f64) > 3.0);
    let occ = pool_holding(WEIGHTS_LANGUAGE);
    let r = reconcile_weights(WEIGHTS_LANGUAGE, &occ, 0, WEIGHT_RECONCILE_TOLERANCE);
    assert!(r.agrees());
}

#[test]
fn non_weight_classes_in_the_same_pool_are_subtracted() {
    let scratch = 33 * 1024 * 1024;
    let occ = pool_holding(WEIGHTS_LANGUAGE + scratch);

    let unsubtracted = reconcile_weights(WEIGHTS_LANGUAGE, &occ, 0, WEIGHT_RECONCILE_TOLERANCE);
    let subtracted =
        reconcile_weights(WEIGHTS_LANGUAGE, &occ, scratch, WEIGHT_RECONCILE_TOLERANCE);
    assert!(subtracted.agrees());
    assert_eq!(subtracted.divergence + scratch as i128, unsubtracted.divergence);

    let empty = PoolOccupancySnapshot::default();
    let early = reconcile_weights(WEIGHTS_LANGUAGE, &empty, 10_000, WEIGHT_RECONCILE_TOLERANCE);
    assert_eq!(early.observed, 0);
    assert!(!early.under_predicted());
}

#[test]
fn scratch_uses_query_heads_and_reconciles_with_9_1a() {
    let f = b1(131_072, 131_072).footprint();
    let mib = f.scratch as f64 / (1024.0 * 1024.0);
    assert!((mib - 33.0).abs() < 0.1);
    let with_kv_heads = mib / 4.0;
    assert!((with_kv_heads - 8.25).abs() < 0.1);
}

#[test]
fn refusal_reports_the_arithmetic_and_names_the_dominant_class() {
    let mut b = b1(131_072, 131_072);
    b.batch = 32;
    let a = b.evaluate(MACHINE, part(MACHINE));
    let msg = a.describe("0.65");
    assert!(msg.contains("memory budget exceeded"));
    assert!(msg.contains("KV"));
    assert!(msg.contains("<- dominant"));
    assert!(msg.contains("reductions that would fit"));
    let ok = b1(4096, 4096).evaluate(MACHINE, part(MACHINE)).describe("0.65");
    assert!(ok.contains("memory budget OK"));
    assert!(ok.contains("residual"));
}

const RMWSS: u64 = 55_663_000_000;

#[test]
fn decode_activation_term_is_unmoved_at_68kb() {
    for batch in [1, 8, 16, 32] {
        let got = prefill_activation_bytes(1, batch, PrefillGeometry::default());
        assert_eq!(got, batch * ACTIVATION_ARENA_BYTES);
    }
    let f = b1(4096, 4096).footprint();
    assert_eq!(f.activations, ACTIVATION_ARENA_BYTES);
}

#[test]
fn prefill_activation_term_reconciles_with_design_13_4c() {
    let cases = [
        (1536u64, 23.7426_f64, 11.46_f64),
        (2048, 30.5205, 11.4614),
    ];
    for (p, peak_gb, floor_gb) in cases {
        let measured = peak_gb - floor_gb;
        let predicted = prefill_activation_bytes(p, 1, PrefillGeometry::default()) as f64 / GB;
        let ratio = predicted / measured;
        assert!((0.80..=1.20).contains(&ratio));
    }
}

#[test]
fn one_score_matrix_is_not_the_activation_term() {
    let p = 2048;
    let one_tensor = 32 * p * p * 4;
    assert!((one_tensor as f64 / GB - 0.537).abs() < 0.001);
    let whole = prefill_activation_bytes(p, 1, PrefillGeometry::default());
    let factor = whole as f64 / one_tensor as f64;
    assert!(factor > 30.0);
}

#[test]
fn the_activation_term_is_quadratic_in_seq_len() {
    let g = PrefillGeometry::default();
    let a = prefill_activation_bytes(1024, 1, g) as f64;
    let b = prefill_activation_bytes(2048, 1, g) as f64;
    let c = prefill_activation_bytes(4096, 1, g) as f64;
    assert!(b / a > 2.5);
    assert!(c / b > b / a);
}

#[test]
fn prefill_at_4096_is_refused_and_2048_is_admitted() {
    let mut over = b1(4096, 4096).with_prefill(4096);
    over.weights = 5_394_397_184;
    let a = over.evaluate(RMWSS, part(RMWSS));
    assert!(!a.fits);

    let mut ran = b1(4096, 4096).with_prefill(2048);
    ran.weights = 5_394_397_184;
    let ok = ran.evaluate(RMWSS, part(RMWSS));
    assert!(ok.fits);
    let predicted_gb = ok.footprint.predicted() as f64 / GB;
    let measured_peak_gb = 30.5205;
    let gap = measured_peak_gb - predicted_gb;
    assert!((4.0..=9.0).contains(&gap));
}

#[test]
fn an_activation_refusal_names_a_chunk_size_that_fits() {
    let mut b = b1(4096, 4096).with_prefill(8192);
    b.weights = 5_394_397_184;
    let a = b.evaluate(RMWSS, part(RMWSS));
    assert!(!a.fits);
    let msg = a.describe("0.65");
    assert!(msg.contains("act") && msg.contains("<- dominant"));
    assert!(msg.contains("chunk the prefill at"));

    let chunk: u64 = msg
        .split("chunk the prefill at ")
        .nth(1)
        .and_then(|s| s.split_whitespace().next())
        .and_then(|s| s.parse().ok())
        .expect("the message states a chunk size");
    assert!((1..8192).contains(&chunk));
    let chunked = b.with_prefill(chunk).evaluate(RMWSS, part(RMWSS));
    assert!(chunked.fits);
    let over = b.with_prefill(chunk + 1).evaluate(RMWSS, part(RMWSS));
    assert!(!over.fits);
}

#[test]
fn the_gqa_expansion_and_the_f32_upcast_are_counted() {
    let g = PrefillGeometry::default();
    let p = 2048u64;
    let whole = prefill_activation_bytes(p, 1, g) as f64;

    let heads = 32 * p * 64;
    let expect = (8 * (2 * heads * 2 + 3 * heads * 4)) as f64;
    assert!((expect / 1e9 - 0.537).abs() < 0.01);

    let share = expect / whole;
    assert!((0.02..0.04).contains(&share));

    let at = |q: u64| prefill_activation_bytes(q, 1, g) as f64;
    let (p1, p2) = (1024.0_f64, 2048.0_f64);
    let (y1, y2) = (at(1024), at(2048));
    let a = (y2 / p2 - y1 / p1) / (p2 - p1);
    let b = y1 / p1 - a * p1;
    let heads_per_token = (8 * (2 * 32 * 64 * 2 + 3 * 32 * 64 * 4)) as f64;
    assert_eq!(heads_per_token, 262_144.0);
    assert!((b - 2_803_712.0).abs() < 1.0);
    assert!((a - 3080.0).abs() < 1.0);
}

#[test]
fn the_query_head_count_is_what_sizes_the_score_matrix() {
    let g = PrefillGeometry::default();
    assert_eq!(g.query_heads, 32);
    let correct = prefill_activation_bytes(2048, 1, g);
    let wrong = prefill_activation_bytes(
        2048,
        1,
        PrefillGeometry {
            query_heads: 8,
            ..g
        },
    );
    let whole = correct as f64 / wrong as f64;
    assert!((2.0..2.4).contains(&whole));

    let p = 2048u64;
    let scores_32 = 32 * p * p * 4;
    let scores_8 = 8 * p * p * 4;
    assert_eq!(scores_32 / scores_8, 4);
}
fn gb(b: u64) -> f64 {
    b as f64 / 1e9
}

/// The report of an admission, word for word.
#[test]
fn an_admission_reports_the_residual() {
    let a = b1(4096, 4096).evaluate(MACHINE, part(MACHINE));
    let expected = format!(
        "memory budget OK: predicted peak {:.2} GB, budget {:.2} GB\n  residual {:.2} GB   for pool, intermediates, and anything unplanned\n{:>24}(§6.3b's stranding is {:.2} GB over 400 tokens)",
        gb(a.footprint.predicted()),
        gb(a.budget),
        gb(a.residual),
        "",
        gb(OBSERVED_STRANDING_BYTES),
    );
    assert_eq!(a.describe("0.65"), expected);

    let mut b = b1(131_072, 131_072);
    b.batch = 16;
    assert!(b
        .evaluate(MACHINE, part(MACHINE))
        .describe("0.65")
        .ends_with("\n  TIGHT: the residual is below a stranding figure this project has measured."));
}

/// The report of a refusal, word for word, with and without an offer of chunks.
#[test]
fn a_refusal_reports_classes_and_offers() {
    let mut wide = b1(131_072, 131_072);
    wide.batch = 32;
    let mut long = b1(4096, 4096).with_prefill(8192);
    long.weights = WEIGHTS_LANGUAGE;
    for (b, machine, dominant, chunk) in [(wide, MACHINE, "KV", None), (long, RMWSS, "act", Some(()))] {
        let a = b.evaluate(machine, part(machine));
        let f = a.footprint;
        let mut s = format!(
            "memory budget exceeded: predicted peak {:.2} GB > budget {:.2} GB\n  ({:.2} x recommendedMaxWorkingSetSize = {:.2} GB)\n",
            gb(f.predicted()),
            gb(a.budget),
            0.65,
            gb(a.working_set),
        );
        for (name, bytes) in [
            ("weights", f.weights),
            ("KV", f.kv),
            ("scratch", f.scratch),
            ("conv", f.conv),
            ("act", f.activations),
        ] {
            let mark = if name == dominant { "   <- dominant" } else { "" };
            s.push_str(&format!("    {name:<9} {:>7.2} GB{mark}\n", gb(bytes)));
        }
        s.push_str(&format!(
            "  residual {:>7.2} GB   budget - predicted   <- NEGATIVE: nothing left to allocate into\n",
            a.residual_signed() as f64 / 1e9,
        ));
        s.push_str("  reductions that would fit, in order of what they cost:\n");
        if chunk.is_some() {
            let lo = a.longest_chunk();
            s.push_str(&format!(
                "    chunk the prefill at {lo} tokens   frees {:>6.2} GB   (§13.2b; kv_len grows by chunk, §4.1)\n",
                gb(f.activations - prefill_activation_bytes(lo, a.batch, a.prefill_geometry)),
            ));
        }
        s.push_str(&format!(
            "    halve max_context             frees {:>6.2} GB\n",
            gb(f.kv / 2 + f.scratch / 2),
        ));
        s.push_str(&format!(
            "    halve B                       frees {:>6.2} GB\n",
            gb((f.kv + f.conv + f.activations + f.scratch) / 2),
        ));
        s.push_str("    scratch Reserve -> Grow       (see §9.1a)\n");
        s.push_str("    text-only (no vision tower)   frees   0.86 GB   (#162)\n");
        assert_eq!(a.describe("0.65"), s);
    }
}

/// A configuration with no class but the activations, for a geometry of one attention layer.
fn activations_alone(max_seq_len: u64) -> Budget {
    let mut b = Budget::new(0, 0, 0);
    b.conv_state_bytes = 0;
    b.partials.n_heads = 0;
    b.max_seq_len = max_seq_len;
    b.prefill_geometry = PrefillGeometry {
        attention_layers: 1,
        conv_layers: 0,
        query_heads: 1,
        head_dim: 1,
        hidden: 0,
        intermediate: 0,
    };
    b
}

/// A chunk is offered where it fits, though one token of this geometry would take more than the
/// whole pass.
#[test]
fn a_chunk_is_offered_where_one_token_takes_more() {
    let b = activations_alone(10);
    let a = b.evaluate(2000, 1000);
    assert!(!a.fits);
    assert_eq!(a.footprint.activations, 1480);
    assert_eq!(a.footprint.predicted(), 1480);
    assert!(prefill_activation_bytes(1, 1, a.prefill_geometry) > 1480);
    assert_eq!(a.longest_chunk(), 8);
    assert_eq!(prefill_activation_bytes(8, 1, a.prefill_geometry), 976);
    let msg = a.describe("0.50");
    assert!(msg.contains(
        "    chunk the prefill at 8 tokens   frees   0.00 GB   (§13.2b; kv_len grows by chunk, §4.1)\n"
    ));
}

/// No chunk is offered where none fits: neither one of a single token that does not, nor one
/// beside classes that are over the budget by themselves.
#[test]
fn no_chunk_is_offered_where_none_fits() {
    let a = activations_alone(10).evaluate(200, 40);
    assert!(!a.fits);
    assert_eq!(a.longest_chunk(), 1);
    let msg = a.describe("0.20");
    assert!(msg.contains("<- dominant"));
    assert!(!msg.contains("chunk the prefill"));
    assert!(msg.contains("reductions that would fit, in order of what they cost:\n    halve max_context"));

    let mut b = activations_alone(10);
    b.weights = 1400;
    let a = b.evaluate(2000, 1000);
    assert!(!a.fits);
    assert!(!a.describe("0.50").contains("chunk the prefill"));
}

/// The dominant class is the last of those as large.
#[test]
fn of_classes_as_large_the_last_is_dominant() {
    let mut b = Budget::new(0, 0, 0);
    b.conv_state_bytes = 0;
    b.max_seq_len = 1;
    let mut a = b.evaluate(100, 0);
    a.footprint.weights = a.footprint.activations;
    let msg = a.describe("0.00");
    assert!(msg.contains("    act          0.00 GB   <- dominant\n"));
    assert_eq!(msg.matches("<- dominant").count(), 1);
}

/// The reports of a reconciliation, word for word.
#[test]
fn a_reconciliation_reports_both_directions() {
    let head = |r: &WeightReconciliation| {
        format!(
            "weight prediction {:.3} GB against {:.3} GB allocated (divergence {:+.3} GB, tolerance {:.3} GB)",
            r.predicted as f64 / 1e9,
            r.observed as f64 / 1e9,
            r.divergence as f64 / 1e9,
            r.tolerance as f64 / 1e9,
        )
    };
    let occ = pool_holding(WEIGHTS_LANGUAGE);
    let right = reconcile_weights(WEIGHTS_LANGUAGE, &occ, 0, WEIGHT_RECONCILE_TOLERANCE);
    assert_eq!(right.describe(), head(&right));
    let over = reconcile_weights(
        WEIGHTS_LANGUAGE + VISION_TOWER,
        &occ,
        0,
        WEIGHT_RECONCILE_TOLERANCE,
    );
    assert!(over.describe().starts_with(&head(&over)));
    assert!(over.describe().ends_with("is long by 0.825 GB (#162)."));
    let under = reconcile_weights(1_000, &occ, 0, WEIGHT_RECONCILE_TOLERANCE);
    assert!(under.describe().starts_with(&head(&under)));
    assert!(under.describe().ends_with("is short by 0.825 GB (#162)."));
}

/// Any divergence is reported, with the words for its direction and a second line for neither.
#[test]
fn any_divergence_is_reported() {
    for divergence in [i128::MIN, -(1 << 100), -11, -10, 0, 10, 11, 1 << 100, i128::MAX] {
        let r = WeightReconciliation { predicted: 1, observed: 2, divergence, tolerance: 10 };
        let said = r.describe();
        assert!(said.contains(&format!("(divergence {:+.3} GB,", divergence as f64 / 1e9)), "{said}");
        assert_eq!(said.contains("UNDER-PREDICTED"), r.under_predicted());
        assert_eq!(said.contains("over-predicted"), r.over_predicted());
        assert_eq!(said.contains('\n'), !r.agrees());
    }
}

/// A pass over more tokens never takes less, and one token takes the measured arena.
#[test]
fn longer_passes_take_more() {
    let g = PrefillGeometry::default();
    let mut last = prefill_activation_bytes(1, 3, g);
    for p in 2..200 {
        let now = prefill_activation_bytes(p, 3, g);
        assert!(now > last);
        last = now;
    }
    assert_eq!(prefill_activation_bytes(2048, 1, g), 3080 * 2048 * 2048 + 2_803_712 * 2048);
}

/// A footprint that 64 bits do not hold is told from one that they do.
#[test]
fn an_uncountable_footprint_is_recognised() {
    let b = b1(131_072, 131_072);
    assert!(b.is_countable());
    let mut wide = b;
    wide.batch = u64::MAX;
    assert!(!wide.is_countable());
    let mut long = b.with_prefill(u64::MAX);
    assert!(!long.is_countable());
    long.max_seq_len = 131_072;
    assert!(long.is_countable());
    let mut heavy = b;
    heavy.weights = u64::MAX;
    assert!(!heavy.is_countable());
    let mut unsplit = b;
    unsplit.partials.chunk_tokens = 0;
    assert!(!unsplit.is_countable());
    let mut empty = b;
    empty.batch = 0;
    empty.weights = u64::MAX;
    assert!(empty.is_countable());
}
