//! Numbers and words as they are printed.

use candle_metal_kernels::device::{
    device_type, note_pipeline_built, pipelines_support_icb, set_pipelines_support_icb,
    MetalDeviceType, PipelineSupport,
};
use candle_metal_kernels::scratch::PartialsGeometry;
use candle_metal_kernels::tally::{comes_before, same, Tally};
use candle_metal_kernels::text::{
    is_switch_on, parse_usize, push_decimal, push_gb, push_gb_right, push_hex, push_left,
    push_right, push_signed_gb, push_spaces, push_u64, push_usize,
};

fn gb(n: u128, places: u8) -> String {
    let mut s = String::new();
    push_gb(&mut s, n, places);
    s
}

/// Bytes in gigabytes read as the formatter of floating-point numbers writes them.
#[test]
fn gigabytes_read_like_formatted_floats() {
    let mut values: Vec<u64> = vec![
        0, 1, 4_999_999, 5_000_000, 5_000_001, 15_000_000, 25_000_000, 499_999, 500_000, 500_001,
        1_500_000, 2_500_000, 999_499_999, 999_500_000, 999_999_999, 1_000_000_000, 1_005_000_000,
        6_254_000_000, 2_147_483_648, 41_441_000_000, 68_719_476_736, 9_007_199_254_740_992,
        9_007_199_254_740_993, u64::MAX - 1, u64::MAX,
    ];
    let mut x: u64 = 0x9e37_79b9_7f4a_7c15;
    for i in 0..4000u32 {
        x ^= x << 13;
        x ^= x >> 7;
        x ^= x << 17;
        values.push(x >> (i % 64));
        values.push((x >> 24) / 1_000_000 * 1_000_000 + 500_000);
        values.push((x >> 28) / 10_000_000 * 10_000_000 + 5_000_000);
    }
    for v in values {
        assert_eq!(gb(v as u128, 2), format!("{:.2}", v as f64 / 1e9), "{v}");
        assert_eq!(gb(v as u128, 3), format!("{:.3}", v as f64 / 1e9), "{v}");
    }
}

#[test]
fn signed_gigabytes_carry_their_sign() {
    for v in [0i128, -1, -499_999, -500_001, 1_234_567_890, -1_234_567_890, 2_500_000_000] {
        let mut s = String::new();
        push_signed_gb(&mut s, v, 3);
        assert_eq!(s, format!("{:+.3}", v as f64 / 1e9), "{v}");
    }
}

/// Every number of 128 bits with a sign, up to those whose gigabytes a double rounds to whole ones.
#[test]
fn signed_gigabytes_cover_every_number() {
    let mut values: Vec<i128> = vec![
        i128::MAX,
        i128::MAX - 1,
        i128::MIN,
        i128::MIN + 1,
        1 << 66,
        (1 << 66) + 1,
        (1 << 53) * 1_000_000_000,
        (1 << 53) * 1_000_000_000 - 1,
        (1 << 53) * 1_000_000_000 + 1_000_000_000,
        (1 << 54) * 1_000_000_000 + 3_000_000_000,
        -(1 << 52) * 1_000_000_000,
    ];
    let mut x: u128 = 0x9e37_79b9_7f4a_7c15_f39c_c060_5ced_c835;
    for i in 0..4000u32 {
        x ^= x << 23;
        x ^= x >> 17;
        x ^= x << 45;
        let v = (x >> (1 + i % 127)) as i128;
        values.push(v);
        values.push(-v);
    }
    for v in values {
        let mut s = String::new();
        push_signed_gb(&mut s, v, 3);
        assert_eq!(s, format!("{:+.3}", v as f64 / 1e9), "{v}");
    }
}

#[test]
fn integers_read_in_full() {
    for v in [0u128, 9, 10, 12345, u64::MAX as u128, u128::MAX] {
        let mut s = String::from("n=");
        push_decimal(&mut s, v);
        assert_eq!(s, format!("n={v}"));
    }
    for v in [0usize, 15, 16, 0xdead_beef, usize::MAX] {
        let mut s = String::new();
        push_hex(&mut s, v);
        s.push(' ');
        push_usize(&mut s, v);
        assert_eq!(s, format!("{v:x} {v}"));
    }
    let mut s = String::new();
    push_u64(&mut s, u64::MAX);
    assert_eq!(s, "18446744073709551615");
}

#[test]
fn columns_are_padded_and_never_cut() {
    let mut s = String::new();
    push_left(&mut s, "ab", 4);
    push_right(&mut s, "cd", 4);
    push_left(&mut s, "abcdef", 4);
    push_right(&mut s, "abcdef", 4);
    push_spaces(&mut s, 2);
    assert_eq!(s, format!("{:<4}{:>4}{:<4}{:>4}  ", "ab", "cd", "abcdef", "abcdef"));
    let mut s = String::new();
    push_gb_right(&mut s, 6_254_000_000, 9);
    assert_eq!(s, format!("{:>9.2}", 6.254));
}

/// A number is read as the standard library reads it.
#[test]
fn numbers_are_read_like_parsed() {
    for word in [
        "", "0", "7", "+7", "-7", "-0", "+", "-", "007", " 7", "7 ", "1_000", "seven", "7x", "١",
        "18446744073709551615", "18446744073709551616", "99999999999999999999",
    ] {
        assert_eq!(parse_usize(word), word.parse::<usize>().ok(), "{word:?}");
    }
}

#[test]
fn switches_are_on_where_they_say_so() {
    for word in ["1", "yes", "on", "true", "TRUE", " 1 ", "\tOn\n", "\u{2003}Yes"] {
        assert!(is_switch_on(word), "{word:?}");
    }
    for word in ["", "0", "off", "no", "false", "2", "11", "tru", "o n", "  ", "\u{212a}"] {
        assert!(!is_switch_on(word), "{word:?}");
    }
}

/// Names count up, and stand in order.
#[test]
fn a_tally_keeps_names_in_order() {
    let mut t = Tally::new();
    for name in ["b", "a", "b", "aa", "", "b"] {
        t.count(name);
    }
    let entries: Vec<(&str, usize)> =
        t.entries().iter().map(|e| (e.name.as_str(), e.count)).collect();
    assert_eq!(entries, [("", 1), ("a", 1), ("aa", 1), ("b", 3)]);
    assert_eq!(t.get("b"), 3);
    assert_eq!(t.get("c"), 0);
    for (x, y) in [("a", "b"), ("a", "aa"), ("", "a"), ("a", "a"), ("z", "é"), ("é", "z")] {
        assert_eq!(comes_before(x, y), x < y);
        assert_eq!(same(x, y), x == y);
    }
}

#[test]
fn an_architecture_names_its_kind_of_device() {
    assert_eq!(device_type("applegpu_g13p"), MetalDeviceType::Phone);
    assert_eq!(device_type("applegpu_g13g"), MetalDeviceType::BasePro);
    assert_eq!(device_type("applegpu_g13s"), MetalDeviceType::Max);
    assert_eq!(device_type("applegpu_g13d"), MetalDeviceType::Ultra);
    assert_eq!(device_type("applegpu_g13c"), MetalDeviceType::Medium);
    assert_eq!(device_type(""), MetalDeviceType::Medium);
}

/// Support for indirect command buffers is chosen before the first pipeline, and not after.
#[test]
fn pipeline_support_is_chosen_in_time() {
    let mut s = PipelineSupport::new();
    assert!(!pipelines_support_icb(&s));
    assert!(set_pipelines_support_icb(&mut s, true).is_ok());
    assert!(pipelines_support_icb(&s));
    note_pipeline_built(&mut s);
    assert!(set_pipelines_support_icb(&mut s, true).is_ok());
    let err = set_pipelines_support_icb(&mut s, false).unwrap_err();
    assert_eq!(
        err,
        "supportIndirectCommandBuffers must be selected before any pipeline is built: \
         pipelines are cached per (Source, name, constants) and the ones already built \
         would keep the old setting, which is DESIGN.md §3.7d's segfault rather than \
         a wrong answer"
    );
    assert!(pipelines_support_icb(&s));
}

/// The partial results of a decode over a long context.
#[test]
fn partials_grow_with_the_context() {
    let g = PartialsGeometry { batch: 1, ..PartialsGeometry::default() };
    assert_eq!(g.chunks(1), 1);
    assert_eq!(g.chunks(256), 1);
    assert_eq!(g.chunks(257), 2);
    let at_128k = g.partials_bytes(g.chunks(131_072));
    assert_eq!(at_128k, 512 * 32 * 66 * 4);
    assert_eq!(8 * at_128k, 33 * 1024 * 1024);
}
