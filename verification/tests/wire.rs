//! Wire-format tests: decimal fields, normalization, trimming and
//! splitting, and the smoother's documented values.

use rvci::num::{normalize, parse_decimal};
use rvci::protocol::split_bytes;
use rvci::smooth::Smoother;
use rvci::text::trim_bytes;

const UNIT: u64 = 1_000_000;

#[test]
fn parse_plain_integers() {
    assert_eq!(parse_decimal(b"0"), Some(0));
    assert_eq!(parse_decimal(b"512"), Some(512_000_000));
    assert_eq!(parse_decimal(b"1023"), Some(1_023_000_000));
}

#[test]
fn parse_fractions() {
    assert_eq!(parse_decimal(b"1.5"), Some(1_500_000));
    assert_eq!(parse_decimal(b".5"), Some(500_000));
    assert_eq!(parse_decimal(b"5."), Some(5_000_000));
    assert_eq!(parse_decimal(b"0.1234567"), Some(123_456));
}

#[test]
fn parse_signs() {
    assert_eq!(parse_decimal(b"-3"), Some(-3_000_000));
    assert_eq!(parse_decimal(b"+2"), Some(2_000_000));
    assert_eq!(parse_decimal(b"-0.5"), Some(-500_000));
}

#[test]
fn parse_saturates_huge_values() {
    assert_eq!(parse_decimal(b"99999999999999999999"), Some(1_000_000_000_000));
    assert_eq!(parse_decimal(b"-99999999999999999999"), Some(-1_000_000_000_000));
}

#[test]
fn parse_rejects_garbage() {
    assert_eq!(parse_decimal(b""), None);
    assert_eq!(parse_decimal(b"."), None);
    assert_eq!(parse_decimal(b"abc"), None);
    assert_eq!(parse_decimal(b"1.2.3"), None);
    assert_eq!(parse_decimal(b"1e3"), None);
    assert_eq!(parse_decimal(b"-"), None);
    assert_eq!(parse_decimal(b"5 "), None);
}

#[test]
fn normalize_is_clamp_then_scale() {
    let ceiling = 1_024_000_000;
    assert_eq!(normalize(512_000_000, ceiling), 500_000);
    assert_eq!(normalize(0, ceiling), 0);
    assert_eq!(normalize(1_024_000_000, ceiling), UNIT);
    // below zero clamps to zero, above the ceiling clamps to full volume
    assert_eq!(normalize(-3_000_000, ceiling), 0);
    assert_eq!(normalize(2_000_000_000, ceiling), UNIT);
}

#[test]
fn normalized_values_stay_in_range() {
    let ceiling = 333_000_000;
    for raw in [-1_000_000_000i64, -1, 0, 1, 166_500_000, 333_000_000, 999_999_999_999] {
        let v = normalize(raw, ceiling);
        assert!(v <= UNIT);
    }
}

#[test]
fn trim_strips_line_endings() {
    assert_eq!(trim_bytes(b"  512 \r\n"), b"512".to_vec());
    assert_eq!(trim_bytes(b"\t\n"), Vec::<u8>::new());
    assert_eq!(trim_bytes(b"a b"), b"a b".to_vec());
}

#[test]
fn split_keeps_empty_fields() {
    let f = split_bytes(b"a|b|c", 124);
    assert_eq!(f.len(), 3);
    assert_eq!(f[0], b"a".to_vec());
    assert_eq!(f[1], b"b".to_vec());
    assert_eq!(f[2], b"c".to_vec());
    let g = split_bytes(b"a||b", 124);
    assert_eq!(g.len(), 3);
    assert_eq!(g[1], Vec::<u8>::new());
    let h = split_bytes(b"|", 124);
    assert_eq!(h.len(), 2);
    assert_eq!(h[0], Vec::<u8>::new());
    assert_eq!(h[1], Vec::<u8>::new());
}

#[test]
fn smoother_snaps_large_moves() {
    // last = 0.5, input 0.9: the move of 0.4 reaches the snap threshold,
    // so 0.9 is emitted exactly and becomes the new last value
    let mut s = Smoother::new();
    s.process(500_000);
    assert_eq!(s.last_value, 500_000);
    let out = s.process(900_000);
    assert_eq!(out, 900_000);
    assert_eq!(s.last_value, 900_000);
}

#[test]
fn smoother_damps_small_moves() {
    // last = 0.5, input 0.52: 0.5 + 0.02 * 0.35 = 0.507
    let mut s = Smoother::new();
    s.process(500_000);
    let out = s.process(520_000);
    assert_eq!(out, 507_000);
    assert_eq!(s.last_value, 507_000);
}
