//! Single-precision words against the machine's own arithmetic.

use anaphora::bytes::{get_u32, get_u64, put_u32, put_u64, starts_with};
use anaphora::hash::fnv1a;
use anaphora::Binary32;

fn b(v: f32) -> Binary32 {
    Binary32::from_bits(v.to_bits())
}

fn f(x: Binary32) -> f32 {
    f32::from_bits(x.to_bits())
}

/// Words of every kind: zeros, subnormals, ordinary numbers, the largest,
/// infinities and not-a-number.
fn words() -> Vec<u32> {
    let mut out = vec![
        0x0000_0000, 0x8000_0000, 0x0000_0001, 0x8000_0001, 0x007F_FFFF, 0x0080_0000, 0x3F80_0000,
        0xBF80_0000, 0x3F7F_FFFF, 0x3F80_0001, 0x4049_0FDB, 0x7F7F_FFFF, 0xFF7F_FFFF, 0x7F80_0000,
        0xFF80_0000, 0x7FC0_0000, 0x4B00_0000, 0x4B7F_FFFF, 0x3DCC_CCCD, 0x3EAA_AAAB,
    ];
    let mut state: u64 = 0x1234_5678_9ABC_DEF0;
    for _ in 0..60 {
        state ^= state << 13;
        state ^= state >> 7;
        state ^= state << 17;
        out.push((state >> 16) as u32);
    }
    out
}

fn same(ours: Binary32, theirs: f32, what: &str) {
    if theirs.is_nan() {
        assert!(ours.is_nan(), "{what}: {:#x}", ours.to_bits());
    } else {
        assert_eq!(ours.to_bits(), theirs.to_bits(), "{what}");
    }
}

#[test]
fn arithmetic_is_that_of_the_machine() {
    let all = words();
    for &x in &all {
        for &y in &all {
            let (a, c) = (Binary32::from_bits(x), Binary32::from_bits(y));
            let (p, q) = (f32::from_bits(x), f32::from_bits(y));
            same(a.plus(c), p + q, &format!("{p} + {q}"));
            same(a.minus(c), p - q, &format!("{p} - {q}"));
            same(a.times(c), p * q, &format!("{p} * {q}"));
            same(a.over(c), p / q, &format!("{p} / {q}"));
            assert_eq!(a.less(c), p < q, "{p} < {q}");
            assert_eq!(a.at_most(c), p <= q, "{p} <= {q}");
            assert_eq!(a.same(c), p == q, "{p} == {q}");
        }
    }
}

#[test]
fn roots_and_signs_are_those_of_the_machine() {
    for &x in &words() {
        let (a, p) = (Binary32::from_bits(x), f32::from_bits(x));
        same(a.square_root(), p.sqrt(), &format!("sqrt {p}"));
        same(a.abs(), p.abs(), &format!("abs {p}"));
        same(a.negated(), -p, &format!("-{p}"));
        assert_eq!(a.is_finite(), p.is_finite());
        assert_eq!(a.is_nan(), p.is_nan());
    }
}

#[test]
fn counts_round_as_casts_do() {
    for n in [0u64, 1, 2, 3, 16_777_215, 16_777_216, 16_777_217, 16_777_219, 33_554_435, u64::MAX] {
        same(Binary32::from_count(n), n as f32, &format!("{n}"));
    }
    for (n, d) in [(1u64, 3u64), (2, 3), (5, 16_777_216), (7, 7), (0, 5)] {
        same(
            Binary32::ratio(n, d),
            (n as f64 / d as f64) as f32,
            &format!("{n}/{d}"),
        );
    }
}

#[test]
fn the_larger_and_the_smaller_skip_what_is_no_number() {
    assert_eq!(f(b(1.0).larger(b(2.0))), 2.0);
    assert_eq!(f(b(1.0).smaller(b(2.0))), 1.0);
    assert_eq!(f(b(f32::NAN).larger(b(2.0))), 2.0);
    assert_eq!(f(b(1.0).smaller(b(f32::NAN))), 1.0);
}

#[test]
fn words_are_little_endian() {
    let mut out = vec![9u8];
    put_u32(&mut out, 0x0403_0201);
    put_u64(&mut out, 0x0C0B_0A09_0807_0605);
    assert_eq!(out, vec![9, 1, 2, 3, 4, 5, 6, 7, 8, 9, 10, 11, 12]);
    assert_eq!(get_u32(&out, 1), Some(0x0403_0201));
    assert_eq!(get_u64(&out, 5), Some(0x0C0B_0A09_0807_0605));
    assert_eq!(get_u32(&out, 10), None);
    assert_eq!(get_u64(&out, 6), None);
    assert!(starts_with(&out, &[9, 1]));
    assert!(!starts_with(&out, &[1]));
}

#[test]
fn the_hash_is_fnv_1a() {
    assert_eq!(fnv1a(b""), 0xcbf2_9ce4_8422_2325);
    assert_eq!(fnv1a(b"a"), 0xaf63_dc4c_8601_ec8c);
    assert_eq!(fnv1a(b"foobar"), 0x85944171f73967e8);
}
