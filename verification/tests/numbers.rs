//! Single and double precision patterns, against the machine's own arithmetic.

use otograph::double;
use otograph::ieee;
use otograph::vad;

/// Patterns of every kind: zeros, small and large numbers, infinities, NaN.
fn single_patterns() -> Vec<u32> {
    let mut out: Vec<u32> = vec![
        0, 1, 0x007f_ffff, 0x0080_0000, 0x3c23_d70a, 0x3c23_d70b, 0x3e19_999a, 0x3f00_0000,
        0x3f7f_ffff, 0x3f80_0000, 0x41e0_0000, 0x7f7f_ffff, 0x7f80_0000, 0x7fc0_0000, 0x7f80_0001,
    ];
    let mut x: u32 = 12345;
    for _ in 0..200 {
        x = x.wrapping_mul(1_664_525).wrapping_add(1_013_904_223);
        out.push(x);
        out.push(0x3f00_0000 + x % 0x100_0000);
    }
    let n = out.len();
    for i in 0..n {
        out.push(out[i] ^ 0x8000_0000);
    }
    out
}

#[test]
fn single_comparisons_match_the_machine() {
    let all = single_patterns();
    for &a in &all {
        for &b in &all {
            let (x, y) = (f32::from_bits(a), f32::from_bits(b));
            assert_eq!(ieee::at_least(a, b), x >= y, "{a:x} {b:x}");
            assert_eq!(ieee::below(a, b), x < y, "{a:x} {b:x}");
        }
        assert_eq!(ieee::is_single_nan(a), f32::from_bits(a).is_nan());
    }
}

#[test]
fn double_comparison_matches_the_machine() {
    let values = [
        0.0f64, -0.0, 0.05, 0.049999999999999996, 0.05000000000000001, 1.0, -1.0, 1e-320, 1e308,
        f64::INFINITY, f64::NEG_INFINITY, f64::NAN,
    ];
    for &x in &values {
        for &y in &values {
            assert_eq!(double::below(x.to_bits(), y.to_bits()), x < y, "{x} {y}");
        }
        assert_eq!(double::is_double_nan(x.to_bits()), x.is_nan());
    }
}

#[test]
fn rounding_ties_to_even() {
    assert_eq!(ieee::digits(0), 0);
    assert_eq!(ieee::digits(1), 1);
    assert_eq!(ieee::digits(255), 8);
    assert_eq!(ieee::rounded(0b1011, 3), 0b1100);
    assert_eq!(ieee::rounded(0b1001, 3), 0b1000);
    assert_eq!(ieee::rounded(0b1010, 3), 0b1010);
    assert_eq!(ieee::rounded(0b1111, 3), 0b1_0000);
    assert_eq!(ieee::power_of_two(0), 1);
    assert_eq!(ieee::power_of_two(100), 1u128 << 100);
    let mut x: u64 = 99;
    for _ in 0..2000 {
        x = x.wrapping_mul(6_364_136_223_846_793_005).wrapping_add(1_442_695_040_888_963_407);
        assert_eq!(ieee::rounded(x as u128, 24), x as f32 as u128, "{x}");
        assert_eq!(ieee::rounded(x as u128, 53), x as f64 as u128, "{x}");
    }
}

#[test]
fn seconds_match_the_machine() {
    assert_eq!(double::seconds(16_000), 1.0f64.to_bits());
    assert_eq!(double::seconds(8_000), 0.5f64.to_bits());
    assert_eq!(double::seconds(0), 0.0f64.to_bits());
    let mut ns: Vec<usize> = (0..100_000).collect();
    let mut x: u64 = 7;
    for _ in 0..5000 {
        x = x.wrapping_mul(6_364_136_223_846_793_005).wrapping_add(1_442_695_040_888_963_407);
        ns.push(x as usize);
        ns.push((x >> 20) as usize);
    }
    ns.push(usize::MAX);
    ns.push(1 << 53);
    ns.push((1 << 53) + 1);
    for n in ns {
        assert_eq!(double::seconds(n), (n as f64 / 16000.0).to_bits(), "{n}");
    }
}

#[test]
fn silence_threshold_matches_the_machine() {
    assert_eq!(vad::neg_threshold(0.5f32.to_bits()), 0.35f32.to_bits());
    assert_eq!(vad::neg_threshold(0.1f32.to_bits()), 0.01f32.to_bits());
    let mut all = single_patterns();
    for i in 0..4096u32 {
        all.push((i as f32 / 4096.0).to_bits());
        all.push((i as f32 / 4095.0).to_bits());
    }
    for t in all {
        let expected = (f32::from_bits(t) - 0.15).max(0.01);
        assert_eq!(vad::neg_threshold(t), expected.to_bits(), "{t:x}");
    }
}

#[test]
fn whole_samples_of_a_limit() {
    assert_eq!(ieee::whole_samples(28.0f32.to_bits()), 448_000);
    assert_eq!(ieee::whole_samples(0.5f32.to_bits()), 8_000);
}
