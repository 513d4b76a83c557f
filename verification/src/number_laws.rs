//! What holds of all floating-point numbers that are read, rounded or divided here.

use crate::double;
use crate::ieee;
use crate::srt;
use vstd::arithmetic::power2::*;
use vstd::prelude::*;

verus! {

/// The distance of two numbers.
pub open spec fn distance(a: int, b: int) -> int {
    if a >= b {
        a - b
    } else {
        b - a
    }
}

/// Single-precision patterns: 1.0 has the pattern 0x3f800000; zero has the pattern zero;
/// patterns a binade apart stand for numbers of which one is twice the other; within a
/// binade, and among the smallest numbers, steps are equal; and the top bit is the sign.
pub proof fn law_single_values(bits: u32)
    requires
        bits < 0x7f80_0000,
    ensures
        ieee::single_value(0x3f80_0000) == pow2(149),
        ieee::single_value(0) == 0,
        0x80_0000 <= bits ==> ieee::single_value((bits + 0x80_0000) as u32) == 2
            * ieee::single_value(bits),
        bits < 0x100_0000 ==> ieee::single_value((bits + 1) as u32) == ieee::single_value(bits) + 1,
        0x80_0000 <= bits && bits % 0x80_0000 != 0x7f_ffff ==> ieee::single_value(
            (bits + 1) as u32,
        ) == ieee::single_value(bits) + pow2((bits / 0x80_0000 - 1) as nat),
        ieee::single_value((bits + 0x8000_0000) as u32) == -ieee::single_value(bits),
        !ieee::single_is_nan(bits),
{
    lemma2_to64();
    lemma_pow2_adds(23, 126);
    assert(ieee::single_exponent(0x3f80_0000) == 127);
    assert(ieee::single_fraction(0x3f80_0000) == 0);
    assert(ieee::single_value(0x3f80_0000) == 0x80_0000 * pow2(126));
    ieee::lemma_zero_magnitude();
    let e = ieee::single_exponent(bits);
    let f = ieee::single_fraction(bits);
    assert(bits == e * 0x80_0000 + f);
    let s = ieee::single_significand(bits);
    if 0x80_0000 <= bits {
        let up = (bits + 0x80_0000) as u32;
        assert(ieee::single_exponent(up) == e + 1);
        assert(ieee::single_fraction(up) == f);
        lemma_pow2_unfold(e as nat);
        let k = pow2((e - 1) as nat);
        assert(s * (2 * k) == 2 * (s * k)) by (nonlinear_arith);
        if f != 0x7f_ffff {
            let next = (bits + 1) as u32;
            assert(ieee::single_exponent(next) == e);
            assert(ieee::single_fraction(next) == f + 1);
            assert((s + 1) * k == s * k + k) by (nonlinear_arith);
        }
    }
    if bits < 0x100_0000 {
        let next = (bits + 1) as u32;
        assert(ieee::single_value(bits) == s * pow2(0));
        assert(s * pow2(0) == s) by (nonlinear_arith)
            requires
                pow2(0) == 1,
        ;
        if bits == 0x7f_ffff {
            assert(ieee::single_exponent(next) == 1 && ieee::single_fraction(next) == 0);
            assert(ieee::single_value(next) == 0x80_0000 * pow2(0));
        } else if bits == 0xff_ffff {
            assert(ieee::single_exponent(next) == 2 && ieee::single_fraction(next) == 0);
            assert(ieee::single_value(next) == 0x80_0000 * pow2(1));
        } else {
            assert(ieee::single_exponent(next) == e && ieee::single_fraction(next) == f + 1);
            assert(ieee::single_value(next) == (s + 1) * pow2(0));
            assert((s + 1) * pow2(0) == s + 1) by (nonlinear_arith)
                requires
                    pow2(0) == 1,
            ;
        }
    }
    let minus = (bits + 0x8000_0000) as u32;
    assert(ieee::single_exponent(minus) == e);
    assert(ieee::single_fraction(minus) == f);
}

/// Single-precision numbers are compared by their values, and a NaN is neither at least
/// nor below anything.
pub proof fn law_single_comparisons(a: u32, b: u32)
    ensures
        a % 0x8000_0000 > 0x7f80_0000 || b % 0x8000_0000 > 0x7f80_0000 ==> !ieee::single_at_least(
            a,
            b,
        ) && !ieee::single_below(a, b),
        a % 0x8000_0000 <= 0x7f80_0000 && b % 0x8000_0000 <= 0x7f80_0000 ==> (ieee::single_at_least(
            a,
            b,
        ) <==> ieee::single_value(a) >= ieee::single_value(b)) && (ieee::single_below(a, b)
            <==> ieee::single_value(a) < ieee::single_value(b)),
{
}

/// Double-precision patterns: 1.0 has the pattern 0x3ff0000000000000; zero has the pattern
/// zero; patterns a binade apart stand for numbers of which one is twice the other; and
/// within a binade, and among the smallest numbers, steps are equal.
pub proof fn law_double_values(bits: u64)
    requires
        bits < 0x7ff0_0000_0000_0000,
    ensures
        double::double_value(0x3ff0_0000_0000_0000) == pow2(1074),
        double::double_value(0) == 0,
        0x10_0000_0000_0000 <= bits ==> double::double_value((bits + 0x10_0000_0000_0000) as u64)
            == 2 * double::double_value(bits),
        bits < 0x20_0000_0000_0000 ==> double::double_value((bits + 1) as u64)
            == double::double_value(bits) + 1,
        0x10_0000_0000_0000 <= bits && bits % 0x10_0000_0000_0000 != 0xf_ffff_ffff_ffff
            ==> double::double_value((bits + 1) as u64) == double::double_value(bits) + pow2(
            (bits / 0x10_0000_0000_0000 - 1) as nat,
        ),
        double::double_value((bits + 0x8000_0000_0000_0000) as u64) == -double::double_value(bits),
        !double::double_is_nan(bits),
{
    lemma2_to64();
    lemma2_to64_rest();
    lemma_pow2_adds(52, 1022);
    assert(double::double_exponent(0x3ff0_0000_0000_0000) == 1023);
    assert(double::double_fraction(0x3ff0_0000_0000_0000) == 0);
    assert(double::double_value(0x3ff0_0000_0000_0000) == 0x10_0000_0000_0000 * pow2(1022));
    assert(double::double_significand(0) == 0);
    let e = double::double_exponent(bits);
    let f = double::double_fraction(bits);
    assert(bits == e * 0x10_0000_0000_0000 + f);
    let s = double::double_significand(bits);
    if 0x10_0000_0000_0000 <= bits {
        let up = (bits + 0x10_0000_0000_0000) as u64;
        assert(double::double_exponent(up) == e + 1);
        assert(double::double_fraction(up) == f);
        lemma_pow2_unfold(e as nat);
        let k = pow2((e - 1) as nat);
        assert(s * (2 * k) == 2 * (s * k)) by (nonlinear_arith);
        if f != 0xf_ffff_ffff_ffff {
            let next = (bits + 1) as u64;
            assert(double::double_exponent(next) == e);
            assert(double::double_fraction(next) == f + 1);
            assert((s + 1) * k == s * k + k) by (nonlinear_arith);
        }
    }
    if bits < 0x20_0000_0000_0000 {
        let next = (bits + 1) as u64;
        assert(double::double_value(bits) == s * pow2(0));
        assert(s * pow2(0) == s) by (nonlinear_arith)
            requires
                pow2(0) == 1,
        ;
        if bits == 0xf_ffff_ffff_ffff {
            assert(double::double_exponent(next) == 1 && double::double_fraction(next) == 0);
            assert(double::double_value(next) == 0x10_0000_0000_0000 * pow2(0));
        } else if bits == 0x1f_ffff_ffff_ffff {
            assert(double::double_exponent(next) == 2 && double::double_fraction(next) == 0);
            assert(double::double_value(next) == 0x10_0000_0000_0000 * pow2(1));
        } else {
            assert(double::double_exponent(next) == e && double::double_fraction(next) == f + 1);
            assert(double::double_value(next) == (s + 1) * pow2(0));
            assert((s + 1) * pow2(0) == s + 1) by (nonlinear_arith)
                requires
                    pow2(0) == 1,
            ;
        }
    }
    let minus = (bits + 0x8000_0000_0000_0000) as u64;
    assert(double::double_exponent(minus) == e);
    assert(double::double_fraction(minus) == f);
}

/// Double-precision numbers are compared by their values, and a NaN is below nothing.
pub proof fn law_double_comparison(a: u64, b: u64)
    ensures
        ({
            let nan = a % 0x8000_0000_0000_0000 > 0x7ff0_0000_0000_0000 || b
                % 0x8000_0000_0000_0000 > 0x7ff0_0000_0000_0000;
            double::double_below(a, b) <==> !nan && double::double_value(a) < double::double_value(b)
        }),
{
}

/// No multiple of `u` is nearer to `n` than the one that `n` is rounded to.
proof fn lemma_nearest_multiple(n: nat, u: nat, c: int)
    requires
        u > 0,
    ensures
        distance((ieee::round_half_even(n, u) * u) as int, n as int) <= distance(c * u, n as int),
{
    let r = ieee::round_half_even(n, u) as int;
    srt::lemma_rounding_error(n, u);
    if c > r {
        assert(c * u >= r * u + u) by (nonlinear_arith)
            requires
                c >= r + 1,
                u > 0,
        ;
    } else if c < r {
        assert(c * u <= r * u - u) by (nonlinear_arith)
            requires
                c <= r - 1,
                u > 0,
        ;
    }
}

/// No number of `width` binary digits and any exponent is nearer to a quotient than the
/// one that the quotient is rounded to.
pub proof fn law_quotient_nearest(num: nat, den: nat, width: nat, q: nat, k: nat)
    requires
        den > 0,
        width > 0,
        q < pow2(width),
    ensures
        distance((den * double::round_quotient(num, den, width)) as int, num as int) <= distance(
            (den * (q * pow2(k))) as int,
            num as int,
        ),
{
    let x = num / den;
    let l = ieee::bit_length(x);
    let unit = if l <= width {
        1
    } else {
        pow2((l - width) as nat)
    };
    lemma_pow2_pos((l - width) as nat);
    lemma_pow2_pos(k);
    let d = den * unit;
    assert(d > 0) by (nonlinear_arith)
        requires
            d == den * unit,
            den > 0,
            unit > 0,
    ;
    let r = ieee::round_half_even(num, d);
    assert(den * (r * unit) == r * d) by (nonlinear_arith)
        requires
            d == den * unit,
    ;
    let m = q * pow2(k);
    if l <= width {
        assert(den * m == m * d) by (nonlinear_arith)
            requires
                d == den,
        ;
        lemma_nearest_multiple(num, d, m as int);
    } else if k >= l - width {
        let e = (k - (l - width)) as nat;
        lemma_pow2_adds(e, (l - width) as nat);
        let c = q * pow2(e);
        assert(den * m == c * d) by (nonlinear_arith)
            requires
                m == q * (pow2(e) * unit),
                c == q * pow2(e),
                d == den * unit,
        ;
        lemma_nearest_multiple(num, d, c as int);
    } else {
        let low = pow2((width - 1) as nat);
        srt::lemma_unit(x, width);
        vstd::arithmetic::div_mod::lemma_fundamental_div_mod(num as int, den as int);
        lemma_pow2_unfold(width);
        lemma_pow2_unfold((l - width) as nat);
        if k < l - width - 1 {
            lemma_pow2_strictly_increases(k, (l - width - 1) as nat);
        }
        let pk = pow2(k);
        assert(q * pk <= (2 * low) * pk) by (nonlinear_arith)
            requires
                q < 2 * low,
        ;
        assert((2 * low) * pk == low * (2 * pk)) by (nonlinear_arith);
        assert(low * (2 * pk) <= low * unit) by (nonlinear_arith)
            requires
                2 * pk <= unit,
                low > 0,
        ;
        lemma_nearest_multiple(num, d, low as int);
        assert(low * d == den * (low * unit)) by (nonlinear_arith)
            requires
                d == den * unit,
        ;
        assert(den * m <= den * (low * unit) <= num) by (nonlinear_arith)
            requires
                m <= low * unit,
                low * unit <= x,
                num == den * x + num % den,
                0 <= num % den,
                den > 0,
        ;
    }
}

/// No number of `width` binary digits and any exponent is nearer to a number than the one
/// that it is rounded to.
pub proof fn law_round_nearest(n: nat, width: nat, q: nat, k: nat)
    requires
        width > 0,
        q < pow2(width),
    ensures
        distance(ieee::round_to_width(n, width) as int, n as int) <= distance(
            (q * pow2(k)) as int,
            n as int,
        ),
{
    law_quotient_nearest(n, 1, width, q, k);
    double::lemma_round_as_quotient(n, width);
}

/// A number with at most `width` binary digits, scaled, is not changed by rounding, and of
/// two numbers the larger is not rounded below the smaller.
pub proof fn law_round_keeps(q: nat, k: nat, width: nat, a: nat, b: nat)
    requires
        width > 0,
        q < pow2(width),
        a <= b,
    ensures
        ieee::round_to_width(q * pow2(k), width) == q * pow2(k),
        ieee::round_to_width(a, width) <= ieee::round_to_width(b, width),
{
    ieee::lemma_scaled_representable(q, k, width);
    double::lemma_round_to_width_monotone(a, b, width);
}

/// The time of a sample is the double-precision number that is nearest to the sample over
/// 16000: none with 53 binary digits is nearer.
pub proof fn law_seconds_nearest(n: nat, q: nat, k: nat)
    requires
        n <= 0x20_0000_0000_0000,
        q < pow2(53),
    ensures
        distance((16000 * double::seconds_value(n)) as int, (n * pow2(1074)) as int) <= distance(
            (16000 * (q * pow2(k))) as int,
            (n * pow2(1074)) as int,
        ),
{
    lemma2_to64();
    lemma2_to64_rest();
    if n == 0x20_0000_0000_0000 {
        ieee::lemma_scaled_representable(1, 53, 53);
    } else {
        ieee::lemma_scaled_representable(n, 0, 53);
    }
    assert(ieee::round_to_width(n, 53) == n);
    law_quotient_nearest(n * pow2(1074), 16000, 53, q, k);
}

/// The number of whole samples that last no longer than a number of seconds.
pub proof fn law_lasts_longer(n: int, seconds: u32)
    ensures
        ieee::lasts_longer(n, seconds) <==> seconds % 0x8000_0000 <= 0x7f80_0000 && n * pow2(149)
            > 16_000 * ieee::single_value(seconds),
{
}

/// A number halfway between two neighbours is rounded to the one whose digits are even.
pub proof fn law_round_ties(m: nat, k: nat, width: nat)
    requires
        k > 0,
        width > 0,
        pow2((width - 1) as nat) <= m < pow2(width),
    ensures
        ieee::round_to_width((2 * m + 1) * pow2((k - 1) as nat), width) == (m + m % 2) * pow2(k),
{
    let h = pow2((k - 1) as nat);
    let u = pow2(k);
    let n = (2 * m + 1) * h;
    lemma_pow2_unfold(k);
    lemma_pow2_pos((k - 1) as nat);
    lemma_pow2_adds((width - 1) as nat, k);
    lemma_pow2_adds(width, k);
    assert(n == m * u + h) by (nonlinear_arith)
        requires
            n == (2 * m + 1) * h,
            u == 2 * h,
    ;
    let low = pow2((width - 1) as nat);
    let high = pow2(width);
    assert(low * u <= n < high * u) by (nonlinear_arith)
        requires
            n == m * u + h,
            low <= m < high,
            u == 2 * h,
            h > 0,
    ;
    ieee::lemma_bit_length_unique(n, width + k);
    vstd::arithmetic::div_mod::lemma_fundamental_div_mod_converse(
        n as int,
        u as int,
        m as int,
        h as int,
    );
    assert(n / u == m && n % u == h);
    assert((ieee::bit_length(n) - width) as nat == k);
}

/// A number has as many binary digits as the power of two above it says.
pub proof fn law_bit_length(n: nat)
    ensures
        n > 0 ==> pow2((ieee::bit_length(n) - 1) as nat) <= n < pow2(ieee::bit_length(n)),
        n == 0 ==> ieee::bit_length(n) == 0,
{
    if n > 0 {
        ieee::lemma_bit_length(n);
    }
}

} // verus!
