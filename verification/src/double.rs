//! Double-precision numbers as bit patterns, in the manner of the single ones.
//! Values are counted in units of 2^-1074.

use crate::ieee;
use vstd::arithmetic::power2::*;
use vstd::prelude::*;

verus! {

/// The biased exponent field of a double-precision pattern.
pub open spec fn double_exponent(bits: u64) -> int {
    (bits as int / 0x10_0000_0000_0000) % 2048
}

/// The fraction field of a double-precision pattern.
pub open spec fn double_fraction(bits: u64) -> int {
    bits as int % 0x10_0000_0000_0000
}

/// Whether the sign bit is set.
pub open spec fn double_negative(bits: u64) -> bool {
    bits >= 0x8000_0000_0000_0000
}

/// Whether the pattern is not a number.
pub open spec fn double_is_nan(bits: u64) -> bool {
    double_exponent(bits) == 2047 && double_fraction(bits) != 0
}

/// The significand, with the leading bit that normal numbers leave implicit.
pub open spec fn double_significand(bits: u64) -> int {
    if double_exponent(bits) == 0 {
        double_fraction(bits)
    } else {
        double_fraction(bits) + 0x10_0000_0000_0000
    }
}

/// The power of two by which the significand is scaled, over the smallest one.
pub open spec fn double_scale(bits: u64) -> nat {
    if double_exponent(bits) == 0 {
        0
    } else {
        (double_exponent(bits) - 1) as nat
    }
}

/// The absolute value.  An infinity counts as 2^1024, above every finite number.
pub open spec fn double_magnitude(bits: u64) -> int {
    double_significand(bits) * pow2(double_scale(bits))
}

/// The value.
pub open spec fn double_value(bits: u64) -> int {
    if double_negative(bits) {
        -double_magnitude(bits)
    } else {
        double_magnitude(bits)
    }
}

/// 1.0 in the units of `double_value`.
pub open spec fn double_one() -> int {
    pow2(1074) as int
}

/// Whether `a < b` as double-precision numbers; never so for a NaN.
pub open spec fn double_below(a: u64, b: u64) -> bool {
    !double_is_nan(a) && !double_is_nan(b) && double_value(a) < double_value(b)
}

/// Without the sign bit, the patterns are ordered as the absolute values are.
pub proof fn lemma_double_magnitude_order(a: u64, b: u64)
    ensures
        a % 0x8000_0000_0000_0000 < b % 0x8000_0000_0000_0000 ==> double_magnitude(a)
            < double_magnitude(b),
        a % 0x8000_0000_0000_0000 == b % 0x8000_0000_0000_0000 ==> double_magnitude(a)
            == double_magnitude(b),
{
    let ea = double_exponent(a);
    let eb = double_exponent(b);
    let fa = double_fraction(a);
    let fb = double_fraction(b);
    assert(a % 0x8000_0000_0000_0000 == ea * 0x10_0000_0000_0000 + fa);
    assert(b % 0x8000_0000_0000_0000 == eb * 0x10_0000_0000_0000 + fb);
    if a % 0x8000_0000_0000_0000 < b % 0x8000_0000_0000_0000 {
        let pa = pow2(double_scale(a)) as int;
        let pb = pow2(double_scale(b)) as int;
        lemma_pow2_pos(double_scale(a));
        lemma_pow2_pos(double_scale(b));
        let sa = double_significand(a);
        let sb = double_significand(b);
        if double_scale(a) == double_scale(b) {
            assert(sa < sb);
            assert(sa * pa < sb * pa) by (nonlinear_arith)
                requires
                    sa < sb,
                    pa > 0,
            ;
        } else {
            assert(double_scale(a) < double_scale(b));
            lemma_pow2_unfold((double_scale(a) + 1) as nat);
            if double_scale(a) + 1 < double_scale(b) {
                lemma_pow2_strictly_increases((double_scale(a) + 1) as nat, double_scale(b));
            }
            assert(2 * pa <= pb);
            assert(sa * pa < sb * pb) by (nonlinear_arith)
                requires
                    0 <= sa < 0x20_0000_0000_0000,
                    sb >= 0x10_0000_0000_0000,
                    0 < pa,
                    2 * pa <= pb,
            ;
        }
    } else if a % 0x8000_0000_0000_0000 == b % 0x8000_0000_0000_0000 {
        assert(ea == eb && fa == fb);
    }
}

/// The sign and magnitude of a pattern as one integer that orders it.
fn double_rank(bits: u64) -> (rank: i128)
    ensures
        rank == (if double_negative(bits) {
            -(bits % 0x8000_0000_0000_0000)
        } else {
            bits as int
        }),
{
    if bits >= 0x8000_0000_0000_0000 {
        -((bits % 0x8000_0000_0000_0000) as i128)
    } else {
        bits as i128
    }
}

/// Both zeros.
proof fn lemma_zero_magnitude()
    ensures
        double_magnitude(0) == 0,
        double_magnitude(0x8000_0000_0000_0000) == 0,
{
    assert(double_significand(0) == 0);
    assert(double_significand(0x8000_0000_0000_0000) == 0);
}

proof fn lemma_double_order(a: u64, b: u64)
    ensures
        ({
            let ra = if double_negative(a) { -(a % 0x8000_0000_0000_0000) } else { a as int };
            let rb = if double_negative(b) { -(b % 0x8000_0000_0000_0000) } else { b as int };
            (ra < rb) == (double_value(a) < double_value(b))
        }),
{
    lemma_double_magnitude_order(a, b);
    lemma_double_magnitude_order(b, a);
    lemma_double_magnitude_order(0, a);
    lemma_double_magnitude_order(0, b);
    lemma_zero_magnitude();
}

/// Whether a double-precision pattern is not a number.
pub fn is_double_nan(bits: u64) -> (nan: bool)
    ensures
        nan == double_is_nan(bits),
{
    (bits / 0x10_0000_0000_0000) % 2048 == 2047 && bits % 0x10_0000_0000_0000 != 0
}

/// Compares two double-precision patterns: `a < b`.
pub fn below(a: u64, b: u64) -> (r: bool)
    ensures
        r == double_below(a, b),
{
    proof {
        lemma_double_order(a, b);
    }
    !is_double_nan(a) && !is_double_nan(b) && double_rank(a) < double_rank(b)
}

/// The double-precision pattern of `n * 2^scale` (in units of 2^-1074), where that
/// is a normal number.
pub fn double_pattern(n: u128, scale: u32) -> (bits: u64)
    requires
        0 < n < 0x4000_0000_0000_0000_0000_0000_0000_0000,
        ieee::round_to_width(n as nat, 53) == n,
        53 <= scale + ieee::bit_length(n as nat) <= 2098,
    ensures
        !double_is_nan(bits),
        !double_negative(bits),
        double_value(bits) == n * pow2(scale as nat),
{
    let l: u32 = ieee::digits(n);
    let e: u32 = scale + l - 53;
    let significand: u128;
    proof {
        ieee::lemma_bit_length(n as nat);
        lemma2_to64();
        lemma2_to64_rest();
        lemma_pow2_adds(64, 62);
        if l > 126 {
            lemma_pow2_strictly_increases(126, l as nat);
            if l > 127 {
                lemma_pow2_strictly_increases(126, (l - 1) as nat);
            }
        }
    }
    if l <= 53 {
        let factor: u128 = ieee::power_of_two(53 - l);
        proof {
            lemma_pow2_adds((l - 1) as nat, (53 - l) as nat);
            lemma_pow2_adds(l as nat, (53 - l) as nat);
            lemma_pow2_adds(e as nat, (53 - l) as nat);
            lemma_pow2_pos((53 - l) as nat);
            assert(pow2((l - 1) as nat) * factor <= n * factor < pow2(l as nat) * factor)
                by (nonlinear_arith)
                requires
                    pow2((l - 1) as nat) <= n < pow2(l as nat),
                    factor > 0,
            ;
            assert((n * factor) * pow2(e as nat) == n * (pow2(e as nat) * factor))
                by (nonlinear_arith);
        }
        significand = n * factor;
        assert(significand * pow2(e as nat) == n * pow2(scale as nat));
    } else {
        let unit: u128 = ieee::power_of_two(l - 53);
        proof {
            ieee::lemma_representable(n as nat, 53);
            lemma_pow2_adds(52, (l - 53) as nat);
            lemma_pow2_adds(53, (l - 53) as nat);
            lemma_pow2_adds(scale as nat, (l - 53) as nat);
            lemma_pow2_pos((l - 53) as nat);
            let q = n / unit;
            assert(0x10_0000_0000_0000 <= q < 0x20_0000_0000_0000) by (nonlinear_arith)
                requires
                    n == q * unit,
                    0x10_0000_0000_0000 * unit <= n < 0x20_0000_0000_0000 * unit,
                    unit > 0,
            ;
            assert(q * (pow2(scale as nat) * unit) == (q * unit) * pow2(scale as nat))
                by (nonlinear_arith);
        }
        significand = n / unit;
        assert(significand * pow2(e as nat) == n * pow2(scale as nat));
    }
    (e as u64 + 1) * 0x10_0000_0000_0000 + (significand as u64 - 0x10_0000_0000_0000)
}

/// The quotient `num / den` rounded to `width` significant binary digits, ties to
/// even, but not below whole units.
pub open spec fn round_quotient(num: nat, den: nat, width: nat) -> nat {
    let l = ieee::bit_length(num / den);
    let unit = if l <= width {
        1
    } else {
        pow2((l - width) as nat)
    };
    ieee::round_half_even(num, den * unit) * unit
}

/// The time of sample `n` at 16 kHz in seconds: `n`, in double precision, over
/// 16000, in double precision.
pub open spec fn seconds_value(n: nat) -> nat {
    round_quotient(ieee::round_to_width(n, 53) * pow2(1074), 16000, 53)
}

/// Whether a pattern is the time of sample `n` in seconds (double precision).
pub open spec fn is_time(bits: u64, n: nat) -> bool {
    &&& !double_is_nan(bits)
    &&& !double_negative(bits)
    &&& double_value(bits) == seconds_value(n)
}

proof fn lemma_quotient_digits(num: nat, den: nat, k: nat)
    requires
        den > 0,
        num >= den,
    ensures
        ieee::bit_length((num * pow2(k)) / den) == ieee::bit_length(num / den) + k,
{
    let q = num / den;
    let c = pow2(k);
    lemma_pow2_pos(k);
    vstd::arithmetic::div_mod::lemma_fundamental_div_mod(num as int, den as int);
    assert(q >= 1) by (nonlinear_arith)
        requires
            num == den * q + num % den,
            num >= den,
            0 <= num % den < den,
    ;
    ieee::lemma_bit_length(q);
    let b = ieee::bit_length(q);
    lemma_pow2_adds((b - 1) as nat, k);
    lemma_pow2_adds(b, k);
    let lo = pow2((b - 1) as nat);
    let hi = pow2(b);
    let x = (num * c) / den;
    vstd::arithmetic::div_mod::lemma_fundamental_div_mod((num * c) as int, den as int);
    assert(lo * c <= x) by (nonlinear_arith)
        requires
            lo <= q,
            num >= den * q,
            num * c == den * x + (num * c) % den,
            0 <= (num * c) % den < den,
            c > 0,
            den > 0,
    ;
    assert(den * (q + 1) == den * q + den) by (nonlinear_arith);
    assert(x < hi * c) by (nonlinear_arith)
        requires
            q + 1 <= hi,
            num < den * (q + 1),
            num * c == den * x + (num * c) % den,
            0 <= (num * c) % den,
            c > 0,
            den > 0,
    ;
    ieee::lemma_bit_length_unique(x, b + k);
}

/// A rounded quotient of a number scaled by a power of two.
proof fn lemma_round_quotient_scaled(num: nat, den: nat, k: nat, width: nat)
    requires
        den > 0,
        num >= den,
        ieee::bit_length(num / den) > width,
    ensures
        round_quotient(num * pow2(k), den, width) == round_quotient(num, den, width) * pow2(k),
{
    let l = ieee::bit_length(num / den);
    let c = pow2(k);
    let unit = pow2((l - width) as nat);
    lemma_pow2_pos(k);
    lemma_pow2_pos((l - width) as nat);
    lemma_quotient_digits(num, den, k);
    lemma_pow2_adds((l - width) as nat, k);
    assert(den * unit > 0) by (nonlinear_arith)
        requires
            den > 0,
            unit > 0,
    ;
    assert(den * (unit * c) == (den * unit) * c) by (nonlinear_arith);
    ieee::lemma_round_half_even_scaled(num, den * unit, c);
    let q = ieee::round_half_even(num, den * unit);
    assert(q * (unit * c) == (q * unit) * c) by (nonlinear_arith);
}

/// The time of sample `n` at 16 kHz in seconds (double precision).
pub fn seconds(n: usize) -> (bits: u64)
    ensures
        is_time(bits, n as nat),
{
    if n == 0 {
        proof {
            lemma_zero_magnitude();
            assert(ieee::bit_length(0) == 0);
            assert(0 * pow2(1074) == 0) by (nonlinear_arith);
        }
        return 0;
    }
    let m: u128 = ieee::rounded(n as u128, 53);
    let l: u32 = ieee::digits(m);
    proof {
        lemma2_to64();
        lemma2_to64_rest();
        ieee::lemma_round_to_width_again(n as nat, 53);
        ieee::lemma_bit_length_unique(0xffff_ffff_ffff_ffff, 64);
        ieee::lemma_bit_length_monotone(n as nat, 0xffff_ffff_ffff_ffff);
        ieee::lemma_bit_length(m as nat);
    }
    let s: u32 = 120 - l;
    let factor: u128 = ieee::power_of_two(s);
    proof {
        lemma_pow2_adds((l - 1) as nat, s as nat);
        lemma_pow2_adds(l as nat, s as nat);
        lemma_pow2_pos(s as nat);
        lemma_pow2_adds(64, 56);
        lemma_pow2_adds(64, 55);
        assert(pow2(119) <= m * factor < pow2(120)) by (nonlinear_arith)
            requires
                pow2((l - 1) as nat) <= m < pow2(l as nat),
                factor > 0,
                pow2((l - 1) as nat) * factor == pow2(119),
                pow2(l as nat) * factor == pow2(120),
        ;
    }
    let num: u128 = m * factor;
    let whole: u128 = num / 16000;
    let w: u32 = ieee::digits(whole);
    proof {
        ieee::lemma_bit_length(whole as nat);
        lemma_pow2_adds(64, 36);
        if w <= 100 {
            if w < 100 {
                lemma_pow2_strictly_increases(w as nat, 100);
            }
        }
        if w > 120 {
            if w > 121 {
                lemma_pow2_strictly_increases(120, (w - 1) as nat);
            }
        }
        assert(100 < w <= 120);
    }
    let unit: u128 = ieee::power_of_two(w - 53);
    proof {
        lemma_pow2_adds(52, (w - 53) as nat);
        lemma_pow2_adds(53, (w - 53) as nat);
        lemma_pow2_pos((w - 53) as nat);
        lemma_pow2_adds(64, 3);
        if w - 53 < 67 {
            lemma_pow2_strictly_increases((w - 53) as nat, 67);
        }
    }
    let den: u128 = 16000 * unit;
    let q: u128 = num / den;
    let r: u128 = num % den;
    proof {
        assert(0x10_0000_0000_0000 <= q < 0x20_0000_0000_0000) by {
            vstd::arithmetic::div_mod::lemma_div_denominator(num as int, 16000, unit as int);
            assert(0x10_0000_0000_0000 <= whole / unit < 0x20_0000_0000_0000) by (nonlinear_arith)
                requires
                    0x10_0000_0000_0000 * unit <= whole < 0x20_0000_0000_0000 * unit,
                    unit > 0,
            ;
        }
    }
    let quotient: u128 = if r < den - r || (r == den - r && q % 2 == 0) {
        q
    } else {
        q + 1
    };
    proof {
        assert(quotient == ieee::round_half_even(num as nat, den as nat));
        if quotient < 0x20_0000_0000_0000 {
            ieee::lemma_scaled_representable(quotient as nat, 0, 53);
        } else {
            ieee::lemma_scaled_representable(1, 53, 53);
        }
        ieee::lemma_bit_length_unique(0x20_0000_0000_0000, 54);
        ieee::lemma_bit_length_monotone(quotient as nat, 0x20_0000_0000_0000);
        let k = (1074 - s) as nat;
        lemma_round_quotient_scaled(num as nat, 16000, k, 53);
        lemma_pow2_adds(s as nat, k);
        assert(m * pow2(1074) == num * pow2(k)) by (nonlinear_arith)
            requires
                num == m * factor,
                pow2(1074) == factor * pow2(k),
        ;
        lemma_pow2_adds((w - 53) as nat, k);
        assert((quotient * unit) * pow2(k) == quotient * (unit * pow2(k))) by (nonlinear_arith);
    }
    double_pattern(quotient, w - 53 + (1074 - s))
}

proof fn lemma_round_half_even_monotone(a: nat, b: nat, den: nat)
    requires
        a <= b,
        den > 0,
    ensures
        ieee::round_half_even(a, den) <= ieee::round_half_even(b, den),
{
    vstd::arithmetic::div_mod::lemma_div_is_ordered(a as int, b as int, den as int);
    vstd::arithmetic::div_mod::lemma_fundamental_div_mod(a as int, den as int);
    vstd::arithmetic::div_mod::lemma_fundamental_div_mod(b as int, den as int);
}

proof fn lemma_round_quotient_range(num: nat, den: nat, width: nat)
    requires
        den > 0,
        width > 0,
    ensures
        round_quotient(num, den, width) <= pow2(ieee::bit_length(num / den)),
        width < ieee::bit_length(num / den) ==> round_quotient(num, den, width) >= pow2(
            (ieee::bit_length(num / den) - 1) as nat,
        ),
{
    let x = num / den;
    let l = ieee::bit_length(x);
    vstd::arithmetic::div_mod::lemma_fundamental_div_mod(num as int, den as int);
    lemma2_to64();
    if x > 0 {
        ieee::lemma_bit_length(x);
    } else {
        assert(l == 0);
    }
    if l <= width {
        assert(den * 1 == den);
    } else {
        let unit = pow2((l - width) as nat);
        let d = den * unit;
        lemma_pow2_pos((l - width) as nat);
        lemma_pow2_adds(width, (l - width) as nat);
        lemma_pow2_adds((width - 1) as nat, (l - width) as nat);
        assert(d > 0) by (nonlinear_arith)
            requires
                d == den * unit,
                den > 0,
                unit > 0,
        ;
        let q = num / d;
        vstd::arithmetic::div_mod::lemma_div_denominator(num as int, den as int, unit as int);
        assert(q == x / unit);
        vstd::arithmetic::div_mod::lemma_fundamental_div_mod(x as int, unit as int);
        let r = ieee::round_half_even(num, d);
        assert(q <= r <= q + 1);
        let low = pow2((width - 1) as nat);
        let high = pow2(width);
        assert(low <= q < high) by (nonlinear_arith)
            requires
                low * unit <= x < high * unit,
                x == unit * q + x % unit,
                0 <= x % unit < unit,
                unit > 0,
        ;
        assert(low * unit <= r * unit <= high * unit) by (nonlinear_arith)
            requires
                low <= q <= r <= q + 1 <= high,
                unit > 0,
        ;
    }
}

proof fn lemma_round_quotient_monotone(a: nat, b: nat, den: nat, width: nat)
    requires
        a <= b,
        den > 0,
        width > 0,
    ensures
        round_quotient(a, den, width) <= round_quotient(b, den, width),
{
    vstd::arithmetic::div_mod::lemma_div_is_ordered(a as int, b as int, den as int);
    ieee::lemma_bit_length_monotone(a / den, b / den);
    let la = ieee::bit_length(a / den);
    let lb = ieee::bit_length(b / den);
    if la == lb || lb <= width {
        let unit = if lb <= width {
            1
        } else {
            pow2((lb - width) as nat)
        };
        lemma_pow2_pos((lb - width) as nat);
        assert(den * unit > 0) by (nonlinear_arith)
            requires
                den > 0,
                unit > 0,
        ;
        lemma_round_half_even_monotone(a, b, den * unit);
        let ra = ieee::round_half_even(a, den * unit);
        let rb = ieee::round_half_even(b, den * unit);
        assert(ra * unit <= rb * unit) by (nonlinear_arith)
            requires
                ra <= rb,
                unit > 0,
        ;
    } else {
        lemma_round_quotient_range(a, den, width);
        lemma_round_quotient_range(b, den, width);
        if la < lb - 1 {
            lemma_pow2_strictly_increases(la, (lb - 1) as nat);
        }
    }
}

/// Rounding keeps the order of numbers.
pub proof fn lemma_round_to_width_monotone(a: nat, b: nat, width: nat)
    requires
        a <= b,
        width > 0,
    ensures
        ieee::round_to_width(a, width) <= ieee::round_to_width(b, width),
{
    lemma_round_quotient_monotone(a, b, 1, width);
    lemma_round_as_quotient(a, width);
    lemma_round_as_quotient(b, width);
}

pub proof fn lemma_round_as_quotient(n: nat, width: nat)
    ensures
        ieee::round_to_width(n, width) == round_quotient(n, 1, width),
{
    assert(n / 1 == n);
    if ieee::bit_length(n) <= width {
        assert(n % 1 == 0);
    }
}

/// A later sample has no earlier time.
pub proof fn lemma_seconds_monotone(n: nat, m: nat)
    requires
        n <= m,
    ensures
        seconds_value(n) <= seconds_value(m),
{
    let a = ieee::round_to_width(n, 53);
    let b = ieee::round_to_width(m, 53);
    lemma_round_to_width_monotone(n, m, 53);
    assert(a * pow2(1074) <= b * pow2(1074)) by (nonlinear_arith)
        requires
            a <= b,
    ;
    lemma_round_quotient_monotone(a * pow2(1074), b * pow2(1074), 16000, 53);
}

} // verus!
