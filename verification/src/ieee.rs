//! Floating-point values as the bit patterns that hold them.
//!
//! Probabilities, thresholds and sample values cross the interface of this
//! library as IEEE-754 bit patterns: `u32` for single precision, `u64` for
//! double precision.  Every single-precision number is a whole multiple of
//! 2^-149 and every double-precision number a whole multiple of 2^-1074, so the
//! specifications below speak of plain integers.

use vstd::arithmetic::power2::*;
use vstd::prelude::*;

verus! {

/// The biased exponent field of a single-precision pattern.
pub open spec fn single_exponent(bits: u32) -> int {
    (bits as int / 0x80_0000) % 256
}

/// The fraction field of a single-precision pattern.
pub open spec fn single_fraction(bits: u32) -> int {
    bits as int % 0x80_0000
}

/// Whether the sign bit is set.
pub open spec fn single_negative(bits: u32) -> bool {
    bits >= 0x8000_0000
}

/// Whether the pattern is not a number.
pub open spec fn single_is_nan(bits: u32) -> bool {
    single_exponent(bits) == 255 && single_fraction(bits) != 0
}

/// The significand, with the leading bit that normal numbers leave implicit.
pub open spec fn single_significand(bits: u32) -> int {
    if single_exponent(bits) == 0 {
        single_fraction(bits)
    } else {
        single_fraction(bits) + 0x80_0000
    }
}

/// The power of two by which the significand is scaled, over the smallest one.
pub open spec fn single_scale(bits: u32) -> nat {
    if single_exponent(bits) == 0 {
        0
    } else {
        (single_exponent(bits) - 1) as nat
    }
}

/// The absolute value, in units of 2^-149.  An infinity counts as 2^128, above
/// every finite number.
pub open spec fn single_magnitude(bits: u32) -> int {
    single_significand(bits) * pow2(single_scale(bits))
}

/// The value in units of 2^-149.
pub open spec fn single_value(bits: u32) -> int {
    if single_negative(bits) {
        -single_magnitude(bits)
    } else {
        single_magnitude(bits)
    }
}

/// 1.0 in the units of `single_value`.
pub open spec fn single_one() -> int {
    pow2(149) as int
}

/// Whether `a >= b` as single-precision numbers; never so for a NaN.
pub open spec fn single_at_least(a: u32, b: u32) -> bool {
    !single_is_nan(a) && !single_is_nan(b) && single_value(a) >= single_value(b)
}

/// Whether `a < b` as single-precision numbers; never so for a NaN.
pub open spec fn single_below(a: u32, b: u32) -> bool {
    !single_is_nan(a) && !single_is_nan(b) && single_value(a) < single_value(b)
}

/// The number of binary digits of `n`; none for zero.
pub open spec fn bit_length(n: nat) -> nat
    decreases n,
{
    if n == 0 {
        0
    } else {
        1 + bit_length(n / 2)
    }
}

/// The integer nearest to `num / den`, the even one where two are equally near.
pub open spec fn round_half_even(num: nat, den: nat) -> nat {
    let q = num / den;
    let r = num % den;
    if 2 * r < den || (2 * r == den && q % 2 == 0) {
        q
    } else {
        q + 1
    }
}

/// `n` rounded to `width` significant binary digits, ties to even: the rounding
/// of a floating-point result whose exact value is `n` of its smallest units.
pub open spec fn round_to_width(n: nat, width: nat) -> nat {
    if bit_length(n) <= width {
        n
    } else {
        let unit = pow2((bit_length(n) - width) as nat);
        round_half_even(n, unit) * unit
    }
}

/// Without the sign bit, the patterns are ordered as the absolute values are.
pub proof fn lemma_single_magnitude_order(a: u32, b: u32)
    ensures
        a % 0x8000_0000 < b % 0x8000_0000 ==> single_magnitude(a) < single_magnitude(b),
        a % 0x8000_0000 == b % 0x8000_0000 ==> single_magnitude(a) == single_magnitude(b),
{
    let ea = single_exponent(a);
    let eb = single_exponent(b);
    let fa = single_fraction(a);
    let fb = single_fraction(b);
    assert(a % 0x8000_0000 == ea * 0x80_0000 + fa);
    assert(b % 0x8000_0000 == eb * 0x80_0000 + fb);
    if a % 0x8000_0000 < b % 0x8000_0000 {
        let pa = pow2(single_scale(a)) as int;
        let pb = pow2(single_scale(b)) as int;
        lemma_pow2_pos(single_scale(a));
        lemma_pow2_pos(single_scale(b));
        let sa = single_significand(a);
        let sb = single_significand(b);
        if single_scale(a) == single_scale(b) {
            assert(sa < sb);
            assert(sa * pa < sb * pa) by (nonlinear_arith)
                requires
                    sa < sb,
                    pa > 0,
            ;
        } else {
            assert(single_scale(a) < single_scale(b));
            lemma_pow2_unfold((single_scale(a) + 1) as nat);
            if single_scale(a) + 1 < single_scale(b) {
                lemma_pow2_strictly_increases((single_scale(a) + 1) as nat, single_scale(b));
            }
            assert(2 * pa <= pb);
            assert(sa * pa < sb * pb) by (nonlinear_arith)
                requires
                    0 <= sa < 0x100_0000,
                    sb >= 0x80_0000,
                    0 < pa,
                    2 * pa <= pb,
            ;
        }
    } else if a % 0x8000_0000 == b % 0x8000_0000 {
        assert(ea == eb && fa == fb);
    }
}

/// The sign and magnitude of a pattern as one integer that orders it.
fn single_rank(bits: u32) -> (rank: i64)
    ensures
        rank == (if single_negative(bits) {
            -(bits % 0x8000_0000)
        } else {
            bits as int
        }),
{
    if bits >= 0x8000_0000 {
        -((bits % 0x8000_0000) as i64)
    } else {
        bits as i64
    }
}

/// Both zeros.
pub proof fn lemma_zero_magnitude()
    ensures
        single_magnitude(0) == 0,
        single_magnitude(0x8000_0000) == 0,
{
    assert(single_significand(0) == 0);
    assert(single_significand(0x8000_0000) == 0);
}

proof fn lemma_single_order(a: u32, b: u32)
    ensures
        ({
            let ra = if single_negative(a) { -(a % 0x8000_0000) } else { a as int };
            let rb = if single_negative(b) { -(b % 0x8000_0000) } else { b as int };
            (ra < rb) == (single_value(a) < single_value(b))
        }),
{
    lemma_single_magnitude_order(a, b);
    lemma_single_magnitude_order(b, a);
    lemma_single_magnitude_order(0, a);
    lemma_single_magnitude_order(0, b);
    lemma_zero_magnitude();
}

/// Whether a single-precision pattern is not a number.
pub fn is_single_nan(bits: u32) -> (nan: bool)
    ensures
        nan == single_is_nan(bits),
{
    (bits / 0x80_0000) % 256 == 255 && bits % 0x80_0000 != 0
}

/// Compares two single-precision patterns: `a >= b`.
pub fn at_least(a: u32, b: u32) -> (r: bool)
    ensures
        r == single_at_least(a, b),
{
    proof {
        lemma_single_order(a, b);
    }
    !is_single_nan(a) && !is_single_nan(b) && single_rank(a) >= single_rank(b)
}

/// Compares two single-precision patterns: `a < b`.
pub fn below(a: u32, b: u32) -> (r: bool)
    ensures
        r == single_below(a, b),
{
    proof {
        lemma_single_order(a, b);
    }
    !is_single_nan(a) && !is_single_nan(b) && single_rank(a) < single_rank(b)
}

/// Whether `n` samples at 16 kHz last longer than `seconds`, a single-precision
/// number; never so where that is a NaN.
pub open spec fn lasts_longer(n: int, seconds: u32) -> bool {
    !single_is_nan(seconds) && n * single_one() > 16000 * single_value(seconds)
}

/// 2^k.
pub fn power_of_two(k: u32) -> (r: u128)
    requires
        k < 128,
    ensures
        r == pow2(k as nat),
{
    let mut r: u128 = 1;
    let mut i: u32 = 0;
    proof {
        lemma2_to64();
    }
    while i < k
        invariant
            i <= k < 128,
            r == pow2(i as nat),
        decreases k - i,
    {
        proof {
            lemma2_to64();
            lemma_pow2_adds(64, 63);
            lemma_pow2_unfold((i + 1) as nat);
            if i + 1 < 127 {
                lemma_pow2_strictly_increases((i + 1) as nat, 127);
            }
            assert(pow2(127) == 0x8000_0000_0000_0000_0000_0000_0000_0000) by {
                lemma2_to64_rest();
            }
        }
        r = 2 * r;
        i = i + 1;
    }
    r
}

/// A bound on the recordings that `whole_samples` tells apart, in samples.
pub const SAMPLE_BOUND: u128 = 0x40_0000_0000_0000_0000;

/// The number of whole samples at 16 kHz within `seconds`; none within a negative
/// time, and no more than `SAMPLE_BOUND`.
pub open spec fn samples_within(seconds: u32) -> int {
    let n = if single_value(seconds) < 0 {
        0
    } else {
        16000 * single_value(seconds) / single_one()
    };
    if n < SAMPLE_BOUND {
        n
    } else {
        SAMPLE_BOUND as int
    }
}

/// `samples_within` decides `lasts_longer`.
pub proof fn lemma_lasts_longer(n: int, seconds: u32)
    requires
        !single_is_nan(seconds),
        0 < n <= SAMPLE_BOUND,
    ensures
        lasts_longer(n, seconds) <==> n > samples_within(seconds),
{
    let one = single_one();
    let v = single_value(seconds);
    lemma_pow2_pos(149);
    if v < 0 {
        assert(n * one > 0) by (nonlinear_arith)
            requires
                n > 0,
                one > 0,
        ;
    } else {
        let a = 16000 * v;
        let q = a / one;
        assert(n * one > a <==> n > q) by (nonlinear_arith)
            requires
                one > 0,
                q == a / one,
        ;
    }
}

/// A quotient of two products with a common factor.
pub proof fn lemma_cancel(a: int, b: int, c: int)
    requires
        a >= 0,
        b > 0,
        c > 0,
    ensures
        (a * c) / (b * c) == a / b,
{
    assert(a * c >= 0) by (nonlinear_arith)
        requires
            a >= 0,
            c > 0,
    ;
    vstd::arithmetic::div_mod::lemma_div_denominator(a * c, c, b);
    vstd::arithmetic::div_mod::lemma_div_multiples_vanish(a, c);
    assert(a * c == c * a) by (nonlinear_arith);
    assert(b * c == c * b) by (nonlinear_arith);
}

/// The number of whole samples within a time in seconds (single precision).
pub fn whole_samples(seconds: u32) -> (whole: u128)
    ensures
        whole == samples_within(seconds),
{
    let exponent: u32 = (seconds / 0x80_0000) % 256;
    let fraction: u32 = seconds % 0x80_0000;
    if seconds >= 0x8000_0000 {
        proof {
            lemma_single_magnitude_order(0x8000_0000, seconds);
            lemma_zero_magnitude();
            lemma_pow2_pos(149);
            assert(0int / single_one() == 0) by (nonlinear_arith)
                requires
                    single_one() > 0,
            ;
        }
        return 0;
    }
    let scale: u32 = if exponent == 0 { 0 } else { exponent - 1 };
    let significand: u128 = if exponent == 0 { fraction as u128 } else {
        fraction as u128 + 0x80_0000
    };
    let product: u128 = 16000 * significand;
    proof {
        lemma_pow2_pos(149);
        lemma_pow2_pos(scale as nat);
        lemma_zero_magnitude();
        lemma_single_magnitude_order(0, seconds);
        assert(16000 * single_value(seconds) == product * pow2(scale as nat)) by (nonlinear_arith)
            requires
                single_value(seconds) == significand * pow2(scale as nat),
                product == 16000 * significand,
        ;
    }
    if scale >= 149 {
        let k: u32 = scale - 149;
        proof {
            lemma_pow2_adds(k as nat, 149);
            lemma_pow2_pos(k as nat);
            let pk = pow2(k as nat) as int;
            let one = single_one();
            assert((product * (pk * one)) / one == product * pk) by {
                assert(product * (pk * one) == (product * pk) * one) by (nonlinear_arith);
                vstd::arithmetic::div_mod::lemma_div_by_multiple(product * pk, one);
            }
        }
        if k >= 60 {
            proof {
                lemma2_to64();
                lemma2_to64_rest();
                if k > 60 {
                    lemma_pow2_strictly_increases(60, k as nat);
                }
                assert(product * pow2(k as nat) >= SAMPLE_BOUND) by (nonlinear_arith)
                    requires
                        product >= 16000 * 0x80_0000,
                        pow2(k as nat) >= 0x1000_0000_0000_0000,
                ;
            }
            return SAMPLE_BOUND;
        }
        let factor: u128 = power_of_two(k);
        proof {
            lemma2_to64();
            lemma2_to64_rest();
            lemma_pow2_strictly_increases(k as nat, 60);
            assert(product * factor <= u128::MAX) by (nonlinear_arith)
                requires
                    product <= 16000 * 0x100_0000,
                    factor <= 0x1000_0000_0000_0000,
            ;
        }
        let n: u128 = product * factor;
        if n < SAMPLE_BOUND {
            n
        } else {
            SAMPLE_BOUND
        }
    } else {
        let k: u32 = 149 - scale;
        proof {
            lemma_pow2_adds(k as nat, scale as nat);
            lemma_pow2_pos(k as nat);
            lemma_cancel(product as int, pow2(k as nat) as int, pow2(scale as nat) as int);
        }
        if k >= 64 {
            proof {
                lemma2_to64();
                if k > 64 {
                    lemma_pow2_strictly_increases(64, k as nat);
                }
                vstd::arithmetic::div_mod::lemma_basic_div(product as int, pow2(k as nat) as int);
            }
            0
        } else {
            let divisor: u128 = power_of_two(k);
            proof {
                assert(product / divisor <= product) by (nonlinear_arith)
                    requires
                        divisor >= 1,
                ;
            }
            product / divisor
        }
    }
}

/// `bit_length` by the powers of two around a number.
pub proof fn lemma_bit_length(n: nat)
    requires
        n > 0,
    ensures
        bit_length(n) > 0,
        pow2((bit_length(n) - 1) as nat) <= n < pow2(bit_length(n)),
    decreases n,
{
    lemma2_to64();
    if n == 1 {
        assert(bit_length(0) == 0);
        assert(bit_length(1) == 1);
    } else {
        let h = n / 2;
        lemma_bit_length(h);
        lemma_pow2_unfold(bit_length(h));
        lemma_pow2_unfold(bit_length(n));
    }
}

/// The powers of two around a number give its `bit_length`.
pub proof fn lemma_bit_length_unique(n: nat, l: nat)
    requires
        l > 0,
        pow2((l - 1) as nat) <= n < pow2(l),
    ensures
        bit_length(n) == l,
{
    lemma_pow2_pos((l - 1) as nat);
    lemma_bit_length(n);
    let b = bit_length(n);
    if b < l {
        if b < l - 1 {
            lemma_pow2_strictly_increases(b, (l - 1) as nat);
        }
    } else if l < b {
        if l < b - 1 {
            lemma_pow2_strictly_increases(l, (b - 1) as nat);
        }
    }
}

/// Scaling by a power of two adds to the `bit_length`.
pub proof fn lemma_bit_length_scaled(n: nat, k: nat)
    requires
        n > 0,
    ensures
        bit_length(n * pow2(k)) == bit_length(n) + k,
{
    let b = bit_length(n);
    lemma_bit_length(n);
    lemma_pow2_adds((b - 1) as nat, k);
    lemma_pow2_adds(b, k);
    lemma_pow2_pos(k);
    assert(pow2((b - 1) as nat) * pow2(k) <= n * pow2(k) < pow2(b) * pow2(k)) by (nonlinear_arith)
        requires
            pow2((b - 1) as nat) <= n < pow2(b),
            pow2(k) > 0,
    ;
    lemma_bit_length_unique(n * pow2(k), b + k);
}

/// Rounding a quotient does not depend on a common factor.
pub proof fn lemma_round_half_even_scaled(num: nat, den: nat, c: nat)
    requires
        den > 0,
        c > 0,
    ensures
        round_half_even(num * c, den * c) == round_half_even(num, den),
{
    let q = num / den;
    let r = num % den;
    vstd::arithmetic::div_mod::lemma_fundamental_div_mod(num as int, den as int);
    assert(num * c == q * (den * c) + r * c) by (nonlinear_arith)
        requires
            num == den * q + r,
    ;
    assert(0 <= r * c < den * c) by (nonlinear_arith)
        requires
            0 <= r < den,
            c > 0,
    ;
    vstd::arithmetic::div_mod::lemma_fundamental_div_mod_converse(
        (num * c) as int,
        (den * c) as int,
        q as int,
        (r * c) as int,
    );
    assert((2 * (r * c) < den * c <==> 2 * r < den) && (2 * (r * c) == den * c <==> 2 * r == den))
        by (nonlinear_arith)
        requires
            c > 0,
    ;
}

/// A multiple of the unit is not rounded.
pub proof fn lemma_round_half_even_exact(q: nat, den: nat)
    requires
        den > 0,
    ensures
        round_half_even(q * den, den) == q,
{
    vstd::arithmetic::div_mod::lemma_div_by_multiple(q as int, den as int);
    vstd::arithmetic::div_mod::lemma_mod_multiples_basic(q as int, den as int);
}

/// Rounding to a number of significant digits commutes with scaling by a power
/// of two.
pub proof fn lemma_round_to_width_scaled(n: nat, k: nat, width: nat)
    requires
        width > 0,
    ensures
        round_to_width(n * pow2(k), width) == round_to_width(n, width) * pow2(k),
{
    let c = pow2(k);
    lemma_pow2_pos(k);
    if n == 0 {
        assert(n * c == 0);
        assert(bit_length(0) == 0);
    } else {
        let l = bit_length(n);
        lemma_bit_length_scaled(n, k);
        if l <= width {
            if l + k > width {
                let d = (l + k - width) as nat;
                let m = (k - d) as nat;
                lemma_pow2_adds(m, d);
                lemma_pow2_pos(d);
                assert(n * c == (n * pow2(m)) * pow2(d)) by (nonlinear_arith)
                    requires
                        c == pow2(m) * pow2(d),
                ;
                lemma_round_half_even_exact(n * pow2(m), pow2(d));
            }
        } else {
            let unit = pow2((l - width) as nat);
            lemma_pow2_pos((l - width) as nat);
            lemma_pow2_adds((l - width) as nat, k);
            lemma_round_half_even_scaled(n, unit, c);
            let q = round_half_even(n, unit);
            assert(q * (unit * c) == (q * unit) * c) by (nonlinear_arith);
        }
    }
}

/// A rounded number is not rounded again, and has the digits of the number it was
/// rounded from, or one more.
pub proof fn lemma_round_to_width_again(n: nat, width: nat)
    requires
        width > 0,
        n > 0,
    ensures
        round_to_width(round_to_width(n, width), width) == round_to_width(n, width),
        bit_length(n) <= bit_length(round_to_width(n, width)) <= bit_length(n) + 1,
        round_to_width(n, width) > 0,
{
    let l = bit_length(n);
    if l > width {
        let unit = pow2((l - width) as nat);
        lemma_pow2_pos((l - width) as nat);
        lemma_bit_length(n);
        lemma_pow2_adds((width - 1) as nat, (l - width) as nat);
        lemma_pow2_adds(width, (l - width) as nat);
        lemma_pow2_pos((width - 1) as nat);
        vstd::arithmetic::div_mod::lemma_fundamental_div_mod(n as int, unit as int);
        let low = n / unit;
        assert(pow2((width - 1) as nat) <= low < pow2(width)) by (nonlinear_arith)
            requires
                pow2((width - 1) as nat) * unit <= n < pow2(width) * unit,
                n == unit * low + n % unit,
                0 <= n % unit < unit,
        ;
        let q = round_half_even(n, unit);
        let r = q * unit;
        if q < pow2(width) {
            assert(pow2((width - 1) as nat) * unit <= r < pow2(width) * unit) by (nonlinear_arith)
                requires
                    pow2((width - 1) as nat) <= q < pow2(width),
                    r == q * unit,
                    unit > 0,
            ;
            lemma_bit_length_unique(r, l);
            lemma_round_half_even_exact(q, unit);
        } else {
            assert(r == pow2(l));
            lemma_pow2_strictly_increases(l, l + 1);
            lemma_bit_length_unique(r, l + 1);
            lemma_pow2_adds((width - 1) as nat, (l + 1 - width) as nat);
            lemma_pow2_pos((l + 1 - width) as nat);
            lemma_round_half_even_exact(
                pow2((width - 1) as nat),
                pow2((l + 1 - width) as nat),
            );
        }
    }
}

/// The number of binary digits of `n`.
pub fn digits(n: u128) -> (l: u32)
    ensures
        l == bit_length(n as nat),
        l <= 128,
{
    let mut l: u32 = 0;
    let mut rest: u128 = n;
    proof {
        lemma_pow2_adds(64, 64);
        lemma2_to64();
        if n > 0 {
            lemma_bit_length(n as nat);
            if bit_length(n as nat) > 128 {
                lemma_pow2_strictly_increases(128, bit_length(n as nat));
                if bit_length(n as nat) > 129 {
                    lemma_pow2_strictly_increases(128, (bit_length(n as nat) - 1) as nat);
                }
            }
        }
    }
    while rest > 0
        invariant
            l + bit_length(rest as nat) == bit_length(n as nat),
            bit_length(n as nat) <= 128,
        decreases rest,
    {
        rest = rest / 2;
        l = l + 1;
    }
    l
}

/// Rounds to `width` significant binary digits, ties to even.
pub fn rounded(n: u128, width: u32) -> (r: u128)
    requires
        width > 0,
        n < 0x4000_0000_0000_0000_0000_0000_0000_0000,
    ensures
        r == round_to_width(n as nat, width as nat),
        r <= 2 * n,
{
    let l: u32 = digits(n);
    if l <= width {
        return n;
    }
    let unit: u128 = power_of_two(l - width);
    proof {
        lemma_bit_length(n as nat);
        lemma_pow2_pos((l - width) as nat);
        if l - width < l - 1 {
            lemma_pow2_strictly_increases((l - width) as nat, (l - 1) as nat);
        }
        vstd::arithmetic::div_mod::lemma_fundamental_div_mod(n as int, unit as int);
        let q = n / unit;
        assert(q * unit <= n && (q + 1) * unit <= n + unit) by (nonlinear_arith)
            requires
                n == unit * q + n % unit,
                n % unit >= 0,
        ;
    }
    let q: u128 = n / unit;
    let r: u128 = n % unit;
    if r < unit - r || (r == unit - r && q % 2 == 0) {
        q * unit
    } else {
        (q + 1) * unit
    }
}

/// A rounded number is a multiple of the unit it was rounded to.
pub proof fn lemma_representable(n: nat, width: nat)
    requires
        round_to_width(n, width) == n,
        bit_length(n) > width,
    ensures
        n == (n / pow2((bit_length(n) - width) as nat)) * pow2((bit_length(n) - width) as nat),
{
    let unit = pow2((bit_length(n) - width) as nat);
    lemma_pow2_pos((bit_length(n) - width) as nat);
    let q = round_half_even(n, unit);
    vstd::arithmetic::div_mod::lemma_div_by_multiple(q as int, unit as int);
}

/// The single-precision pattern of `n * 2^scale` (in units of 2^-149), where that
/// is a normal number.
pub fn single_pattern(n: u128, scale: u32) -> (bits: u32)
    requires
        0 < n < 0x4000_0000_0000_0000_0000_0000_0000_0000,
        round_to_width(n as nat, 24) == n,
        24 <= scale + bit_length(n as nat) <= 277,
    ensures
        !single_is_nan(bits),
        !single_negative(bits),
        single_value(bits) == n * pow2(scale as nat),
{
    let l: u32 = digits(n);
    let e: u32 = scale + l - 24;
    let significand: u128;
    proof {
        lemma_bit_length(n as nat);
        lemma2_to64();
        lemma_pow2_adds(64, 62);
        lemma2_to64_rest();
        if l > 126 {
            lemma_pow2_strictly_increases(126, l as nat);
            if l > 127 {
                lemma_pow2_strictly_increases(126, (l - 1) as nat);
            }
        }
    }
    if l <= 24 {
        let factor: u128 = power_of_two(24 - l);
        proof {
            lemma_pow2_adds((l - 1) as nat, (24 - l) as nat);
            lemma_pow2_adds(l as nat, (24 - l) as nat);
            lemma_pow2_adds(e as nat, (24 - l) as nat);
            lemma_pow2_pos((24 - l) as nat);
            assert(pow2((l - 1) as nat) * factor <= n * factor < pow2(l as nat) * factor)
                by (nonlinear_arith)
                requires
                    pow2((l - 1) as nat) <= n < pow2(l as nat),
                    factor > 0,
            ;
            assert((n * factor) * pow2(e as nat) == n * (pow2(e as nat) * factor))
                by (nonlinear_arith);
        }
        significand = n * factor;
        assert(significand * pow2(e as nat) == n * pow2(scale as nat));
    } else {
        let unit: u128 = power_of_two(l - 24);
        proof {
            lemma_representable(n as nat, 24);
            lemma_pow2_adds(23, (l - 24) as nat);
            lemma_pow2_adds(24, (l - 24) as nat);
            lemma_pow2_adds(scale as nat, (l - 24) as nat);
            lemma_pow2_pos((l - 24) as nat);
            let q = n / unit;
            assert(0x80_0000 <= q < 0x100_0000) by (nonlinear_arith)
                requires
                    n == q * unit,
                    0x80_0000 * unit <= n < 0x100_0000 * unit,
                    unit > 0,
            ;
            assert(q * (pow2(scale as nat) * unit) == (q * unit) * pow2(scale as nat))
                by (nonlinear_arith);
        }
        significand = n / unit;
        assert(significand * pow2(e as nat) == n * pow2(scale as nat));
    }
    (e + 1) * 0x80_0000 + (significand as u32 - 0x80_0000)
}

/// A larger number has no fewer digits.
pub proof fn lemma_bit_length_monotone(n: nat, m: nat)
    requires
        n <= m,
    ensures
        bit_length(n) <= bit_length(m),
{
    if n > 0 {
        lemma_bit_length(n);
        lemma_bit_length(m);
        let a = bit_length(n);
        let b = bit_length(m);
        if a > b && a - 1 > b {
            lemma_pow2_strictly_increases(b, (a - 1) as nat);
        }
    }
}

/// Rounding does not exceed a representable upper bound.
pub proof fn lemma_round_to_width_bound(n: nat, m: nat, width: nat)
    requires
        width > 0,
        n <= m,
        round_to_width(m, width) == m,
    ensures
        round_to_width(n, width) <= m,
{
    let l = bit_length(n);
    if l > width {
        lemma_bit_length_monotone(n, m);
        let d = (l - width) as nat;
        let e = (bit_length(m) - l) as nat;
        let unit = pow2(d);
        lemma_pow2_pos(d);
        lemma_representable(m, width);
        lemma_pow2_adds(e, d);
        let a = m / pow2((bit_length(m) - width) as nat);
        let k = a * pow2(e);
        assert(m == k * unit) by (nonlinear_arith)
            requires
                m == a * (pow2(e) * unit),
                k == a * pow2(e),
        ;
        vstd::arithmetic::div_mod::lemma_fundamental_div_mod(n as int, unit as int);
        let q = n / unit;
        let r = n % unit;
        assert(q <= k && (q == k ==> r == 0)) by (nonlinear_arith)
            requires
                n == unit * q + r,
                0 <= r < unit,
                n <= k * unit,
        ;
        let rounded = round_half_even(n, unit);
        assert(rounded <= k);
        assert(rounded * unit <= k * unit) by (nonlinear_arith)
            requires
                rounded <= k,
        ;
    }
}

/// Rounding does not fall below a representable lower bound.
pub proof fn lemma_round_to_width_lower_bound(n: nat, m: nat, width: nat)
    requires
        width > 0,
        m <= n,
        round_to_width(m, width) == m,
    ensures
        round_to_width(n, width) >= m,
{
    let l = bit_length(n);
    if l > width {
        let unit = pow2((l - width) as nat);
        lemma_pow2_pos((l - width) as nat);
        vstd::arithmetic::div_mod::lemma_fundamental_div_mod(n as int, unit as int);
        let q = n / unit;
        lemma_bit_length(n);
        lemma_pow2_adds((width - 1) as nat, (l - width) as nat);
        if bit_length(m) < l {
            // `q` has all `width` digits, so `q * unit` is above `m` already.
            assert(q >= pow2((width - 1) as nat)) by (nonlinear_arith)
                requires
                    n == unit * q + n % unit,
                    0 <= n % unit < unit,
                    pow2((width - 1) as nat) * unit <= n,
            ;
            assert(q * unit >= pow2((width - 1) as nat) * unit) by (nonlinear_arith)
                requires
                    q >= pow2((width - 1) as nat),
            ;
            if m > 0 {
                lemma_bit_length(m);
                if bit_length(m) < l - 1 {
                    lemma_pow2_strictly_increases(bit_length(m), (l - 1) as nat);
                }
            }
        } else {
            lemma_bit_length_monotone(m, n);
            lemma_representable(m, width);
            let k = m / unit;
            assert(k <= q) by (nonlinear_arith)
                requires
                    k * unit <= n,
                    n == unit * q + n % unit,
                    0 <= n % unit < unit,
            ;
            assert(k * unit <= q * unit) by (nonlinear_arith)
                requires
                    k <= q,
            ;
        }
        let r = round_half_even(n, unit);
        assert(q * unit <= r * unit) by (nonlinear_arith)
            requires
                q <= r,
        ;
    }
}

/// Numbers of no more than `width` digits, scaled by a power of two, are
/// representable.
pub proof fn lemma_scaled_representable(n: nat, k: nat, width: nat)
    requires
        n < pow2(width),
        width > 0,
    ensures
        round_to_width(n * pow2(k), width) == n * pow2(k),
{
    lemma_round_to_width_scaled(n, k, width);
    if n > 0 {
        lemma_bit_length(n);
        let b = bit_length(n);
        if b > width && b - 1 > width {
            lemma_pow2_strictly_increases(width, (b - 1) as nat);
        }
    }
}

/// Single-precision numbers are representable with 24 digits.
pub proof fn lemma_single_representable(bits: u32)
    ensures
        single_magnitude(bits) >= 0,
        round_to_width(single_magnitude(bits) as nat, 24) == single_magnitude(bits),
{
    lemma2_to64();
    lemma_scaled_representable(single_significand(bits) as nat, single_scale(bits), 24);
}

} // verus!
