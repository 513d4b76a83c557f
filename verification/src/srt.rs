//! SRT subtitles.

use crate::double;
use crate::ieee;
use crate::text;
use vstd::arithmetic::power2::*;
use vstd::prelude::*;

verus! {

/// A subtitle: its text, and when it begins and ends, in seconds (double
/// precision).
pub struct SrtEntry {
    pub start: u64,
    pub end: u64,
    pub text: String,
}

/// A time in seconds as milliseconds: the product with 1000 in double precision,
/// to the nearest integer, a half upwards.  Negative times and NaN count as zero,
/// and 64 bits hold the largest result.
pub open spec fn millis(seconds: u64) -> int {
    if double::double_is_nan(seconds) || double::double_negative(seconds) {
        0
    } else {
        let one = double::double_one();
        let product = ieee::round_to_width((double::double_magnitude(seconds) * 1000) as nat, 53);
        let ms = (2 * product + one) / (2 * one);
        if ms <= u64::MAX {
            ms
        } else {
            u64::MAX as int
        }
    }
}

/// Milliseconds as hours, minutes, seconds and milliseconds.
pub open spec fn timestamp(ms: int) -> Seq<char> {
    text::zero_padded((ms / 3_600_000) as nat, 2) + ":"@ + text::zero_padded(
        ((ms / 60_000) % 60) as nat,
        2,
    ) + ":"@ + text::zero_padded(((ms / 1000) % 60) as nat, 2) + ","@ + text::zero_padded(
        (ms % 1000) as nat,
        3,
    )
}

/// A subtitle as it stands in a file, with its number; nothing if it has no text.
pub open spec fn block(number: int, start: u64, end: u64, content: Seq<char>) -> Seq<char> {
    let t = text::trimmed(content);
    if t.len() == 0 {
        Seq::empty()
    } else {
        text::decimal(number as nat) + "\n"@ + timestamp(millis(start)) + " --> "@ + timestamp(
            millis(end),
        ) + "\n"@ + t + "\n\n"@
    }
}

/// A file of subtitles.  They are numbered from one; those without text are left
/// out, but counted.
pub open spec fn srt_file(entries: Seq<SrtEntry>) -> Seq<char>
    decreases entries.len(),
{
    if entries.len() == 0 {
        Seq::empty()
    } else {
        srt_file(entries.drop_last()) + block(
            entries.len() as int,
            entries.last().start,
            entries.last().end,
            entries.last().text@,
        )
    }
}

proof fn lemma_millis_scaled(significand: nat, scale: nat)
    ensures
        ({
            let one = double::double_one();
            let product = ieee::round_to_width(((significand * pow2(scale)) * 1000) as nat, 53);
            let r = ieee::round_to_width(significand * 1000, 53);
            let ms = (2 * product + one) / (2 * one);
            if scale >= 1074 {
                ms == r * pow2((scale - 1074) as nat)
            } else {
                let half = pow2((1074 - scale) as nat);
                ms == (2 * r + half) as int / (2 * half) as int
            }
        }),
{
    let s = pow2(scale);
    let one = double::double_one();
    lemma_pow2_pos(scale);
    lemma_pow2_pos(1074);
    let p = significand * 1000;
    assert((significand * s) * 1000 == p * s) by (nonlinear_arith)
        requires
            p == significand * 1000,
    ;
    ieee::lemma_round_to_width_scaled(p, scale, 53);
    let r = ieee::round_to_width(p, 53);
    if scale >= 1074 {
        let t = pow2((scale - 1074) as nat);
        lemma_pow2_adds((scale - 1074) as nat, 1074);
        let x = r * t;
        assert(r * (t * one) == x * one) by (nonlinear_arith)
            requires
                x == r * t,
        ;
        assert((2 * (x * one) + one) / (2 * one) == x) by (nonlinear_arith)
            requires
                one > 0,
        ;
    } else {
        let k = (1074 - scale) as nat;
        lemma_pow2_adds(k, scale);
        lemma_pow2_pos(k);
        assert(2 * (r * s) + pow2(k) * s == (2 * r + pow2(k)) * s) by (nonlinear_arith);
        assert(2 * (pow2(k) * s) == (2 * pow2(k)) * s) by (nonlinear_arith);
        ieee::lemma_cancel((2 * r + pow2(k)) as int, (2 * pow2(k)) as int, s as int);
    }
}

/// A time in seconds (double precision) as milliseconds.
pub fn total_millis(seconds: u64) -> (ms: u64)
    ensures
        ms == millis(seconds),
{
    if double::is_double_nan(seconds) || seconds >= 0x8000_0000_0000_0000 {
        return 0;
    }
    let exponent: u32 = ((seconds / 0x10_0000_0000_0000) % 2048) as u32;
    let fraction: u64 = seconds % 0x10_0000_0000_0000;
    let scale: u32 = if exponent == 0 { 0 } else { exponent - 1 };
    let significand: u128 = if exponent == 0 { fraction as u128 } else {
        fraction as u128 + 0x10_0000_0000_0000
    };
    proof {
        lemma_millis_scaled(significand as nat, scale as nat);
        lemma2_to64();
        lemma2_to64_rest();
    }
    let r: u128 = ieee::rounded(significand * 1000, 53);
    if scale >= 1074 {
        let k: u32 = scale - 1074;
        proof {
            lemma_pow2_pos(k as nat);
            ieee::lemma_scaled_representable(1, 52, 53);
            ieee::lemma_round_to_width_lower_bound(
                (significand * 1000) as nat,
                0x10_0000_0000_0000,
                53,
            );
        }
        if k >= 60 {
            proof {
                if k > 60 {
                    lemma_pow2_strictly_increases(60, k as nat);
                }
                assert(r * pow2(k as nat) > u64::MAX) by (nonlinear_arith)
                    requires
                        r >= 0x10_0000_0000_0000,
                        pow2(k as nat) >= 0x1000_0000_0000_0000,
                ;
            }
            return u64::MAX;
        }
        let factor: u128 = ieee::power_of_two(k);
        proof {
            lemma_pow2_strictly_increases(k as nat, 60);
            assert(r * factor <= u128::MAX) by (nonlinear_arith)
                requires
                    r <= 0x1_0000_0000_0000_0000,
                    factor <= 0x1000_0000_0000_0000,
            ;
        }
        let ms: u128 = r * factor;
        if ms <= u64::MAX as u128 {
            ms as u64
        } else {
            u64::MAX
        }
    } else {
        let k: u32 = 1074 - scale;
        if k >= 70 {
            proof {
                lemma_pow2_adds(64, 6);
                if k > 70 {
                    lemma_pow2_strictly_increases(70, k as nat);
                }
                vstd::arithmetic::div_mod::lemma_basic_div(
                    2 * r + pow2(k as nat),
                    2 * pow2(k as nat) as int,
                );
            }
            return 0;
        }
        let half: u128 = ieee::power_of_two(k);
        proof {
            lemma_pow2_adds(64, 6);
            lemma_pow2_strictly_increases(k as nat, 70);
            if k > 1 {
                lemma_pow2_strictly_increases(1, k as nat);
            }
            assert(0 <= (2 * r + half) / (2 * half) <= u64::MAX) by (nonlinear_arith)
                requires
                    0 <= r <= 0x1_0000_0000_0000_0000,
                    half >= 2,
            ;
        }
        ((2 * r + half) / (2 * half)) as u64
    }
}

/// Formats a time in seconds (double precision).
pub fn format_timestamp(seconds: u64) -> (s: String)
    ensures
        s@ == timestamp(millis(seconds)),
{
    let total_ms: u64 = total_millis(seconds);
    let ms: u64 = total_ms % 1000;
    let total_s: u64 = total_ms / 1000;
    let sec: u64 = total_s % 60;
    let min: u64 = (total_s / 60) % 60;
    let hour: u64 = total_s / 3600;
    let mut s = text::to_zero_padded(hour, 2);
    s.append(":");
    s.append(text::to_zero_padded(min, 2).as_str());
    s.append(":");
    s.append(text::to_zero_padded(sec, 2).as_str());
    s.append(",");
    s.append(text::to_zero_padded(ms, 3).as_str());
    s
}

fn write_block(number: u64, e: &SrtEntry) -> (b: String)
    ensures
        b@ == block(number as int, e.start, e.end, e.text@),
{
    let t = text::trim(e.text.as_str());
    if t.as_str().is_empty() {
        return String::new();
    }
    let mut b = text::to_decimal(number);
    b.append("\n");
    b.append(format_timestamp(e.start).as_str());
    b.append(" --> ");
    b.append(format_timestamp(e.end).as_str());
    b.append("\n");
    b.append(t.as_str());
    b.append("\n\n");
    b
}

/// The text of an SRT file.
pub fn write_srt(entries: &[SrtEntry]) -> (out: String)
    ensures
        out@ == srt_file(entries@),
{
    let mut out = String::new();
    let mut i: usize = 0;
    while i < entries.len()
        invariant
            i <= entries@.len(),
            out@ == srt_file(entries@.take(i as int)),
        decreases entries@.len() - i,
    {
        assert(entries@.take(i + 1).drop_last() =~= entries@.take(i as int));
        let e = &entries[i];
        out.append(write_block(i as u64 + 1, e).as_str());
        i = i + 1;
    }
    assert(entries@.take(i as int) =~= entries@);
    out
}

/// A timestamp ends in two digits of minutes below 60, two of seconds below 60 and
/// three of milliseconds; with the hours before them they read back as the time.
pub proof fn law_timestamp_reads_back(ms: int)
    requires
        ms >= 0,
    ensures
        ({
            let t = timestamp(ms);
            let n = t.len() as int;
            let hour = text::number(t.subrange(0, n - 10));
            let min = text::number(t.subrange(n - 9, n - 7));
            let sec = text::number(t.subrange(n - 6, n - 4));
            let milli = text::number(t.subrange(n - 3, n));
            &&& n >= 12
            &&& t[n - 10] == ':' && t[n - 7] == ':' && t[n - 4] == ','
            &&& 0 <= min < 60 && 0 <= sec < 60 && 0 <= milli < 1000
            &&& 3_600_000 * hour + 60_000 * min + 1000 * sec + milli == ms
        }),
{
    let h = (ms / 3_600_000) as nat;
    let m = ((ms / 60_000) % 60) as nat;
    let s = ((ms / 1000) % 60) as nat;
    let i = (ms % 1000) as nat;
    text::law_zero_padded_reads_back(h, 2);
    text::law_zero_padded_reads_back(m, 2);
    text::law_zero_padded_reads_back(s, 2);
    text::law_zero_padded_reads_back(i, 3);
    text::lemma_decimal_width(m);
    text::lemma_decimal_width(s);
    text::lemma_decimal_width(i);
    lemma_fields_sum(ms);
    assert(text::zero_padded(m, 2).len() == 2);
    assert(text::zero_padded(s, 2).len() == 2);
    assert(text::zero_padded(i, 3).len() == 3);
    lemma_fields(
        text::zero_padded(h, 2),
        text::zero_padded(m, 2),
        text::zero_padded(s, 2),
        text::zero_padded(i, 3),
    );
}

proof fn lemma_fields_sum(ms: int)
    requires
        ms >= 0,
    ensures
        3_600_000 * (ms / 3_600_000) + 60_000 * ((ms / 60_000) % 60) + 1000 * ((ms / 1000) % 60)
            + ms % 1000 == ms,
{
    let s = ms / 1000;
    let m = s / 60;
    assert(ms / 60_000 == m);
    assert(ms / 3_600_000 == m / 60);
    assert(m == 60 * (m / 60) + m % 60);
    assert(s == 60 * m + s % 60);
}

/// The fields of a timestamp, found from its end.
pub proof fn lemma_fields(a: Seq<char>, b: Seq<char>, c: Seq<char>, d: Seq<char>)
    requires
        a.len() >= 2,
        b.len() == 2,
        c.len() == 2,
        d.len() == 3,
    ensures
        ({
            let t = a + ":"@ + b + ":"@ + c + ","@ + d;
            let n = t.len() as int;
            &&& n >= 12
            &&& t[n - 10] == ':' && t[n - 7] == ':' && t[n - 4] == ','
            &&& t.subrange(0, n - 10) == a
            &&& t.subrange(n - 9, n - 7) == b
            &&& t.subrange(n - 6, n - 4) == c
            &&& t.subrange(n - 3, n) == d
        }),
{
    reveal_strlit(":");
    reveal_strlit(",");
    let t = a + ":"@ + b + ":"@ + c + ","@ + d;
    let n = t.len() as int;
    assert(t.subrange(0, n - 10) =~= a);
    assert(t.subrange(n - 9, n - 7) =~= b);
    assert(t.subrange(n - 6, n - 4) =~= c);
    assert(t.subrange(n - 3, n) =~= d);
}

pub proof fn lemma_rounding_error(num: nat, den: nat)
    requires
        den > 0,
    ensures
        -(den as int) <= 2 * (ieee::round_half_even(num, den) * den - num) <= den,
{
    let q = num / den;
    let r = num % den;
    vstd::arithmetic::div_mod::lemma_fundamental_div_mod(num as int, den as int);
    assert(q * den == den * q) by (nonlinear_arith);
    assert((q + 1) * den == den * q + den) by (nonlinear_arith);
}

pub proof fn lemma_unit(x: nat, width: nat)
    requires
        0 < width < ieee::bit_length(x),
    ensures
        pow2((ieee::bit_length(x) - width) as nat) * pow2((width - 1) as nat) <= x,
{
    let l = ieee::bit_length(x);
    if x == 0 {
        assert(l == 0);
    }
    ieee::lemma_bit_length(x);
    lemma_pow2_adds((l - width) as nat, (width - 1) as nat);
}

/// The time of a sample is off by at most an eighth of a sample.
proof fn lemma_seconds_error(n: nat)
    requires
        n <= 0x4_0000_0000_0000,
    ensures
        ({
            let one = double::double_one();
            let v = double::seconds_value(n) as int;
            -one <= 8 * (16000 * v - n * one) <= one
        }),
{
    let one = pow2(1074);
    let v = double::seconds_value(n);
    lemma_pow2_pos(1074);
    lemma2_to64();
    lemma2_to64_rest();
    ieee::lemma_bit_length_monotone(n, 0x4_0000_0000_0000);
    ieee::lemma_bit_length_unique(0x4_0000_0000_0000, 51);
    let num = n * one;
    assert(ieee::round_to_width(n, 53) == n);
    let l = ieee::bit_length(num / 16000);
    let unit = if l <= 53 {
        1
    } else {
        pow2((l - 53) as nat)
    };
    lemma_pow2_pos((l - 53) as nat);
    let d = 16000 * unit;
    let rounded = ieee::round_half_even(num, d);
    assert(v == rounded * unit);
    lemma_rounding_error(num, d);
    assert(rounded * d == 16000 * v) by (nonlinear_arith)
        requires
            v == rounded * unit,
            d == 16000 * unit,
    ;
    assert(n * one <= 0x4_0000_0000_0000 * one) by (nonlinear_arith)
        requires
            n <= 0x4_0000_0000_0000,
            one > 0,
    ;
    if l > 53 {
        lemma_unit(num / 16000, 53);
        assert(pow2(52) == 0x10_0000_0000_0000);
        assert(unit * 0x10_0000_0000_0000 <= num / 16000);
        assert(d * 0x10_0000_0000_0000 <= num);
    } else {
        lemma_pow2_adds(64, 1010);
        lemma_pow2_pos(1010);
        assert(one >= 0x1_0000_0000_0000_0000) by (nonlinear_arith)
            requires
                one == 0x1_0000_0000_0000_0000 * pow2(1010),
                pow2(1010) >= 1,
        ;
        assert(d == 16000);
    }
}

/// A subtitle begins or ends within half a millisecond of the sample that it was
/// cut at; there are 16 samples to a millisecond.
pub proof fn law_time_of_sample(bits: u64, n: nat)
    requires
        double::is_time(bits, n),
        n <= 0x4_0000_0000_0000,
    ensures
        -8 <= 16 * millis(bits) - n <= 8,
{
    let one = double::double_one();
    lemma_pow2_pos(1074);
    lemma_seconds_error(n);
    let v = double::seconds_value(n);
    let x = (v * 1000) as nat;
    assert(double::double_magnitude(bits) * 1000 == x);
    let p = ieee::round_to_width(x, 53);
    lemma2_to64();
    lemma2_to64_rest();
    let l = ieee::bit_length(x);
    if l > 53 {
        let unit = pow2((l - 53) as nat);
        lemma_pow2_pos((l - 53) as nat);
        lemma_unit(x, 53);
        lemma_rounding_error(x, unit);
        assert(unit * 0x10_0000_0000_0000 <= x);
    } else {
        assert(p == x);
    }
    assert(n * one <= 0x4_0000_0000_0000 * one) by (nonlinear_arith)
        requires
            n <= 0x4_0000_0000_0000,
            one > 0,
    ;
    assert(-one < 16 * p - n * one < one);
    let ms = (2 * p + one) / (2 * one);
    vstd::arithmetic::div_mod::lemma_fundamental_div_mod(2 * p + one, 2 * one);
    vstd::arithmetic::div_mod::lemma_mod_bound(2 * p + one, 2 * one);
    let t = one * ms;
    assert((2 * one) * ms == 2 * t) by (nonlinear_arith)
        requires
            t == one * ms,
    ;
    assert(-9 * one < 16 * t - n * one < 9 * one);
    assert(-9 < 16 * ms - n < 9) by (nonlinear_arith)
        requires
            -9 * one < 16 * t - n * one < 9 * one,
            t == one * ms,
            one > 0,
    ;
}

/// A later sample has no earlier time in a subtitle.
pub proof fn law_times_in_order(early: u64, late: u64, n: nat, m: nat)
    requires
        double::is_time(early, n),
        double::is_time(late, m),
        n <= m,
    ensures
        millis(early) <= millis(late),
{
    let one = double::double_one();
    lemma_pow2_pos(1074);
    double::lemma_seconds_monotone(n, m);
    let a = (double::double_magnitude(early) * 1000) as nat;
    let b = (double::double_magnitude(late) * 1000) as nat;
    double::lemma_round_to_width_monotone(a, b, 53);
    let p = ieee::round_to_width(a, 53);
    let q = ieee::round_to_width(b, 53);
    vstd::arithmetic::div_mod::lemma_div_is_ordered(2 * p + one, 2 * q + one, 2 * one);
}

} // verus!
