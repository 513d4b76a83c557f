//! PCM helpers: raw little-endian 16-bit samples, and 16-bit mono WAV files.
//!
//! A sample is the pattern of a single-precision number between -1 and 1.

use crate::ieee;
use vstd::arithmetic::power2::*;
use vstd::prelude::*;

verus! {

/// The signed 16-bit number in two bytes, the low one first.
pub open spec fn s16le(low: u8, high: u8) -> int {
    let u = low + 256 * high;
    if u >= 0x8000 {
        u - 0x1_0000
    } else {
        u
    }
}

/// Whether `bits` is the sample of the 16-bit number `v`: exactly `v / 32768`,
/// and zero without a sign.
pub open spec fn is_sample(bits: u32, v: int) -> bool {
    &&& !ieee::single_is_nan(bits)
    &&& 32768 * ieee::single_value(bits) == v * ieee::single_one()
    &&& ieee::single_negative(bits) <==> v < 0
}

fn sample(v: i32) -> (bits: u32)
    requires
        -0x8000 <= v < 0x8000,
    ensures
        is_sample(bits, v as int),
{
    if v == 0 {
        proof {
            ieee::lemma_zero_magnitude();
        }
        return 0;
    }
    let n: u128 = if v < 0 {
        (-v) as u128
    } else {
        v as u128
    };
    proof {
        lemma2_to64();
        ieee::lemma_bit_length(n as nat);
        ieee::lemma_bit_length_monotone(n as nat, 0x8000);
        ieee::lemma_bit_length_unique(0x8000, 16);
        lemma_pow2_adds(15, 134);
    }
    let bits: u32 = ieee::single_pattern(n, 134);
    proof {
        let a = n * pow2(134);
        assert(32768 * a == n * ieee::single_one()) by (nonlinear_arith)
            requires
                a == n * pow2(134),
                ieee::single_one() == 32768 * pow2(134),
        ;
    }
    if v < 0 {
        proof {
            let one = ieee::single_one();
            assert((-n) * one == -(n * one)) by (nonlinear_arith);
        }
        bits + 0x8000_0000
    } else {
        bits
    }
}

/// Whether samples are those of raw 16-bit samples, the low byte first.  A trailing
/// odd byte stands for no sample.
pub open spec fn are_samples(samples: Seq<u32>, bytes: Seq<u8>) -> bool {
    &&& samples.len() == bytes.len() / 2
    &&& forall|i: int|
        0 <= i < samples.len() ==> is_sample(
            #[trigger] samples[i],
            s16le(bytes[2 * i], bytes[2 * i + 1]),
        )
}

/// Decodes raw 16-bit samples, the low byte first.  A trailing odd byte is
/// dropped.
pub fn samples_from_s16le(bytes: &[u8]) -> (samples: Vec<u32>)
    ensures
        are_samples(samples@, bytes@),
{
    let n: usize = bytes.len() / 2;
    let mut out: Vec<u32> = Vec::new();
    let mut i: usize = 0;
    while i < n
        invariant
            n == bytes@.len() / 2,
            i <= n,
            n <= usize::MAX / 2,
            out@.len() == i,
            forall|k: int|
                0 <= k < i ==> is_sample(
                    #[trigger] out@[k],
                    s16le(bytes@[2 * k], bytes@[2 * k + 1]),
                ),
        decreases n - i,
    {
        let u: i32 = bytes[2 * i] as i32 + 256 * bytes[2 * i + 1] as i32;
        let v: i32 = if u >= 0x8000 {
            u - 0x1_0000
        } else {
            u
        };
        out.push(sample(v));
        i = i + 1;
    }
    out
}

/// The absolute value of the 16-bit level of a sample: the sample, no larger than
/// 1, times 32767 in single precision, to the nearest integer (a half away from
/// zero).
pub open spec fn level_magnitude(bits: u32) -> int {
    let one = ieee::single_one();
    let m = if ieee::single_magnitude(bits) < one {
        ieee::single_magnitude(bits)
    } else {
        one
    };
    let product = ieee::round_to_width((m * 32767) as nat, 24);
    (2 * product + one) / (2 * one)
}

/// The 16-bit level of a sample; zero for a NaN.
pub open spec fn level(bits: u32) -> int {
    if ieee::single_is_nan(bits) {
        0
    } else if ieee::single_negative(bits) {
        -level_magnitude(bits)
    } else {
        level_magnitude(bits)
    }
}


/// The level of a sample of magnitude `significand * 2^scale` below 1, without
/// its leading factors.
proof fn lemma_level_scaled(significand: nat, scale: nat, k: nat)
    requires
        scale + k == 149,
        significand < 0x100_0000,
        k >= 24,
    ensures
        significand * pow2(scale) < ieee::single_one(),
        ({
            let product = ieee::round_to_width(((significand * pow2(scale)) * 32767) as nat, 24);
            let r = ieee::round_to_width(significand * 32767, 24);
            let one = ieee::single_one();
            &&& (2 * product + one) / (2 * one) == (2 * r + pow2(k)) as int / (2 * pow2(k)) as int
            &&& r <= 32767 * 0x100_0000
        }),
{
    let s = pow2(scale);
    lemma2_to64();
    lemma_pow2_pos(scale);
    lemma_pow2_pos(k);
    lemma_pow2_adds(k, scale);
    if k > 24 {
        lemma_pow2_strictly_increases(24, k);
    }
    assert(significand * s < pow2(k) * s) by (nonlinear_arith)
        requires
            significand < pow2(k),
            s > 0,
    ;
    let p = significand * 32767;
    assert((significand * s) * 32767 == p * s) by (nonlinear_arith)
        requires
            p == significand * 32767,
    ;
    ieee::lemma_round_to_width_scaled(p, scale, 24);
    let r = ieee::round_to_width(p, 24);
    assert(2 * (r * s) + pow2(k) * s == (2 * r + pow2(k)) * s) by (nonlinear_arith);
    assert(2 * (pow2(k) * s) == (2 * pow2(k)) * s) by (nonlinear_arith);
    ieee::lemma_cancel((2 * r + pow2(k)) as int, (2 * pow2(k)) as int, s as int);
    ieee::lemma_scaled_representable(32767, 24, 24);
    ieee::lemma_round_to_width_bound(p, 32767 * 0x100_0000, 24);
}

pub proof fn lemma_level_of_one()
    ensures
        ({
            let one = ieee::single_one();
            let product = ieee::round_to_width((one * 32767) as nat, 24);
            (2 * product + one) / (2 * one) == 32767
        }),
{
    let one = ieee::single_one();
    lemma2_to64();
    lemma_pow2_pos(149);
    ieee::lemma_scaled_representable(32767, 149, 24);
    assert(one * 32767 == 32767 * one);
    assert((2 * (32767 * one) + one) / (2 * one) == 32767) by (nonlinear_arith)
        requires
            one > 0,
    ;
}

/// The 16-bit level of a sample.
pub fn pcm16_level(bits: u32) -> (v: i16)
    ensures
        v == level(bits),
        -32767 <= v <= 32767,
{
    if ieee::is_single_nan(bits) {
        return 0;
    }
    let exponent: u32 = (bits / 0x80_0000) % 256;
    let fraction: u32 = bits % 0x80_0000;
    let magnitude: i16;
    if exponent >= 127 {
        proof {
            lemma2_to64();
            lemma_pow2_adds(23, 126);
            let e = ieee::single_scale(bits);
            if e > 126 {
                lemma_pow2_strictly_increases(126, e);
            }
            assert(ieee::single_magnitude(bits) >= ieee::single_one()) by (nonlinear_arith)
                requires
                    ieee::single_magnitude(bits) == ieee::single_significand(bits) * pow2(e),
                    ieee::single_significand(bits) >= 0x80_0000,
                    pow2(e) >= pow2(126),
                    ieee::single_one() == 0x80_0000 * pow2(126),
            ;
            lemma_level_of_one();
        }
        magnitude = 32767;
    } else {
        let scale: u32 = if exponent == 0 { 0 } else { exponent - 1 };
        let significand: u128 = if exponent == 0 { fraction as u128 } else {
            fraction as u128 + 0x80_0000
        };
        let k: u32 = 149 - scale;
        proof {
            lemma_level_scaled(significand as nat, scale as nat, k as nat);
            lemma2_to64();
            if k > 24 {
                lemma_pow2_strictly_increases(24, k as nat);
            }
            if k < 64 {
                lemma_pow2_strictly_increases(k as nat, 64);
            }
        }
        let r: u128 = ieee::rounded(significand * 32767, 24);
        if k >= 64 {
            proof {
                if k > 64 {
                    lemma_pow2_strictly_increases(64, k as nat);
                }
                vstd::arithmetic::div_mod::lemma_basic_div(
                    2 * r + pow2(k as nat),
                    2 * pow2(k as nat) as int,
                );
            }
            magnitude = 0;
        } else {
            let half: u128 = ieee::power_of_two(k);
            let q: u128 = (2 * r + half) / (2 * half);
            assert(0 <= q <= 32767) by (nonlinear_arith)
                requires
                    q == (2 * r + half) / (2 * half),
                    0 <= r <= 32767 * 0x100_0000,
                    half >= 0x100_0000,
            ;
            magnitude = q as i16;
        }
    }
    if bits >= 0x8000_0000 {
        -magnitude
    } else {
        magnitude
    }
}

/// A 16-bit number, the low byte first; negative ones as their complement.
pub open spec fn le16(n: int) -> Seq<u8> {
    seq![(n % 256) as u8, ((n / 256) % 256) as u8]
}

/// A 32-bit number, the low byte first.
pub open spec fn le32(n: int) -> Seq<u8> {
    le16(n % 0x1_0000) + le16(n / 0x1_0000)
}

/// The length field of the data of a file of `n` samples.
pub open spec fn data_len(n: int) -> int {
    (2 * n) % 0x1_0000_0000
}

/// The header of a 16-bit mono PCM file of `n` samples at rate `sr`.
pub open spec fn wav_header(n: int, sr: int) -> Seq<u8> {
    seq![0x52u8, 0x49u8, 0x46u8, 0x46u8]  // "RIFF"
        + le32(36 + data_len(n))
        + seq![0x57u8, 0x41u8, 0x56u8, 0x45u8]  // "WAVE"
        + seq![0x66u8, 0x6du8, 0x74u8, 0x20u8]  // "fmt "
        + le32(16)
        + le16(1)  // PCM
        + le16(1)  // mono
        + le32(sr)
        + le32(2 * sr)  // byte rate
        + le16(2)  // block align
        + le16(16)  // bits per sample
        + seq![0x64u8, 0x61u8, 0x74u8, 0x61u8]  // "data"
        + le32(data_len(n))
}

/// The levels of samples, one after the other.
pub open spec fn wav_data(samples: Seq<u32>) -> Seq<u8>
    decreases samples.len(),
{
    if samples.len() == 0 {
        Seq::empty()
    } else {
        wav_data(samples.drop_last()) + le16(level(samples.last()))
    }
}

/// The WAV file of samples at rate `sr`.
pub open spec fn wav_file(samples: Seq<u32>, sr: int) -> Seq<u8> {
    wav_header(samples.len() as int, sr) + wav_data(samples)
}

fn push16(buf: &mut Vec<u8>, n: u16)
    ensures
        final(buf)@ == old(buf)@ + le16(n as int),
{
    buf.push((n % 256) as u8);
    buf.push((n / 256) as u8);
    assert(buf@ =~= old(buf)@ + le16(n as int));
}

fn push32(buf: &mut Vec<u8>, n: u32)
    ensures
        final(buf)@ == old(buf)@ + le32(n as int),
{
    push16(buf, (n % 0x1_0000) as u16);
    push16(buf, (n / 0x1_0000) as u16);
    assert(buf@ =~= old(buf)@ + le32(n as int));
}

fn push_tag(buf: &mut Vec<u8>, a: u8, b: u8, c: u8, d: u8)
    ensures
        final(buf)@ == old(buf)@ + seq![a, b, c, d],
{
    buf.push(a);
    buf.push(b);
    buf.push(c);
    buf.push(d);
    assert(buf@ =~= old(buf)@ + seq![a, b, c, d]);
}

/// Encodes samples as a 16-bit mono PCM WAV file.
pub fn encode_pcm16_mono(samples: &[u32], sr: u32) -> (buf: Vec<u8>)
    requires
        36 + data_len(samples@.len() as int) <= u32::MAX,
        2 * sr <= u32::MAX,
    ensures
        buf@ == wav_file(samples@, sr as int),
{
    let data_len: u32 = ((samples.len() as u128 * 2) % 0x1_0000_0000) as u32;
    let mut buf: Vec<u8> = Vec::new();
    push_tag(&mut buf, 0x52, 0x49, 0x46, 0x46);
    push32(&mut buf, 36 + data_len);
    push_tag(&mut buf, 0x57, 0x41, 0x56, 0x45);
    push_tag(&mut buf, 0x66, 0x6d, 0x74, 0x20);
    push32(&mut buf, 16);
    push16(&mut buf, 1);
    push16(&mut buf, 1);
    push32(&mut buf, sr);
    push32(&mut buf, sr * 2);
    push16(&mut buf, 2);
    push16(&mut buf, 16);
    push_tag(&mut buf, 0x64, 0x61, 0x74, 0x61);
    push32(&mut buf, data_len);
    let ghost header = buf@;
    assert(header =~= wav_header(samples@.len() as int, sr as int));
    let mut i: usize = 0;
    while i < samples.len()
        invariant
            i <= samples@.len(),
            buf@ == header + wav_data(samples@.take(i as int)),
        decreases samples@.len() - i,
    {
        assert(samples@.take(i + 1).drop_last() =~= samples@.take(i as int));
        let ghost before = buf@;
        let v: i16 = pcm16_level(samples[i]);
        let u: u16 = if v < 0 {
            (v as i32 + 0x1_0000) as u16
        } else {
            v as u16
        };
        push16(&mut buf, u);
        assert(le16(u as int) =~= le16(v as int));
        assert(buf@ =~= header + wav_data(samples@.take(i + 1)));
        i = i + 1;
    }
    assert(samples@.take(i as int) =~= samples@);
    buf
}

/// The data section holds two bytes for each sample, and they read back as its
/// level.
pub proof fn law_wav_reads_back(samples: Seq<u32>, sr: int, i: int)
    requires
        0 <= i < samples.len(),
    ensures
        wav_file(samples, sr).len() == 44 + 2 * samples.len(),
        s16le(wav_file(samples, sr)[44 + 2 * i], wav_file(samples, sr)[45 + 2 * i]) == level(
            samples[i],
        ),
{
    lemma_wav_data(samples, i);
    assert(wav_header(samples.len() as int, sr).len() == 44);
}

proof fn lemma_level_range(bits: u32)
    ensures
        -32767 <= level(bits) <= 32767,
{
    let one = ieee::single_one();
    lemma_pow2_pos(149);
    lemma_level_of_one();
    ieee::lemma_single_representable(bits);
    let m = if ieee::single_magnitude(bits) < one {
        ieee::single_magnitude(bits)
    } else {
        one
    };
    lemma2_to64();
    ieee::lemma_scaled_representable(32767, 149, 24);
    assert(m * 32767 <= 32767 * one);
    ieee::lemma_round_to_width_bound((m * 32767) as nat, (32767 * one) as nat, 24);
    let product = ieee::round_to_width((m * 32767) as nat, 24);
    assert(0 <= (2 * product + one) / (2 * one) <= 32767) by (nonlinear_arith)
        requires
            0 <= product <= 32767 * one,
            one > 0,
    ;
}

proof fn lemma_wav_data(samples: Seq<u32>, i: int)
    requires
        0 <= i < samples.len(),
    ensures
        wav_data(samples).len() == 2 * samples.len(),
        s16le(wav_data(samples)[2 * i], wav_data(samples)[2 * i + 1]) == level(samples[i]),
    decreases samples.len(),
{
    let before = samples.drop_last();
    if before.len() > 0 {
        lemma_wav_data(
            before,
            if i < before.len() {
                i
            } else {
                0
            },
        );
    } else {
        assert(wav_data(before).len() == 0);
    }
    if i == before.len() {
        let v = level(samples[i]);
        lemma_level_range(samples[i]);
        let l = v % 256;
        let h = (v / 256) % 256;
        assert(s16le(l as u8, h as u8) == v);
    }
}

/// Decoding a 16-bit number and encoding its sample again moves it by at most one
/// step, towards zero, and leaves it where it is if it is at most 16384 either way.
pub proof fn law_level_of_sample(bits: u32, v: int)
    requires
        is_sample(bits, v),
        -0x8000 <= v < 0x8000,
    ensures
        v >= 0 ==> v - 1 <= level(bits) <= v,
        v <= 0 ==> v <= level(bits) <= v + 1,
        -16384 <= v <= 16384 ==> level(bits) == v,
{
    let one = ieee::single_one();
    let a = if v < 0 { -v } else { v };
    let m = ieee::single_magnitude(bits);
    lemma_pow2_pos(149);
    lemma2_to64();
    ieee::lemma_single_representable(bits);
    assert(32768 * m == a * one) by {
        assert((-v) * one == -(v * one)) by (nonlinear_arith);
    }
    assert(m <= one) by (nonlinear_arith)
        requires
            32768 * m == a * one,
            a <= 32768,
            one > 0,
    ;
    let n = m * 32767;
    let product = ieee::round_to_width(n as nat, 24);
    assert(product <= a * one) by {
        lemma_pow2_adds(0, 149);
        ieee::lemma_scaled_representable(a as nat, 149, 24);
        ieee::lemma_round_to_width_bound(n as nat, (a * one) as nat, 24);
    }
    if a > 0 {
        assert(product >= (a - 1) * one) by {
            assert(n == a * one - m);
            ieee::lemma_scaled_representable((a - 1) as nat, 149, 24);
            assert((a - 1) * one <= n) by (nonlinear_arith)
                requires
                    n == a * one - m,
                    m <= one,
            ;
            ieee::lemma_round_to_width_lower_bound(n as nat, ((a - 1) * one) as nat, 24);
        }
    }
    assert((2 * product + one) / (2 * one) <= a && (a > 0 ==> (2 * product + one) / (2 * one) >= a
        - 1)) by (nonlinear_arith)
        requires
            one > 0,
            0 <= product <= a * one,
            a > 0 ==> product >= (a - 1) * one,
    ;
    if 0 < a <= 16384 {
        let half = pow2(148);
        lemma_pow2_unfold(149);
        assert(2 * m <= one) by (nonlinear_arith)
            requires
                32768 * m == a * one,
                a <= 16384,
                one > 0,
        ;
        let floor = (2 * a - 1) * half;
        assert(2 * floor == 2 * (a * one) - one) by (nonlinear_arith)
            requires
                floor == (2 * a - 1) * half,
                one == 2 * half,
        ;
        ieee::lemma_scaled_representable((2 * a - 1) as nat, 148, 24);
        ieee::lemma_round_to_width_lower_bound(n as nat, floor as nat, 24);
        assert((2 * product + one) / (2 * one) >= a) by (nonlinear_arith)
            requires
                one > 0,
                2 * product + one >= 2 * (a * one),
        ;
    }
}

/// Decoded samples are at least -1 and below 1.
pub proof fn law_samples_in_range(samples: Seq<u32>, bytes: Seq<u8>, i: int)
    requires
        are_samples(samples, bytes),
        0 <= i < samples.len(),
    ensures
        !ieee::single_is_nan(samples[i]),
        -ieee::single_one() <= ieee::single_value(samples[i]) < ieee::single_one(),
{
    let v = s16le(bytes[2 * i], bytes[2 * i + 1]);
    let one = ieee::single_one();
    lemma_pow2_pos(149);
    assert(is_sample(samples[i], v));
    assert(-32768 * one <= v * one < 32768 * one) by (nonlinear_arith)
        requires
            -32768 <= v < 32768,
            one > 0,
    ;
}

} // verus!
