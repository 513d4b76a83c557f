//! What holds of all samples, WAV files and model inputs.

use crate::ieee;
use crate::number_laws;
use crate::srt;
use crate::vad;
use crate::vad::VadParams;
use crate::wav;
use vstd::arithmetic::power2::*;
use vstd::prelude::*;

verus! {

/// The number in two bytes of a file, the low one first.
pub open spec fn read16(f: Seq<u8>, at: int) -> int {
    f[at] as int + 256 * f[at + 1] as int
}

/// The number in four bytes of a file, the low one first.
pub open spec fn read32(f: Seq<u8>, at: int) -> int {
    read16(f, at) + 0x1_0000 * read16(f, at + 2)
}

proof fn lemma_le16(n: int)
    requires
        0 <= n < 0x1_0000,
    ensures
        wav::le16(n).len() == 2,
        read16(wav::le16(n), 0) == n,
{
}

proof fn lemma_le32(n: int)
    requires
        0 <= n < 0x1_0000_0000,
    ensures
        wav::le32(n).len() == 4,
        read32(wav::le32(n), 0) == n,
{
    lemma_le16(n % 0x1_0000);
    lemma_le16(n / 0x1_0000);
    let low = wav::le16(n % 0x1_0000);
    let high = wav::le16(n / 0x1_0000);
    let all = wav::le32(n);
    assert(all[0] == low[0] && all[1] == low[1] && all[2] == high[0] && all[3] == high[1]);
}

proof fn lemma_field16(f: Seq<u8>, at: int, n: int)
    requires
        0 <= n < 0x1_0000,
        0 <= at,
        at + 2 <= f.len(),
        f.subrange(at, at + 2) == wav::le16(n),
    ensures
        read16(f, at) == n,
{
    lemma_le16(n);
    let part = f.subrange(at, at + 2);
    assert(part[0] == f[at] && part[1] == f[at + 1]);
}

proof fn lemma_field32(f: Seq<u8>, at: int, n: int)
    requires
        0 <= n < 0x1_0000_0000,
        0 <= at,
        at + 4 <= f.len(),
        f.subrange(at, at + 4) == wav::le32(n),
    ensures
        read32(f, at) == n,
{
    lemma_le32(n);
    let part = f.subrange(at, at + 4);
    assert(part[0] == f[at] && part[1] == f[at + 1] && part[2] == f[at + 2] && part[3] == f[at
        + 3]);
}

proof fn lemma_part(h: Seq<u8>, p: Seq<u8>, f: Seq<u8>)
    requires
        (h + p).is_prefix_of(f),
    ensures
        h.is_prefix_of(f),
        h.len() + p.len() <= f.len(),
        f.subrange(h.len() as int, (h.len() + p.len()) as int) == p,
{
    let all = h + p;
    assert(h =~= f.take(h.len() as int)) by {
        assert forall|i: int| 0 <= i < h.len() implies h[i] == f[i] by {
            assert(all[i] == h[i]);
        }
    }
    assert(f.subrange(h.len() as int, (h.len() + p.len()) as int) =~= p) by {
        assert forall|i: int| 0 <= i < p.len() implies p[i] == f[h.len() + i] by {
            assert(all[h.len() + i] == p[i]);
        }
    }
}

proof fn lemma_part32(h: Seq<u8>, n: int, f: Seq<u8>)
    requires
        (h + wav::le32(n)).is_prefix_of(f),
        0 <= n < 0x1_0000_0000,
    ensures
        h.is_prefix_of(f),
        read32(f, h.len() as int) == n,
        (h + wav::le32(n)).len() == h.len() + 4,
{
    lemma_le32(n);
    lemma_part(h, wav::le32(n), f);
    lemma_field32(f, h.len() as int, n);
}

proof fn lemma_part16(h: Seq<u8>, n: int, f: Seq<u8>)
    requires
        (h + wav::le16(n)).is_prefix_of(f),
        0 <= n < 0x1_0000,
    ensures
        h.is_prefix_of(f),
        read16(f, h.len() as int) == n,
        (h + wav::le16(n)).len() == h.len() + 2,
{
    lemma_le16(n);
    lemma_part(h, wav::le16(n), f);
    lemma_field16(f, h.len() as int, n);
}

proof fn lemma_part_tag(h: Seq<u8>, a: u8, b: u8, c: u8, d: u8, f: Seq<u8>)
    requires
        (h + seq![a, b, c, d]).is_prefix_of(f),
    ensures
        h.is_prefix_of(f),
        ({
            let at = h.len() as int;
            f[at] == a && f[at + 1] == b && f[at + 2] == c && f[at + 3] == d
        }),
        (h + seq![a, b, c, d]).len() == h.len() + 4,
{
    let p = seq![a, b, c, d];
    lemma_part(h, p, f);
    let part = f.subrange(h.len() as int, (h.len() + 4) as int);
    let at = h.len() as int;
    assert(part[0] == f[at] && part[1] == f[at + 1] && part[2] == f[at + 2] && part[3] == f[at
        + 3]);
}

/// Whether a file begins with the header of `n` samples of 16 bits in one channel at rate
/// `sr`.
pub open spec fn has_header(f: Seq<u8>, n: int, sr: int) -> bool {
    // "RIFF", and how many bytes follow
    &&& f[0] == 0x52 && f[1] == 0x49 && f[2] == 0x46 && f[3] == 0x46
    &&& read32(f, 4) == 36 + 2 * n
    // "WAVE" and "fmt "
    &&& f[8] == 0x57 && f[9] == 0x41 && f[10] == 0x56 && f[11] == 0x45
    &&& f[12] == 0x66 && f[13] == 0x6d && f[14] == 0x74 && f[15] == 0x20
    // size of the format, PCM, one channel
    &&& read32(f, 16) == 16 && read16(f, 20) == 1 && read16(f, 22) == 1
    // rates, and bytes and bits per sample
    &&& read32(f, 24) == sr && read32(f, 28) == 2 * sr
    &&& read16(f, 32) == 2 && read16(f, 34) == 16
    // "data", and how many bytes follow
    &&& f[36] == 0x64 && f[37] == 0x61 && f[38] == 0x74 && f[39] == 0x61
    &&& read32(f, 40) == 2 * n
}

/// A beginning, and the rates after it.
#[verifier::opaque]
spec fn with_rates(h: Seq<u8>, sr: int) -> Seq<u8> {
    h + wav::le32(sr) + wav::le32(2 * sr)
}

/// A beginning, and the sizes after it.
#[verifier::opaque]
spec fn with_sizes(h: Seq<u8>, m: int) -> Seq<u8> {
    h + wav::le16(2) + wav::le16(16) + seq![0x64u8, 0x61u8, 0x74u8, 0x61u8] + wav::le32(m)
}

/// A beginning, and the kind of the data after it.
#[verifier::opaque]
spec fn with_kind(h: Seq<u8>) -> Seq<u8> {
    h + wav::le32(16) + wav::le16(1) + wav::le16(1)
}

/// The first sixteen bytes of a header.
#[verifier::opaque]
spec fn opening(m: int) -> Seq<u8> {
    seq![0x52u8, 0x49u8, 0x46u8, 0x46u8] + wav::le32(36 + m) + seq![0x57u8, 0x41u8, 0x56u8, 0x45u8]
        + seq![0x66u8, 0x6du8, 0x74u8, 0x20u8]
}

proof fn lemma_rates(h: Seq<u8>, sr: int, f: Seq<u8>)
    requires
        h.len() == 24,
        with_rates(h, sr).is_prefix_of(f),
        0 <= sr,
        2 * sr <= u32::MAX,
    ensures
        h.is_prefix_of(f),
        read32(f, 24) == sr,
        read32(f, 28) == 2 * sr,
{
    reveal(with_rates);
    lemma_part32(h + wav::le32(sr), 2 * sr, f);
    lemma_part32(h, sr, f);
}

proof fn lemma_sizes(h: Seq<u8>, m: int, f: Seq<u8>)
    requires
        h.len() == 32,
        with_sizes(h, m).is_prefix_of(f),
        0 <= m <= u32::MAX,
    ensures
        h.is_prefix_of(f),
        read16(f, 32) == 2,
        read16(f, 34) == 16,
        f[36] == 0x64 && f[37] == 0x61 && f[38] == 0x74 && f[39] == 0x61,
        read32(f, 40) == m,
{
    reveal(with_sizes);
    let a = h + wav::le16(2);
    let b = a + wav::le16(16);
    let c = b + seq![0x64u8, 0x61u8, 0x74u8, 0x61u8];
    lemma_part32(c, m, f);
    lemma_part_tag(b, 0x64, 0x61, 0x74, 0x61, f);
    lemma_part16(a, 16, f);
    lemma_part16(h, 2, f);
}

proof fn lemma_kind(h: Seq<u8>, f: Seq<u8>)
    requires
        h.len() == 16,
        with_kind(h).is_prefix_of(f),
    ensures
        h.is_prefix_of(f),
        read32(f, 16) == 16,
        read16(f, 20) == 1,
        read16(f, 22) == 1,
{
    reveal(with_kind);
    let a = h + wav::le32(16);
    let b = a + wav::le16(1);
    lemma_part16(b, 1, f);
    lemma_part16(a, 1, f);
    lemma_part32(h, 16, f);
}

proof fn lemma_opening(m: int, f: Seq<u8>)
    requires
        opening(m).is_prefix_of(f),
        0 <= m,
        36 + m <= u32::MAX,
    ensures
        f[0] == 0x52 && f[1] == 0x49 && f[2] == 0x46 && f[3] == 0x46,
        read32(f, 4) == 36 + m,
        f[8] == 0x57 && f[9] == 0x41 && f[10] == 0x56 && f[11] == 0x45,
        f[12] == 0x66 && f[13] == 0x6d && f[14] == 0x74 && f[15] == 0x20,
{
    reveal(opening);
    let a = seq![0x52u8, 0x49u8, 0x46u8, 0x46u8];
    let b = a + wav::le32(36 + m);
    let c = b + seq![0x57u8, 0x41u8, 0x56u8, 0x45u8];
    lemma_part_tag(c, 0x66, 0x6d, 0x74, 0x20, f);
    lemma_part_tag(b, 0x57, 0x41, 0x56, 0x45, f);
    lemma_part32(a, 36 + m, f);
    assert(Seq::<u8>::empty() + a =~= a);
    lemma_part_tag(Seq::empty(), 0x52, 0x49, 0x46, 0x46, f);
}

proof fn lemma_part_lens(h: Seq<u8>, m: int, sr: int)
    requires
        0 <= m,
        36 + m <= u32::MAX,
        0 <= sr,
        2 * sr <= u32::MAX,
    ensures
        opening(m).len() == 16,
        with_kind(h).len() == h.len() + 8,
        with_rates(h, sr).len() == h.len() + 8,
        with_sizes(h, m).len() == h.len() + 12,
{
    reveal(opening);
    reveal(with_kind);
    reveal(with_rates);
    reveal(with_sizes);
    lemma_le32(36 + m);
    lemma_le32(16);
    lemma_le32(sr);
    lemma_le32(2 * sr);
    lemma_le32(m);
}

proof fn lemma_header_parts(n: int, sr: int)
    ensures
        wav::wav_header(n, sr) == with_sizes(
            with_rates(with_kind(opening(wav::data_len(n))), sr),
            wav::data_len(n),
        ),
{
    reveal(opening);
    reveal(with_kind);
    reveal(with_rates);
    reveal(with_sizes);
}

proof fn lemma_header(h: Seq<u8>, f: Seq<u8>, n: int, sr: int)
    requires
        h == with_sizes(with_rates(with_kind(opening(2 * n)), sr), 2 * n),
        h.is_prefix_of(f),
        0 <= n,
        44 + 2 * n <= u32::MAX,
        0 <= sr,
        2 * sr <= u32::MAX,
    ensures
        has_header(f, n, sr),
        h.len() == 44,
{
    let a = opening(2 * n);
    let b = with_kind(a);
    let c = with_rates(b, sr);
    lemma_part_lens(a, 2 * n, sr);
    lemma_part_lens(b, 2 * n, sr);
    lemma_part_lens(c, 2 * n, sr);
    lemma_sizes(c, 2 * n, f);
    lemma_rates(b, sr, f);
    lemma_kind(a, f);
    lemma_opening(2 * n, f);
}

proof fn lemma_wav_data_len(samples: Seq<u32>)
    ensures
        wav::wav_data(samples).len() == 2 * samples.len(),
    decreases samples.len(),
{
    if samples.len() > 0 {
        lemma_wav_data_len(samples.drop_last());
    }
}

proof fn lemma_prefix(a: Seq<u8>, b: Seq<u8>)
    ensures
        a.is_prefix_of(a + b),
{
    assert(a =~= (a + b).take(a.len() as int));
}

/// A WAV file says how long it is and how many bytes of data it has, and these are all
/// that follow its 44 bytes of header; it also says that they are 16-bit samples of one
/// channel at the given rate.
pub proof fn law_wav_header(samples: Seq<u32>, sr: int)
    requires
        44 + 2 * samples.len() <= u32::MAX,
        0 <= sr,
        2 * sr <= u32::MAX,
    ensures
        wav::wav_file(samples, sr).len() == 44 + 2 * samples.len(),
        has_header(wav::wav_file(samples, sr), samples.len() as int, sr),
        read32(wav::wav_file(samples, sr), 40) == wav::wav_file(samples, sr).len() - 44,
        read32(wav::wav_file(samples, sr), 4) == wav::wav_file(samples, sr).len() - 8,
{
    let n = samples.len() as int;
    let h = wav::wav_header(n, sr);
    lemma_header_parts(n, sr);
    assert(wav::data_len(n) == 2 * n);
    lemma_prefix(h, wav::wav_data(samples));
    lemma_header(h, wav::wav_file(samples, sr), n, sr);
    lemma_wav_data_len(samples);
}

/// The level of a sample is 32767 times the sample to the nearest integer, but for one
/// rounding of the product to single precision; samples beyond 1 have the level of 1, and
/// NaN has none.
pub proof fn law_level(bits: u32)
    ensures
        bits % 0x8000_0000 > 0x7f80_0000 ==> wav::level(bits) == 0,
        bits % 0x8000_0000 <= 0x7f80_0000 ==> {
            let one = pow2(149) as int;
            let v = ieee::single_value(bits);
            &&& v >= one ==> wav::level(bits) == 32767
            &&& v <= -one ==> wav::level(bits) == -32767
            &&& -one < v < one ==> {
                let error = number_laws::distance(2 * (wav::level(bits) * one), 65534 * v);
                0x100_0000 * error <= 0x100_0000 * one + 65534 * number_laws::distance(v, 0)
            }
        },
{
    let one = pow2(149) as int;
    let m = ieee::single_magnitude(bits);
    lemma_pow2_pos(149);
    lemma2_to64();
    ieee::lemma_single_representable(bits);
    if bits % 0x8000_0000 <= 0x7f80_0000 {
        if m >= one {
            wav::lemma_level_of_one();
        } else {
            let x = (m * 32767) as nat;
            let p = ieee::round_to_width(x, 24);
            let l = ieee::bit_length(x);
            if l > 24 {
                let unit = pow2((l - 24) as nat);
                lemma_pow2_pos((l - 24) as nat);
                srt::lemma_unit(x, 24);
                srt::lemma_rounding_error(x, unit);
                assert(unit * 0x80_0000 <= x);
            } else {
                assert(p == x);
            }
            let q = (2 * p + one) / (2 * one);
            vstd::arithmetic::div_mod::lemma_fundamental_div_mod(2 * p + one, 2 * one);
            vstd::arithmetic::div_mod::lemma_mod_bound(2 * p + one, 2 * one);
            let t = q * one;
            assert((2 * one) * q == 2 * t) by (nonlinear_arith)
                requires
                    t == q * one,
            ;
            assert((-q) * one == -t) by (nonlinear_arith)
                requires
                    t == q * one,
            ;
        }
    }
}

/// A sample is the signed 16-bit number in its two bytes over 32768, and there is one for
/// every two bytes.
pub proof fn law_decoded(samples: Seq<u32>, bytes: Seq<u8>, i: int)
    requires
        wav::are_samples(samples, bytes),
        0 <= i < samples.len(),
    ensures
        2 * samples.len() + bytes.len() % 2 == bytes.len(),
        samples[i] % 0x8000_0000 <= 0x7f80_0000,
        ({
            let low = bytes[2 * i] as int;
            let high = bytes[2 * i + 1] as int;
            let v = if high >= 128 {
                low + 256 * (high - 256)
            } else {
                low + 256 * high
            };
            &&& 32768 * ieee::single_value(samples[i]) == v * pow2(149)
            &&& samples[i] >= 0x8000_0000 <==> high >= 128
        }),
{
    assert(wav::is_sample(samples[i], wav::s16le(bytes[2 * i], bytes[2 * i + 1])));
}

/// Every sample of a recording is in one window of 512, and no window is beyond its end.
pub proof fn law_window_count(len: int)
    requires
        len >= 0,
    ensures
        512 * vad::window_count(len) >= len,
        512 * (vad::window_count(len) - 1) < len,
        len == 0 ==> vad::window_count(len) == 0,
{
}

/// The input of the model for a window: the 64 samples before it and its 512 samples are
/// consecutive samples of the recording, with silence before its beginning and after its
/// end, and the 64 numbers after them mirror those before the last.
pub proof fn law_model_input(audio: Seq<u32>, i: int, j: int)
    requires
        0 <= i,
        512 * i < audio.len(),
        0 <= j < 640,
    ensures
        vad::model_input(audio, i).len() == 640,
        j < 576 && 0 <= 512 * i - 64 + j < audio.len() ==> vad::model_input(audio, i)[j]
            == audio[512 * i - 64 + j],
        j < 576 && 512 * i - 64 + j < 0 ==> vad::model_input(audio, i)[j] == 0,
        j < 576 && 512 * i - 64 + j >= audio.len() ==> vad::model_input(audio, i)[j] == 0,
        j >= 576 ==> vad::model_input(audio, i)[j] == vad::model_input(audio, i)[1150 - j],
{
    let x = vad::model_input(audio, i);
    if i > 0 {
        let before = vad::window(audio, i - 1);
        if j < 64 {
            assert(before.skip(448)[j] == before[448 + j]);
        }
    }
}

/// The durations of the parameters are in milliseconds, and there are 16000 samples to a
/// second.
pub proof fn law_durations(p: VadParams)
    ensures
        1000 * p.min_speech() == 16_000 * p.min_speech_duration_ms,
        1000 * p.min_silence() == 16_000 * p.min_silence_duration_ms,
        1000 * p.min_split_silence() == 16_000 * p.min_silence_at_max_speech,
        1000 * p.pad() == 16_000 * p.speech_pad_ms,
{
}

/// A window counts as speech exactly if its probability is not below the threshold; NaN
/// never does, and with a threshold that is NaN no window does.
pub proof fn law_voiced(p: VadParams, prob: u32)
    ensures
        p.voiced(prob) <==> prob % 0x8000_0000 <= 0x7f80_0000 && p.threshold % 0x8000_0000
            <= 0x7f80_0000 && ieee::single_value(prob) >= ieee::single_value(p.threshold),
{
}

/// A window counts as silence exactly if its probability is below a bound; the bound is
/// the threshold less 0.15 to the nearest number with 24 binary digits, or 0.01 if that is
/// higher or the threshold is NaN.
pub proof fn law_silent(p: VadParams, prob: u32, q: nat, k: nat)
    requires
        q < 0x100_0000,
    ensures
        ({
            let floor = ieee::single_value(0x3c23_d70a);
            let lowered = ieee::single_value(p.threshold) - ieee::single_value(0x3e19_999a);
            let bound = vad::neg_threshold_value(p.threshold);
            &&& p.silent(prob) <==> prob % 0x8000_0000 <= 0x7f80_0000 && ieee::single_value(prob)
                < bound
            &&& p.threshold % 0x8000_0000 > 0x7f80_0000 || lowered <= floor ==> bound == floor
            &&& p.threshold % 0x8000_0000 <= 0x7f80_0000 && lowered > floor ==> bound >= floor
                && number_laws::distance(bound, lowered) <= number_laws::distance(
                (q * pow2(k)) as int,
                lowered,
            )
        }),
{
    lemma2_to64();
    let floor = ieee::single_value(0x3c23_d70a);
    let lowered = ieee::single_value(p.threshold) - ieee::single_value(0x3e19_999a);
    ieee::lemma_single_representable(0x3c23_d70a);
    if p.threshold % 0x8000_0000 <= 0x7f80_0000 && lowered > floor {
        number_laws::law_round_nearest(lowered as nat, 24, q, k);
        ieee::lemma_round_to_width_lower_bound(lowered as nat, floor as nat, 24);
    }
}

} // verus!
