//! Voice-activity detection: parameters, model input, speech segments.

use crate::ieee;
use crate::segment;
use crate::segment::Segmenter;
use vstd::arithmetic::power2::*;
use vstd::prelude::*;

verus! {

/// Samples per model window: 32 ms at 16 kHz.
pub const WINDOW: usize = 512;

/// Samples of the previous window that the model sees again.
pub const CONTEXT: usize = 64;

/// Samples that reach the model: context and window.
pub const INPUT_LEN: usize = 576;

/// `INPUT_LEN` and 64 samples reflected at its right end.
pub const XPAD_LEN: usize = 640;

/// How a recording is cut into speech segments.
///
/// The fields that hold a fraction (`threshold`, a probability, and
/// `max_speech_duration_s`, in seconds) hold the bit pattern of a
/// single-precision number.
#[derive(Clone, Copy)]
pub struct VadParams {
    pub threshold: u32,
    pub min_speech_duration_ms: u32,
    pub max_speech_duration_s: u32,
    pub min_silence_duration_ms: u32,
    pub speech_pad_ms: u32,
    pub min_silence_at_max_speech: u32,
    pub use_max_poss_sil_at_max_speech: bool,
}

/// A stretch of speech: the samples from `start` up to, not including, `end`.
#[derive(Clone, Copy)]
pub struct Speech {
    pub start: usize,
    pub end: usize,
}

/// 0.15 in single precision.
pub const HYSTERESIS: u32 = 0x3e19_999a;

/// 0.01 in single precision.
pub const LOWEST_NEG_THRESHOLD: u32 = 0x3c23_d70a;

/// The probability below which a window counts as silence: the threshold less
/// 0.15, rounded to single precision, but no lower than 0.01.
pub open spec fn neg_threshold_value(threshold: u32) -> int {
    let floor = ieee::single_value(LOWEST_NEG_THRESHOLD);
    let lowered = ieee::single_value(threshold) - ieee::single_value(HYSTERESIS);
    if ieee::single_is_nan(threshold) || lowered <= floor {
        floor
    } else {
        ieee::round_to_width(lowered as nat, 24) as int
    }
}

/// The pattern fields of the two constants of `neg_threshold_value`.
proof fn lemma_constants()
    ensures
        ieee::single_value(HYSTERESIS) == 10066330 * pow2(123),
        ieee::single_value(LOWEST_NEG_THRESHOLD) == 10737418 * pow2(119),
        !ieee::single_is_nan(LOWEST_NEG_THRESHOLD),
{
    assert(ieee::single_exponent(HYSTERESIS) == 124);
    assert(ieee::single_fraction(HYSTERESIS) == 10066330 - 0x80_0000);
    assert(ieee::single_exponent(LOWEST_NEG_THRESHOLD) == 120);
    assert(ieee::single_fraction(LOWEST_NEG_THRESHOLD) == 10737418 - 0x80_0000);
}

/// From 2^24 on, 0.15 less is rounded back.
proof fn lemma_large_threshold(significand: nat, k: nat)
    requires
        0x80_0000 <= significand < 0x100_0000,
        k >= 27,
    ensures
        ieee::round_to_width((significand * pow2(k) - 10066330) as nat, 24) == significand * pow2(
            k,
        ),
        significand * pow2(k) >= 2 * 10066330,
{
    let c = 10066330nat;
    lemma2_to64();
    lemma_pow2_unfold(k);
    lemma_pow2_unfold((k - 1) as nat);
    if k > 27 {
        lemma_pow2_strictly_increases(27, k);
    }
    let pk = pow2(k);
    assert(significand * pk >= 0x80_0000 * pk) by (nonlinear_arith)
        requires
            significand >= 0x80_0000,
    ;
    let n = (significand * pk - c) as nat;
    if significand > 0x80_0000 {
        lemma_pow2_adds(23, k);
        lemma_pow2_adds(24, k);
        assert(0x80_0000 * pk <= n < 0x100_0000 * pk) by (nonlinear_arith)
            requires
                n == significand * pk - c,
                0x80_0001 <= significand < 0x100_0000,
                c < pk,
        ;
        ieee::lemma_bit_length_unique(n, 24 + k);
        assert(n == (significand - 1) * pk + (pk - c)) by (nonlinear_arith)
            requires
                n == significand * pk - c,
        ;
        vstd::arithmetic::div_mod::lemma_fundamental_div_mod_converse(
            n as int,
            pk as int,
            significand - 1,
            pk - c,
        );
        assert((ieee::bit_length(n) - 24) as nat == k);
        assert(ieee::round_half_even(n, pk) == significand);
    } else {
        let h = pow2((k - 1) as nat);
        lemma_pow2_adds(22, k);
        lemma_pow2_adds(23, k);
        ieee::lemma_bit_length_unique(n, 23 + k);
        assert(n == (0x100_0000 - 1) * h + (h - c));
        vstd::arithmetic::div_mod::lemma_fundamental_div_mod_converse(
            n as int,
            h as int,
            0x100_0000 - 1,
            h - c,
        );
        assert((ieee::bit_length(n) - 24) as nat == k - 1);
        assert(ieee::round_half_even(n, h) == 0x100_0000);
        assert(significand * pk == 0x80_0000 * pk);
    }
}

/// The probability below which a window counts as silence (single precision).
pub fn neg_threshold(threshold: u32) -> (neg: u32)
    ensures
        !ieee::single_is_nan(neg),
        ieee::single_value(neg) == neg_threshold_value(threshold),
{
    proof {
        lemma_constants();
    }
    let exponent: u32 = (threshold / 0x80_0000) % 256;
    if ieee::is_single_nan(threshold) {
        return LOWEST_NEG_THRESHOLD;
    }
    if threshold >= 0x8000_0000 || exponent < 124 {
        proof {
            lemma_pow2_pos(123);
            lemma_pow2_pos(119);
            ieee::lemma_single_magnitude_order(threshold, HYSTERESIS);
            ieee::lemma_single_magnitude_order(0, threshold);
        }
        return LOWEST_NEG_THRESHOLD;
    }
    let significand: u128 = (threshold % 0x80_0000) as u128 + 0x80_0000;
    let k: u32 = exponent - 124;
    proof {
        lemma_pow2_adds(k as nat, 123);
        lemma_pow2_adds(4, 119);
        lemma2_to64();
        lemma_pow2_pos(119);
        lemma_pow2_pos(123);
        lemma_pow2_pos(k as nat);
        assert(ieee::single_value(threshold) == (significand * pow2(k as nat)) * pow2(123)) by {
            assert(significand * (pow2(k as nat) * pow2(123)) == (significand * pow2(k as nat))
                * pow2(123)) by (nonlinear_arith);
        }
    }
    if k >= 27 {
        proof {
            lemma_large_threshold(significand as nat, k as nat);
            let n = (significand * pow2(k as nat) - 10066330) as nat;
            let u = pow2(123);
            assert(n * u == ieee::single_value(threshold) - ieee::single_value(HYSTERESIS))
                by (nonlinear_arith)
                requires
                    n == significand * pow2(k as nat) - 10066330,
                    ieee::single_value(threshold) == (significand * pow2(k as nat)) * u,
                    ieee::single_value(HYSTERESIS) == 10066330 * u,
            ;
            ieee::lemma_round_to_width_scaled(n, 123, 24);
            assert(n * u > 10737418 * pow2(119)) by (nonlinear_arith)
                requires
                    n >= 10066330,
                    u == 16 * pow2(119),
                    pow2(119) > 0,
            ;
        }
        return threshold;
    }
    let factor: u128 = ieee::power_of_two(k);
    proof {
        if k < 26 {
            lemma_pow2_strictly_increases(k as nat, 26);
        }
        assert(0x80_0000 <= significand * factor < 0x4_0000_0000_0000) by (nonlinear_arith)
            requires
                0x80_0000 <= significand < 0x100_0000,
                1 <= factor <= 0x400_0000,
        ;
    }
    let scaled: u128 = significand * factor;
    proof {
        let u = pow2(123);
        let lowered = ieee::single_value(threshold) - ieee::single_value(HYSTERESIS);
        assert(lowered == (scaled - 10066330) * u) by (nonlinear_arith)
            requires
                lowered == scaled * u - 10066330 * u,
        ;
        assert(lowered <= 10737418 * pow2(119) <==> 16 * (scaled - 10066330) <= 10737418)
            by (nonlinear_arith)
            requires
                lowered == (scaled - 10066330) * u,
                u == 16 * pow2(119),
                pow2(119) > 0,
        ;
    }
    if scaled <= 10066330 || 16 * (scaled - 10066330) <= 10737418 {
        return LOWEST_NEG_THRESHOLD;
    }
    let n: u128 = scaled - 10066330;
    proof {
        ieee::lemma_round_to_width_scaled(n as nat, 123, 24);
    }
    let r: u128 = ieee::rounded(n, 24);
    proof {
        ieee::lemma_round_to_width_again(n as nat, 24);
        ieee::lemma_bit_length(n as nat);
        if ieee::bit_length(n as nat) > 63 {
            lemma_pow2_strictly_increases(62, (ieee::bit_length(n as nat) - 1) as nat);
            lemma2_to64_rest();
        }
    }
    ieee::single_pattern(r, 123)
}

impl VadParams {
    /// The shortest stretch that counts as speech, in samples.
    pub open spec fn min_speech(self) -> int {
        16 * self.min_speech_duration_ms as int
    }

    /// The silence that ends a stretch of speech, in samples.
    pub open spec fn min_silence(self) -> int {
        16 * self.min_silence_duration_ms as int
    }

    /// The silence at which an overlong stretch may be split, in samples.
    pub open spec fn min_split_silence(self) -> int {
        16 * self.min_silence_at_max_speech as int
    }

    /// The margin added on each side of a segment, in samples.
    pub open spec fn pad(self) -> int {
        16 * self.speech_pad_ms as int
    }

    /// Whether a stretch of `len` samples is over the limit: longer than
    /// `max_speech_duration_s` less one window and both margins.
    pub open spec fn too_long(self, len: int) -> bool {
        ieee::lasts_longer(len + WINDOW + 2 * self.pad(), self.max_speech_duration_s)
    }

    /// Whether a window of this probability counts as speech.
    pub open spec fn voiced(self, prob: u32) -> bool {
        ieee::single_at_least(prob, self.threshold)
    }

    /// Whether a window of this probability counts as silence.
    pub open spec fn silent(self, prob: u32) -> bool {
        !ieee::single_is_nan(prob) && ieee::single_value(prob) < neg_threshold_value(self.threshold)
    }
}

impl Default for VadParams {
    /// Threshold 0.5, segments of at most 28 s.
    fn default() -> (p: VadParams)
        ensures
            p == (VadParams {
                threshold: 0x3f00_0000,
                min_speech_duration_ms: 250,
                max_speech_duration_s: 0x41e0_0000,
                min_silence_duration_ms: 300,
                speech_pad_ms: 30,
                min_silence_at_max_speech: 98,
                use_max_poss_sil_at_max_speech: true,
            }),
    {
        VadParams {
            threshold: 0x3f00_0000,
            min_speech_duration_ms: 250,
            max_speech_duration_s: 0x41e0_0000,
            min_silence_duration_ms: 300,
            speech_pad_ms: 30,
            min_silence_at_max_speech: 98,
            use_max_poss_sil_at_max_speech: true,
        }
    }
}

/// The number of windows of a recording of `len` samples: the last one may be
/// incomplete.
pub open spec fn window_count(len: int) -> int {
    (len + WINDOW - 1) / WINDOW as int
}

/// Window `i` of a recording, filled up with silence at its end.
pub open spec fn window(audio: Seq<u32>, i: int) -> Seq<u32> {
    Seq::new(
        WINDOW as nat,
        |j: int|
            if WINDOW * i + j < audio.len() {
                audio[WINDOW * i + j]
            } else {
                0
            },
    )
}

/// What the model sees again before window `i`: the end of the window before, and
/// silence before the first one.
pub open spec fn context(audio: Seq<u32>, i: int) -> Seq<u32> {
    if i == 0 {
        Seq::new(CONTEXT as nat, |j: int| 0)
    } else {
        window(audio, i - 1).skip(WINDOW - CONTEXT)
    }
}

/// The model's input for window `i`: its context, the window, and the last
/// samples of these reflected at the end (the end itself is not repeated).
pub open spec fn model_input(audio: Seq<u32>, i: int) -> Seq<u32> {
    let x = context(audio, i) + window(audio, i);
    x + Seq::new((XPAD_LEN - INPUT_LEN) as nat, |j: int| x[INPUT_LEN - 2 - j])
}

/// The host side of the voice-activity model.  It hands out the model's input
/// window by window, takes the probability of each, and finds the segments once
/// all are there.  Samples and probabilities are single-precision patterns.
pub struct VadModel {
    context: Vec<u32>,
    probs: Vec<u32>,
}

impl VadModel {
    /// The probabilities taken so far.
    pub closed spec fn probs(&self) -> Seq<u32> {
        self.probs@
    }

    /// Whether the windows taken so far are those of this recording.
    pub closed spec fn follows(&self, audio: Seq<u32>) -> bool {
        &&& self.context@ == context(audio, self.probs@.len() as int)
        &&& self.probs@.len() <= window_count(audio.len() as int)
    }

    /// Ready for a recording.
    pub fn new() -> (m: VadModel)
        ensures
            m.probs() == Seq::<u32>::empty(),
            forall|audio: Seq<u32>| #[trigger] m.follows(audio),
    {
        let mut m = VadModel { context: Vec::new(), probs: Vec::new() };
        m.reset();
        m
    }

    /// Forgets the recording, and is ready for the next one.
    pub fn reset(&mut self)
        ensures
            final(self).probs() == Seq::<u32>::empty(),
            forall|audio: Seq<u32>| #[trigger] final(self).follows(audio),
    {
        self.probs.clear();
        self.context.clear();
        let mut j: usize = 0;
        while j < CONTEXT
            invariant
                j <= CONTEXT,
                self.probs@.len() == 0,
                self.context@.len() == j,
                forall|k: int| 0 <= k < j ==> self.context@[k] == 0,
            decreases CONTEXT - j,
        {
            self.context.push(0);
            j = j + 1;
        }
        assert forall|audio: Seq<u32>| #[trigger] self.follows(audio) by {
            assert(self.context@ =~= context(audio, 0));
        }
    }

    /// Window `i` of a recording, filled up with silence.
    fn window(audio: &[u32], i: usize) -> (w: Vec<u32>)
        requires
            i < window_count(audio@.len() as int),
        ensures
            w@ == window(audio@, i as int),
    {
        let len: usize = audio.len();
        assert(WINDOW * i < len);
        let pos: usize = WINDOW * i;
        let mut w: Vec<u32> = Vec::new();
        let mut j: usize = 0;
        while j < WINDOW
            invariant
                pos == WINDOW * i,
                pos < audio@.len(),
                j <= WINDOW,
                w@.len() == j,
                forall|k: int| 0 <= k < j ==> w@[k] == window(audio@, i as int)[k],
            decreases WINDOW - j,
        {
            if j < audio.len() - pos {
                w.push(audio[pos + j]);
            } else {
                w.push(0);
            }
            j = j + 1;
        }
        assert(w@ =~= window(audio@, i as int));
        w
    }

    /// The model's input for the next window, or none once all have been taken.
    pub fn next_input(&self, audio: &[u32]) -> (input: Option<Vec<u32>>)
        requires
            self.follows(audio@),
        ensures
            match input {
                Some(x) => self.probs().len() < window_count(audio@.len() as int) && x@
                    == model_input(audio@, self.probs().len() as int),
                None => self.probs().len() == window_count(audio@.len() as int),
            },
    {
        let i: usize = self.probs.len();
        if i >= VadModel::windows(audio.len()) {
            return None;
        }
        let w = VadModel::window(audio, i);
        let mut x: Vec<u32> = Vec::new();
        let mut j: usize = 0;
        while j < XPAD_LEN
            invariant
                self.context@ == context(audio@, i as int),
                self.context@.len() == CONTEXT,
                w@ == window(audio@, i as int),
                j <= XPAD_LEN,
                x@.len() == j,
                forall|k: int| 0 <= k < j ==> x@[k] == model_input(audio@, i as int)[k],
            decreases XPAD_LEN - j,
        {
            if j < CONTEXT {
                x.push(self.context[j]);
            } else if j < INPUT_LEN {
                x.push(w[j - CONTEXT]);
            } else {
                x.push(x[2 * INPUT_LEN - j - 2]);
            }
            j = j + 1;
        }
        assert(x@ =~= model_input(audio@, i as int));
        Some(x)
    }

    /// Takes the probability of the window that `next_input` prepared.
    pub fn observe(&mut self, audio: &[u32], prob: u32)
        requires
            old(self).follows(audio@),
            old(self).probs().len() < window_count(audio@.len() as int),
        ensures
            final(self).follows(audio@),
            final(self).probs() == old(self).probs().push(prob),
    {
        let i: usize = self.probs.len();
        let w = VadModel::window(audio, i);
        let mut tail: Vec<u32> = Vec::new();
        let mut j: usize = WINDOW - CONTEXT;
        while j < WINDOW
            invariant
                w@.len() == WINDOW,
                WINDOW - CONTEXT <= j <= WINDOW,
                tail@ =~= w@.subrange(WINDOW - CONTEXT, j as int),
            decreases WINDOW - j,
        {
            tail.push(w[j]);
            j = j + 1;
        }
        self.context = tail;
        self.probs.push(prob);
        assert(self.context@ =~= context(audio@, i + 1));
    }

    /// The number of windows of a recording of `len` samples.
    pub fn windows(len: usize) -> (n: usize)
        ensures
            n == window_count(len as int),
    {
        if len % WINDOW == 0 {
            len / WINDOW
        } else {
            len / WINDOW + 1
        }
    }

    /// The speech segments of a recording all of whose windows have been taken.
    pub fn speech_timestamps(&self, audio: &[u32], p: &VadParams) -> (speeches: Vec<Speech>)
        requires
            self.probs().len() == window_count(audio@.len() as int),
        ensures
            segment::spans(speeches@) == segment::segments(
                *p,
                self.probs(),
                audio@.len() as int,
            ),
    {
        let len: usize = audio.len();
        let mut s = Segmenter::new(p);
        let mut i: usize = 0;
        while i < self.probs.len()
            invariant
                len == audio@.len(),
                self.probs@.len() == window_count(len as int),
                i <= self.probs@.len(),
                s.ready(),
                s.params() == *p,
                s.track() == segment::Track::run(*p, self.probs@.take(i as int)),
                s.track().sound(WINDOW * i),
            decreases self.probs.len() - i,
        {
            assert(WINDOW * i < len);
            assert(self.probs@.take(i + 1).drop_last() =~= self.probs@.take(i as int));
            s.step(WINDOW * i, self.probs[i]);
            i = i + 1;
        }
        assert(self.probs@.take(i as int) =~= self.probs@);
        let raw = s.finish(len);
        proof {
            if len > 0 {
                segment::lemma_raw_in_order(*p, self.probs@, len as int);
            }
            if raw@.len() > 0 {
                assert(segment::spans(raw@).last() == (
                    raw@.last().start as int,
                    raw@.last().end as int,
                ));
            }
        }
        segment::pad(p, &raw, len)
    }
}

} // verus!
