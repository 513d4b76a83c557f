//! Where speech begins and ends in every recording, told by its windows alone.
//!
//! A window counts as speech, as silence, or as neither.  Windows have 512 samples.

use crate::ieee;
use crate::segment;
use crate::segment::Track;
use crate::segment_laws;
use crate::vad;
use crate::vad::VadParams;
use vstd::arithmetic::power2::*;
use vstd::prelude::*;

verus! {

/// Whether no window counts both as speech and as silence.
pub open spec fn told_apart(p: VadParams, probs: Seq<u32>) -> bool {
    forall|k: int| 0 <= k < probs.len() ==> !(p.voiced(#[trigger] probs[k]) && p.silent(probs[k]))
}

/// Windows are told apart where the threshold is at least 0.01.
pub proof fn law_told_apart(p: VadParams, probs: Seq<u32>)
    requires
        ieee::single_value(p.threshold) >= ieee::single_value(0x3c23_d70a),
    ensures
        told_apart(p, probs),
{
    assert forall|k: int| 0 <= k < probs.len() implies !(p.voiced(#[trigger] probs[k]) && p.silent(
        probs[k],
    )) by {
        if !ieee::single_is_nan(p.threshold) {
            segment_laws::lemma_neg_threshold_below(p.threshold);
        }
    }
}

/// Whether none of the windows `a..b` counts as speech.
pub open spec fn no_speech(p: VadParams, probs: Seq<u32>, a: int, b: int) -> bool {
    forall|j: int| a <= j < b ==> !p.voiced(#[trigger] probs[j])
}

/// Whether the silence from window `e` to window `c` is long enough to end a stretch of
/// speech.
pub open spec fn long_silence(p: VadParams, probs: Seq<u32>, e: int, c: int) -> bool {
    &&& 0 <= e <= c < probs.len()
    &&& p.silent(probs[e])
    &&& p.silent(probs[c])
    &&& no_speech(p, probs, e, c + 1)
    &&& 512 * (c - e) >= 16 * p.min_silence_duration_ms
}

/// Whether there is no silence among the windows `a..b` that is long enough to end a
/// stretch of speech.
pub open spec fn no_long_silence(p: VadParams, probs: Seq<u32>, a: int, b: int) -> bool {
    forall|e: int, c: int| a <= e <= c < b ==> !#[trigger] long_silence(p, probs, e, c)
}

/// Whether speech follows every silence among the windows `a..b`, before `b`.
pub open spec fn resumed(p: VadParams, probs: Seq<u32>, a: int, b: int) -> bool {
    forall|k: int| a <= k < b && p.silent(#[trigger] probs[k]) ==> !no_speech(p, probs, k + 1, b)
}

/// Whether a stretch of speech goes from window `a` up to window `e`, within the first `n`
/// windows: it begins with speech and ends with silence; every silence in it is followed
/// by speech in it and too short to end it; and a silence long enough to end it follows.
pub open spec fn is_stretch(p: VadParams, probs: Seq<u32>, a: int, e: int, n: int) -> bool {
    &&& 0 <= a < e < n <= probs.len()
    &&& p.voiced(probs[a])
    &&& p.silent(probs[e])
    &&& resumed(p, probs, a, e)
    &&& no_long_silence(p, probs, a, e)
    &&& exists|c: int| e <= c < n && #[trigger] long_silence(p, probs, e, c)
}

/// Whether a stretch of speech that began with window `a` still goes on after `n` windows.
pub open spec fn goes_on(p: VadParams, probs: Seq<u32>, a: int, n: int) -> bool {
    &&& 0 <= a < n <= probs.len()
    &&& p.voiced(probs[a])
    &&& no_long_silence(p, probs, a, n)
}

/// Whether the silence from window `e` to the speech in window `j` is within the stretch
/// that began with window `a`, and long enough for it to be split there.
pub open spec fn is_pause(p: VadParams, probs: Seq<u32>, a: int, e: int, j: int) -> bool {
    &&& a < e < j < probs.len()
    &&& p.silent(probs[e])
    &&& p.voiced(probs[j])
    &&& no_speech(p, probs, e, j)
    &&& resumed(p, probs, a, e)
    &&& 512 * (j - e) > 16 * p.min_silence_at_max_speech
}

/// What is known of the current stretch after `n` windows, if it began with window `a`.
spec fn open_at(t: Track, p: VadParams, probs: Seq<u32>, n: int, a: int) -> bool {
    &&& t.start == Some(512 * a)
    &&& goes_on(p, probs, a, n)
    &&& t.temp_end == 0 ==> resumed(p, probs, a, n)
    &&& t.temp_end != 0 ==> {
        let e = t.temp_end / 512;
        &&& t.temp_end == 512 * e
        &&& a < e < n
        &&& p.silent(probs[e])
        &&& no_speech(p, probs, e, n)
        &&& resumed(p, probs, a, e)
    }
    &&& forall|i: int|
        0 <= i < t.pauses.len() ==> {
            let e = (#[trigger] t.pauses[i]).0 / 512;
            let j = e + t.pauses[i].1 / 512;
            &&& t.pauses[i] == (512 * e, 512 * (j - e))
            &&& j < n
            &&& is_pause(p, probs, a, e, j)
        }
    &&& forall|e: int, j: int| #[trigger]
        is_pause(p, probs, a, e, j) && j < n ==> t.pauses.contains((512 * e, 512 * (j - e)))
    &&& p.use_max_poss_sil_at_max_speech ==> t.prev_end == 0
}

/// What is known after `n` windows, none of which came too late for the current stretch.
spec fn told(t: Track, p: VadParams, probs: Seq<u32>, n: int) -> bool {
    &&& t.start is Some ==> open_at(t, p, probs, n, t.start->0 / 512)
    &&& t.start is None ==> t.temp_end == 0 && t.pauses.len() == 0 && t.prev_end == 0
    &&& forall|i: int|
        0 <= i < t.speeches.len() ==> {
            let a = (#[trigger] t.speeches[i]).0 / 512;
            let e = t.speeches[i].1 / 512;
            t.speeches[i] == (512 * a, 512 * e) && is_stretch(p, probs, a, e, n)
        }
}

proof fn lemma_stretch_later(p: VadParams, probs: Seq<u32>, a: int, e: int, n: int)
    requires
        is_stretch(p, probs, a, e, n),
        n < probs.len(),
    ensures
        is_stretch(p, probs, a, e, n + 1),
{
    let c = choose|c: int| e <= c < n && #[trigger] long_silence(p, probs, e, c);
    assert(long_silence(p, probs, e, c));
}

/// A window of speech.
proof fn lemma_voiced_step(t: Track, p: VadParams, probs: Seq<u32>, n: int)
    requires
        told(t, p, probs, n),
        t.sound(512 * n),
        0 <= n < probs.len(),
        !t.overlong(p, 512 * n),
        p.voiced(probs[n]),
        !p.silent(probs[n]),
    ensures
        t.step(p, 512 * n, true, false).start is Some,
        open_at(
            t.step(p, 512 * n, true, false),
            p,
            probs,
            n + 1,
            t.step(p, 512 * n, true, false).start->0 / 512,
        ),
        t.step(p, 512 * n, true, false).speeches == t.speeches,
{
    let cur = 512 * n;
    let after = t.step(p, cur, true, false);
    if t.start is None {
        assert(after.start == Some(cur));
        assert(cur / 512 == n);
        assert forall|e: int, j: int| #[trigger] is_pause(p, probs, n, e, j) && j < n + 1 implies
            after.pauses.contains((512 * e, 512 * (j - e))) by {}
        assert(no_long_silence(p, probs, n, n + 1));
        assert(resumed(p, probs, n, n + 1));
    } else {
        let a = t.start->0 / 512;
        assert(open_at(t, p, probs, n, a));
        assert(after.start == t.start);
        assert(after.temp_end == 0);
        assert(resumed(p, probs, a, n + 1)) by {
            assert forall|k: int| a <= k < n + 1 && p.silent(#[trigger] probs[k]) implies
                !no_speech(p, probs, k + 1, n + 1) by {
                assert(p.voiced(probs[n]));
            }
        }
        assert(no_long_silence(p, probs, a, n + 1)) by {
            assert forall|e: int, c: int| a <= e <= c < n + 1 implies !#[trigger] long_silence(
                p,
                probs,
                e,
                c,
            ) by {
                if c == n {
                    assert(!p.silent(probs[n]));
                }
            }
        }
        lemma_voiced_pauses(t, p, probs, n, a);
    }
}

proof fn lemma_voiced_pauses(t: Track, p: VadParams, probs: Seq<u32>, n: int, a: int)
    requires
        open_at(t, p, probs, n, a),
        t.start is Some,
        0 <= n < probs.len(),
        !t.overlong(p, 512 * n),
        p.voiced(probs[n]),
        !p.silent(probs[n]),
    ensures
        ({
            let after = t.step(p, 512 * n, true, false);
            &&& forall|i: int|
                0 <= i < after.pauses.len() ==> {
                    let e = (#[trigger] after.pauses[i]).0 / 512;
                    let j = e + after.pauses[i].1 / 512;
                    &&& after.pauses[i] == (512 * e, 512 * (j - e))
                    &&& j < n + 1
                    &&& is_pause(p, probs, a, e, j)
                }
            &&& forall|e: int, j: int| #[trigger]
                is_pause(p, probs, a, e, j) && j < n + 1 ==> after.pauses.contains(
                    (512 * e, 512 * (j - e)),
                )
        }),
{
    let cur = 512 * n;
    let after = t.step(p, cur, true, false);
    assert forall|e: int, j: int| #[trigger] is_pause(p, probs, a, e, j) && j < n + 1 implies
        after.pauses.contains((512 * e, 512 * (j - e))) by {
        if j < n {
            assert(t.pauses.contains((512 * e, 512 * (j - e))));
            let i = choose|i: int|
                0 <= i < t.pauses.len() && t.pauses[i] == (512 * e, 512 * (j - e));
            assert(after.pauses[i] == t.pauses[i]);
        } else if t.temp_end == 0 {
            // a silence before this window would have been followed by speech before it
            assert(p.silent(probs[e]));
            assert(!no_speech(p, probs, e + 1, n));
        } else {
            let d = t.temp_end / 512;
            assert(p.silent(probs[d]));
            assert(p.silent(probs[e]));
            if e < d {
                assert(!no_speech(p, probs, e + 1, d));
            } else if d < e {
                assert(!no_speech(p, probs, d + 1, e));
            }
            assert(e == d);
            assert(after.pauses.last() == (512 * e, 512 * (j - e)));
            assert(after.pauses[after.pauses.len() - 1] == (512 * e, 512 * (j - e)));
        }
    }
    assert forall|i: int| 0 <= i < after.pauses.len() implies {
        let e = (#[trigger] after.pauses[i]).0 / 512;
        let j = e + after.pauses[i].1 / 512;
        &&& after.pauses[i] == (512 * e, 512 * (j - e))
        &&& j < n + 1
        &&& is_pause(p, probs, a, e, j)
    } by {
        if i < t.pauses.len() {
            assert(after.pauses[i] == t.pauses[i]);
        } else {
            let e = t.temp_end / 512;
            assert(after.pauses[i] == (t.temp_end, cur - t.temp_end));
            assert((cur - t.temp_end) / 512 == n - e);
            assert(is_pause(p, probs, a, e, n));
        }
    }
}

/// A window that does not count as speech, while a stretch goes on.
proof fn lemma_other_step(t: Track, p: VadParams, probs: Seq<u32>, n: int, silent: bool)
    requires
        told(t, p, probs, n),
        t.start is Some,
        t.sound(512 * n),
        0 <= n < probs.len(),
        !t.overlong(p, 512 * n),
        !p.voiced(probs[n]),
        silent == p.silent(probs[n]),
    ensures
        told(t.step(p, 512 * n, false, silent), p, probs, n + 1),
{
    let cur = 512 * n;
    let a = t.start->0 / 512;
    let after = t.step(p, cur, false, silent);
    assert(open_at(t, p, probs, n, a));
    assert(a < n);
    let e = if t.temp_end == 0 {
        n
    } else {
        t.temp_end / 512
    };
    assert forall|i: int| 0 <= i < t.speeches.len() implies {
        let x = (#[trigger] t.speeches[i]).0 / 512;
        let y = t.speeches[i].1 / 512;
        t.speeches[i] == (512 * x, 512 * y) && is_stretch(p, probs, x, y, n + 1)
    } by {
        lemma_stretch_later(p, probs, t.speeches[i].0 / 512, t.speeches[i].1 / 512, n);
    }
    assert forall|x: int, j: int| #[trigger] is_pause(p, probs, a, x, j) && j < n + 1 implies j
        < n by {
        if j == n {
            assert(p.voiced(probs[j]));
        }
    }
    if !silent {
        assert(after == t);
        assert(no_long_silence(p, probs, a, n + 1)) by {
            assert forall|x: int, c: int| a <= x <= c < n + 1 implies !#[trigger] long_silence(
                p,
                probs,
                x,
                c,
            ) by {
                if c == n {
                    assert(!p.silent(probs[n]));
                }
            }
        }
        if t.temp_end == 0 {
            assert(resumed(p, probs, a, n + 1)) by {
                assert forall|k: int| a <= k < n + 1 && p.silent(#[trigger] probs[k]) implies
                    !no_speech(p, probs, k + 1, n + 1) by {
                    assert(!no_speech(p, probs, k + 1, n));
                    let j = choose|j: int| k + 1 <= j < n && p.voiced(#[trigger] probs[j]);
                    assert(p.voiced(probs[j]));
                }
            }
        } else {
            assert(no_speech(p, probs, e, n + 1));
        }
        assert(open_at(after, p, probs, n + 1, a));
    } else {
        assert(resumed(p, probs, a, e));
        assert(a < e) by {
            if t.temp_end == 0 {
            }
        }
        assert(p.silent(probs[e]));
        assert(no_speech(p, probs, e, n + 1)) by {
            assert forall|j: int| e <= j < n + 1 implies !p.voiced(#[trigger] probs[j]) by {
                if j < n {
                    assert(no_speech(p, probs, e, n));
                }
            }
        }
        assert((512 * e) / 512 == e);
        if cur - 512 * e < p.min_silence() {
            assert(after.temp_end == 512 * e);
            assert(after.start == t.start);
            assert(no_long_silence(p, probs, a, n + 1)) by {
                assert forall|x: int, c: int| a <= x <= c < n + 1 implies !#[trigger] long_silence(
                    p,
                    probs,
                    x,
                    c,
                ) by {
                    if c == n && long_silence(p, probs, x, c) {
                        if x < e {
                            assert(p.silent(probs[x]));
                            assert(!no_speech(p, probs, x + 1, e));
                            let j = choose|j: int| x + 1 <= j < e && p.voiced(#[trigger] probs[j]);
                            assert(!p.voiced(probs[j]));
                        }
                    }
                }
            }
            assert(open_at(after, p, probs, n + 1, a));
        } else {
            assert(long_silence(p, probs, e, n));
            assert(no_long_silence(p, probs, a, e)) by {
                assert forall|x: int, c: int| a <= x <= c < e implies !#[trigger] long_silence(
                    p,
                    probs,
                    x,
                    c,
                ) by {}
            }
            assert(is_stretch(p, probs, a, e, n + 1));
            assert(after.start is None);
            if after.speeches.len() > t.speeches.len() {
                assert(after.speeches == t.speeches.push((512 * a, 512 * e)));
                assert((512 * a) / 512 == a);
            }
        }
    }
}

proof fn lemma_step_told(t: Track, p: VadParams, probs: Seq<u32>, n: int)
    requires
        told(t, p, probs, n),
        t.sound(512 * n),
        0 <= n < probs.len(),
        !t.overlong(p, 512 * n),
        !(p.voiced(probs[n]) && p.silent(probs[n])),
    ensures
        told(t.step(p, 512 * n, p.voiced(probs[n]), p.silent(probs[n])), p, probs, n + 1),
{
    assert forall|i: int| 0 <= i < t.speeches.len() implies {
        let x = (#[trigger] t.speeches[i]).0 / 512;
        let y = t.speeches[i].1 / 512;
        t.speeches[i] == (512 * x, 512 * y) && is_stretch(p, probs, x, y, n + 1)
    } by {
        lemma_stretch_later(p, probs, t.speeches[i].0 / 512, t.speeches[i].1 / 512, n);
    }
    if p.voiced(probs[n]) {
        lemma_voiced_step(t, p, probs, n);
    } else if t.start is Some {
        lemma_other_step(t, p, probs, n, p.silent(probs[n]));
    }
}

/// Whether no stretch has become too long before window `n`.
pub open spec fn unsplit_before(p: VadParams, probs: Seq<u32>, n: int) -> bool {
    forall|k: int|
        0 <= k < n ==> !(#[trigger] Track::run(p, probs.take(k))).overlong(p, 512 * k)
}

proof fn lemma_run_told(p: VadParams, probs: Seq<u32>, n: int)
    requires
        told_apart(p, probs),
        0 <= n <= probs.len(),
        unsplit_before(p, probs, n),
    ensures
        told(Track::run(p, probs.take(n)), p, probs, n),
        Track::run(p, probs.take(n)).sound(512 * n),
    decreases n,
{
    segment::lemma_run_sound(p, probs.take(n));
    if n > 0 {
        lemma_run_told(p, probs, n - 1);
        assert(probs.take(n).drop_last() =~= probs.take(n - 1));
        assert(probs.take(n).last() == probs[n - 1]);
        lemma_step_told(Track::run(p, probs.take(n - 1)), p, probs, n - 1);
    }
}

/// A stretch of speech is too long exactly if it lasts, with one window and both margins,
/// longer than the limit; without a limit none is.
pub proof fn law_overlong(t: Track, p: VadParams, cur: int)
    ensures
        t.overlong(p, cur) <==> t.start is Some && p.max_speech_duration_s % 0x8000_0000
            <= 0x7f80_0000 && (cur - t.start->0 + 512 + 32 * p.speech_pad_ms) * pow2(149) > 16_000
            * ieee::single_value(p.max_speech_duration_s),
{
}

/// A stretch is over the limit exactly if it lasts, with one window and both margins,
/// longer than `max_speech_duration_s`.
pub proof fn law_too_long(p: VadParams, n: int)
    ensures
        p.too_long(n) <==> p.max_speech_duration_s % 0x8000_0000 <= 0x7f80_0000 && (n + 512 + 32
            * p.speech_pad_ms) * pow2(149) > 16_000 * ieee::single_value(p.max_speech_duration_s),
{
}

/// Nothing is split in a recording that lasts, with one window and both margins, no longer
/// than the limit.
pub proof fn law_recording_within_limit(p: VadParams, probs: Seq<u32>, len: int)
    requires
        segment_laws::covers(probs, len),
        p.max_speech_duration_s % 0x8000_0000 > 0x7f80_0000 || (len + 512 + 32 * p.speech_pad_ms)
            * pow2(149) <= 16_000 * ieee::single_value(p.max_speech_duration_s),
    ensures
        segment_laws::never_split(p, probs),
{
    law_too_long(p, len);
    segment_laws::law_short_recording_unsplit(p, probs, len);
}

/// With a limit of 28 s, nothing is split in a recording of at most 448000 samples, less one
/// window and both margins.
pub proof fn law_recording_within_28_seconds(p: VadParams, probs: Seq<u32>, len: int)
    requires
        segment_laws::covers(probs, len),
        p.max_speech_duration_s == 0x41e0_0000,
        len <= 448_000 - 512 - 32 * p.speech_pad_ms,
    ensures
        segment_laws::never_split(p, probs),
{
    lemma_pow2_pos(149);
    lemma_pow2_adds(19, 130);
    lemma2_to64();
    assert(ieee::single_exponent(0x41e0_0000) == 131);
    assert(ieee::single_fraction(0x41e0_0000) == 0x60_0000);
    assert(ieee::single_value(0x41e0_0000) == 0xe0_0000 * pow2(130));
    let one = pow2(149) as int;
    let n = len + 512 + 32 * p.speech_pad_ms;
    assert(n * one <= 448_000 * one) by (nonlinear_arith)
        requires
            n <= 448_000,
            one > 0,
    ;
    law_recording_within_limit(p, probs, len);
}

/// Every stretch of a recording in which nothing is split begins with speech and ends with
/// silence, or with the recording; within it every silence is followed by speech and too
/// short to end it, and after it comes a silence that is long enough.
pub proof fn law_stretch(p: VadParams, probs: Seq<u32>, len: int, i: int)
    requires
        segment_laws::covers(probs, len),
        segment_laws::never_split(p, probs),
        told_apart(p, probs),
        0 <= i < segment::raw_speeches(p, probs, len).len(),
    ensures
        ({
            let raw = segment::raw_speeches(p, probs, len)[i];
            let a = raw.0 / 512;
            let n = probs.len() as int;
            &&& raw.0 == 512 * a
            &&& raw.1 - raw.0 > 16 * p.min_speech_duration_ms
            &&& (raw.1 == 512 * (raw.1 / 512) && is_stretch(p, probs, a, raw.1 / 512, n)) || (raw.1
                == len && goes_on(p, probs, a, n))
        }),
{
    let n = probs.len() as int;
    assert(probs.take(n) =~= probs);
    lemma_run_told(p, probs, n);
    segment_laws::lemma_run_unsplit(p, probs);
    let t = Track::run(p, probs);
    if i < t.speeches.len() {
        assert(segment::raw_speeches(p, probs, len)[i] == t.speeches[i]);
    } else {
        assert(open_at(t, p, probs, n, t.start->0 / 512));
    }
}

/// Whether speech goes from window `a` up to window `b`: it begins with speech, every
/// silence in it is followed by speech in it, and none is long enough to end it.
pub open spec fn speech_through(p: VadParams, probs: Seq<u32>, a: int, b: int) -> bool {
    &&& 0 <= a < b <= probs.len()
    &&& p.voiced(probs[a])
    &&& resumed(p, probs, a, b)
    &&& no_long_silence(p, probs, a, b)
}

/// Whether the windows `a..b` are within a stretch that was found, or within the current
/// one, which has not paused before their end.
spec fn held(t: Track, a: int, b: int) -> bool {
    ||| t.start is Some && t.start->0 <= 512 * a && (t.temp_end == 0 || t.temp_end >= 512 * b)
    ||| exists|i: int|
        0 <= i < t.speeches.len() && (#[trigger] t.speeches[i]).0 <= 512 * a && 512 * b
            <= t.speeches[i].1
}

proof fn lemma_run_held(p: VadParams, probs: Seq<u32>, a: int, b: int, n: int)
    requires
        told_apart(p, probs),
        unsplit_before(p, probs, probs.len() as int),
        speech_through(p, probs, a, b),
        512 * (b - a) > 16 * p.min_speech_duration_ms || n <= b,
        a < n <= probs.len(),
    ensures
        n <= b ==> {
            let t = Track::run(p, probs.take(n));
            &&& t.start is Some && t.start->0 <= 512 * a
            &&& t.temp_end == 0 || t.temp_end >= 512 * a
            &&& n == b ==> t.temp_end == 0
        },
        n > b ==> held(Track::run(p, probs.take(n)), a, b),
    decreases n,
{
    let before = probs.take(n - 1);
    let now = probs.take(n);
    let cur = 512 * (n - 1);
    assert(now.drop_last() =~= before);
    assert(now.last() == probs[n - 1]);
    let t = Track::run(p, before);
    lemma_run_told(p, probs, n - 1);
    lemma_run_told(p, probs, n);
    assert(!t.overlong(p, cur));
    let voiced = p.voiced(probs[n - 1]);
    let silent = p.silent(probs[n - 1]);
    let after = t.step(p, cur, voiced, silent);
    assert(Track::run(p, now) == after);
    if n - 1 > a {
        lemma_run_held(p, probs, a, b, n - 1);
    }
    if n <= b {
        if n - 1 > a && silent {
            let e = if t.temp_end == 0 {
                n - 1
            } else {
                t.temp_end / 512
            };
            assert(open_at(t, p, probs, n - 1, t.start->0 / 512));
            if cur - 512 * e >= p.min_silence() {
                assert(no_speech(p, probs, e, n)) by {
                    assert forall|j: int| e <= j < n implies !p.voiced(#[trigger] probs[j]) by {
                        if j < n - 1 {
                            assert(no_speech(p, probs, e, n - 1));
                        }
                    }
                }
                assert(long_silence(p, probs, e, n - 1));
            }
        }
        assert(after.start is Some);
        if n == b && after.temp_end != 0 {
            assert(open_at(after, p, probs, n, after.start->0 / 512));
            let e = after.temp_end / 512;
            assert(p.silent(probs[e]));
            assert(!no_speech(p, probs, e + 1, b));
        }
    } else {
        assert(held(t, a, b));
        if !(t.start is Some && t.start->0 <= 512 * a && (t.temp_end == 0 || t.temp_end >= 512
            * b)) {
            let i = choose|i: int|
                0 <= i < t.speeches.len() && (#[trigger] t.speeches[i]).0 <= 512 * a && 512 * b
                    <= t.speeches[i].1;
            assert(after.speeches[i] == t.speeches[i]);
        } else if after.speeches.len() > t.speeches.len() {
            assert(after.speeches[t.speeches.len() as int].0 <= 512 * a);
        }
    }
}

/// Speech that goes on for more than `min_speech_duration_ms`, with no silence in it long
/// enough to end it, is within one stretch, unless a stretch was split.
pub proof fn law_speech_found(p: VadParams, probs: Seq<u32>, len: int, a: int, b: int)
    requires
        segment_laws::covers(probs, len),
        segment_laws::never_split(p, probs),
        told_apart(p, probs),
        speech_through(p, probs, a, b),
        512 * b - 512 * a > 16 * p.min_speech_duration_ms,
        len - 512 * a > 16 * p.min_speech_duration_ms,
    ensures
        exists|i: int|
            0 <= i < segment::raw_speeches(p, probs, len).len() && (
            #[trigger] segment::raw_speeches(p, probs, len)[i]).0 <= 512 * a && (512 * b
                <= segment::raw_speeches(p, probs, len)[i].1 || len == segment::raw_speeches(
                p,
                probs,
                len,
            )[i].1),
{
    let n = probs.len() as int;
    let raw = segment::raw_speeches(p, probs, len);
    assert(probs.take(n) =~= probs);
    lemma_run_held(p, probs, a, b, n);
    let t = Track::run(p, probs);
    if t.start is Some && t.start->0 <= 512 * a {
        assert(raw[t.speeches.len() as int].1 == len);
    } else {
        let i = choose|i: int|
            0 <= i < t.speeches.len() && (#[trigger] t.speeches[i]).0 <= 512 * a && 512 * b
                <= t.speeches[i].1;
        assert(raw[i] == t.speeches[i]);
    }
}

/// Each end of a stretch is moved outwards by the margin, as far as the recording goes; a
/// silence too short for two margins is shared evenly by the stretches around it.
pub proof fn law_exact_margins(p: VadParams, probs: Seq<u32>, len: int, i: int)
    requires
        segment_laws::covers(probs, len),
        0 <= i < segment::raw_speeches(p, probs, len).len(),
    ensures
        ({
            let raw = segment::raw_speeches(p, probs, len);
            let s = segment::segments(p, probs, len);
            let pad = 16 * p.speech_pad_ms;
            &&& s.len() == raw.len()
            &&& i == 0 ==> s[0].0 == if raw[0].0 < pad {
                0
            } else {
                raw[0].0 - pad
            }
            &&& i == raw.len() - 1 ==> s[i].1 == if raw[i].1 + pad < len {
                raw[i].1 + pad
            } else {
                len
            }
            &&& i < raw.len() - 1 ==> {
                let gap = raw[i + 1].0 - raw[i].1;
                &&& gap >= 2 * pad ==> s[i].1 == raw[i].1 + pad && s[i + 1].0 == raw[i + 1].0 - pad
                &&& gap < 2 * pad ==> s[i].1 - raw[i].1 == raw[i + 1].0 - s[i + 1].0 && 0 <= s[i
                    + 1].0 - s[i].1 <= 1
            }
        }),
{
    let raw = segment::raw_speeches(p, probs, len);
    if len > 0 {
        segment::lemma_raw_in_order(p, probs, len);
    }
    if i < raw.len() - 1 {
        assert(raw[i].1 <= raw[i + 1].0);
        assert(raw[i].0 <= raw[i].1);
        assert(raw[i + 1].0 <= raw[i + 1].1);
        if i + 1 < raw.len() - 1 {
            assert(raw[i + 1].1 <= raw[raw.len() - 1].0);
        }
        assert(raw[raw.len() - 1].0 <= raw[raw.len() - 1].1);
    }
}

/// Speech from the beginning of a recording to its end is one segment, if it lasts longer
/// than `min_speech_duration_ms` and, with one window and both margins, no longer than the
/// limit.
pub proof fn law_uninterrupted(p: VadParams, probs: Seq<u32>, len: int)
    requires
        segment_laws::covers(probs, len),
        told_apart(p, probs),
        forall|k: int| 0 <= k < probs.len() ==> p.voiced(#[trigger] probs[k]),
        len > 16 * p.min_speech_duration_ms,
        p.max_speech_duration_s % 0x8000_0000 > 0x7f80_0000 || (len + 512 + 32 * p.speech_pad_ms)
            * pow2(149) <= 16_000 * ieee::single_value(p.max_speech_duration_s),
    ensures
        segment::segments(p, probs, len) == seq![(0int, len)],
{
    let n = probs.len() as int;
    let raw = segment::raw_speeches(p, probs, len);
    law_recording_within_limit(p, probs, len);
    assert(n > 0);
    assert(p.voiced(probs[0]));
    assert(speech_through(p, probs, 0, n)) by {
        assert forall|k: int| 0 <= k < n && p.silent(#[trigger] probs[k]) implies !no_speech(
            p,
            probs,
            k + 1,
            n,
        ) by {
            assert(p.voiced(probs[k]));
        }
        assert forall|e: int, c: int| 0 <= e <= c < n implies !#[trigger] long_silence(
            p,
            probs,
            e,
            c,
        ) by {
            assert(p.voiced(probs[e]));
        }
    }
    law_speech_found(p, probs, len, 0, n);
    let i = choose|i: int|
        0 <= i < raw.len() && (#[trigger] raw[i]).0 <= 0 && (512 * n <= raw[i].1 || len
            == raw[i].1);
    segment::lemma_raw_in_order(p, probs, len);
    segment_laws::law_segments_in_order(p, probs, len);
    segment_laws::law_margins(p, probs, len, i);
    assert(raw[i].1 == len);
    if raw.len() > 1 {
        let j: int = if i == 0 {
            1
        } else {
            0
        };
        law_stretch(p, probs, len, j);
        segment_laws::law_margins(p, probs, len, j);
        if i < j {
            assert(raw[i].1 <= raw[j].0);
        } else {
            assert(raw[j].1 <= raw[i].0);
        }
    }
    assert(segment::segments(p, probs, len) =~= seq![(0int, len)]);
}

/// The pauses that a stretch can be split at, once the window at `cur` is heard.
pub open spec fn pauses_with(t: Track, p: VadParams, cur: int, voiced: bool) -> Seq<(int, int)> {
    if voiced && t.temp_end != 0 && cur - t.temp_end > 16 * p.min_silence_at_max_speech {
        t.pauses.push((t.temp_end, cur - t.temp_end))
    } else {
        t.pauses
    }
}

/// A stretch that has become too long is cut: at the longest pause, the last one if there
/// are several; without one at the latest pause that was noted; and else at the window that
/// is one too many.
pub proof fn law_cut(t: Track, p: VadParams, cur: int, voiced: bool, silent: bool, k: int)
    requires
        t.sound(cur),
        t.overlong(p, cur),
    ensures
        ({
            let after = t.step(p, cur, voiced, silent);
            let pauses = pauses_with(t, p, cur, voiced);
            let n = t.speeches.len() as int;
            let longest = p.use_max_poss_sil_at_max_speech && 0 <= k < pauses.len() && (forall|
                i: int,
            |
                0 <= i < pauses.len() ==> (#[trigger] pauses[i]).1 <= pauses[k].1) && (forall|
                i: int,
            |
                k < i < pauses.len() ==> (#[trigger] pauses[i]).1 < pauses[k].1);
            let plain = !p.use_max_poss_sil_at_max_speech || pauses.len() == 0;
            &&& after.speeches.len() > n
            &&& after.speeches.take(n) == t.speeches
            &&& after.speeches[n].0 == t.start->0
            &&& longest ==> after.speeches[n].1 == pauses[k].0
            &&& longest && !silent ==> after.start == Some(pauses[k].0 + pauses[k].1)
            &&& plain && t.prev_end != 0 ==> after.speeches[n].1 == t.prev_end
            &&& plain && t.prev_end == 0 ==> after.speeches == t.speeches.push((t.start->0, cur))
                && after.start is None
        }),
{
    let heard = if voiced && t.temp_end != 0 {
        t.resume(p, cur)
    } else {
        t
    };
    let pauses = pauses_with(t, p, cur, voiced);
    assert(heard.pauses == pauses);
    let after = t.step(p, cur, voiced, silent);
    let n = t.speeches.len() as int;
    let cut = heard.split(p, cur);
    if p.use_max_poss_sil_at_max_speech && pauses.len() > 0 {
        let m = segment::lemma_longest_pause(pauses);
        if 0 <= k < pauses.len() && (forall|i: int|
            0 <= i < pauses.len() ==> (#[trigger] pauses[i]).1 <= pauses[k].1) && (forall|i: int|
            k < i < pauses.len() ==> (#[trigger] pauses[i]).1 < pauses[k].1) {
            assert(pauses[m].1 <= pauses[k].1);
            assert(pauses[k].1 <= pauses[m].1);
            assert(m == k);
        }
        let pause = pauses[m];
        assert(pause.0 + pause.1 <= cur && pause.0 > 0 ==> pause.1 < cur);
        if m < t.pauses.len() {
            assert(pause == t.pauses[m]);
        }
        assert(pause.1 < cur) by {
            assert(pause.0 + pause.1 <= cur);
            if pause.0 == 0 {
                assert(m < t.pauses.len());
                assert(t.pauses[m].0 + t.pauses[m].1 <= cur - 512);
            }
        }
    }
    assert(cut.speeches.len() == n + 1);
    assert(cut.speeches.take(n) =~= t.speeches);
    assert(after.speeches.take(n) =~= t.speeches);
}

/// The first stretch that becomes too long, at window `k`, is cut at the longest silence in
/// it that is long enough for that, wherever there is one, and else at window `k`.
pub proof fn law_first_cut(p: VadParams, probs: Seq<u32>, k: int)
    requires
        told_apart(p, probs),
        0 <= k < probs.len(),
        unsplit_before(p, probs, k),
        Track::run(p, probs.take(k)).overlong(p, 512 * k),
        p.use_max_poss_sil_at_max_speech,
    ensures
        ({
            let before = Track::run(p, probs.take(k));
            let after = Track::run(p, probs.take(k + 1));
            let n = before.speeches.len() as int;
            let a = before.start->0 / 512;
            let cut = after.speeches[n];
            &&& before.start->0 == 512 * a && goes_on(p, probs, a, k)
            &&& after.speeches.take(n) == before.speeches
            &&& cut.0 == 512 * a
            &&& (exists|e: int, j: int| j <= k && #[trigger] is_pause(p, probs, a, e, j)) ==> exists|
                e: int,
                j: int,
            |
                j <= k && #[trigger] is_pause(p, probs, a, e, j) && cut.1 == 512 * e && forall|
                    x: int,
                    y: int,
                |
                    y <= k && #[trigger] is_pause(p, probs, a, x, y) ==> y - x <= j - e
            &&& (forall|e: int, j: int| j <= k ==> !#[trigger] is_pause(p, probs, a, e, j))
                ==> cut.1 == 512 * k
        }),
{
    let t = Track::run(p, probs.take(k));
    let now = probs.take(k + 1);
    assert(now.drop_last() =~= probs.take(k));
    assert(now.last() == probs[k]);
    lemma_run_told(p, probs, k);
    let a = t.start->0 / 512;
    assert(open_at(t, p, probs, k, a));
    let voiced = p.voiced(probs[k]);
    let silent = p.silent(probs[k]);
    let after = t.step(p, 512 * k, voiced, silent);
    assert(Track::run(p, now) == after);
    let pauses = pauses_with(t, p, 512 * k, voiced);
    assert forall|e: int, j: int| #[trigger] is_pause(p, probs, a, e, j) && j <= k implies
        pauses.contains((512 * e, 512 * (j - e))) by {
        lemma_pause_known(t, p, probs, k, a, e, j);
    }
    assert forall|i: int| 0 <= i < pauses.len() implies {
        let e = (#[trigger] pauses[i]).0 / 512;
        let j = e + pauses[i].1 / 512;
        &&& pauses[i] == (512 * e, 512 * (j - e))
        &&& j <= k
        &&& is_pause(p, probs, a, e, j)
    } by {
        if i == t.pauses.len() {
            let e = t.temp_end / 512;
            assert((512 * k - t.temp_end) / 512 == k - e);
            assert(is_pause(p, probs, a, e, k));
        }
    }
    if pauses.len() > 0 {
        let m = segment::lemma_longest_pause(pauses);
        law_cut(t, p, 512 * k, voiced, silent, m);
        let e = pauses[m].0 / 512;
        let j = e + pauses[m].1 / 512;
        assert(is_pause(p, probs, a, e, j));
        assert forall|x: int, y: int| y <= k && #[trigger] is_pause(p, probs, a, x, y) implies y - x
            <= j - e by {
            assert(pauses.contains((512 * x, 512 * (y - x))));
            let i = choose|i: int| 0 <= i < pauses.len() && pauses[i] == (512 * x, 512 * (y - x));
            assert(pauses[i].1 <= pauses[m].1);
        }
    } else {
        law_cut(t, p, 512 * k, voiced, silent, 0);
        assert forall|e: int, j: int| j <= k implies !#[trigger] is_pause(p, probs, a, e, j) by {
            if is_pause(p, probs, a, e, j) {
                assert(pauses.contains((512 * e, 512 * (j - e))));
            }
        }
    }
}

proof fn lemma_pause_known(
    t: Track,
    p: VadParams,
    probs: Seq<u32>,
    k: int,
    a: int,
    e: int,
    j: int,
)
    requires
        open_at(t, p, probs, k, a),
        0 <= k < probs.len(),
        told_apart(p, probs),
        is_pause(p, probs, a, e, j),
        j <= k,
    ensures
        pauses_with(t, p, 512 * k, p.voiced(probs[k])).contains((512 * e, 512 * (j - e))),
{
    let pauses = pauses_with(t, p, 512 * k, p.voiced(probs[k]));
    if j < k {
        assert(t.pauses.contains((512 * e, 512 * (j - e))));
        let i = choose|i: int| 0 <= i < t.pauses.len() && t.pauses[i] == (512 * e, 512 * (j - e));
        assert(pauses[i] == t.pauses[i]);
    } else if t.temp_end == 0 {
        assert(p.silent(probs[e]));
        assert(!no_speech(p, probs, e + 1, k));
    } else {
        let d = t.temp_end / 512;
        assert(p.silent(probs[d]));
        assert(p.silent(probs[e]));
        if e < d {
            assert(!no_speech(p, probs, e + 1, d));
        } else if d < e {
            assert(!no_speech(p, probs, d + 1, e));
        }
        assert(e == d);
        assert(pauses[pauses.len() - 1] == (512 * e, 512 * (j - e)));
    }
}

/// While no longer silence has come, a stretch that may not be split at its longest pause
/// notes the latest one that is long enough, and where speech resumed after it.
pub proof fn law_noted_pause(t: Track, p: VadParams, cur: int, voiced: bool, silent: bool)
    requires
        t.sound(cur),
        t.start is Some,
        !t.overlong(p, cur),
        !(voiced && silent),
    ensures
        ({
            let after = t.step(p, cur, voiced, silent);
            let pause = if t.temp_end == 0 {
                cur
            } else {
                t.temp_end
            };
            &&& silent && cur - pause < 16 * p.min_silence_duration_ms ==> {
                &&& after.start == t.start && after.speeches == t.speeches
                &&& after.temp_end == pause
                &&& !p.use_max_poss_sil_at_max_speech && cur - pause > 16
                    * p.min_silence_at_max_speech ==> after.prev_end == pause
                &&& p.use_max_poss_sil_at_max_speech || cur - pause <= 16
                    * p.min_silence_at_max_speech ==> after.prev_end == t.prev_end
                &&& after.next_start == t.next_start
            }
            &&& voiced ==> {
                &&& after.start == t.start && after.speeches == t.speeches
                &&& after.temp_end == 0
                &&& after.prev_end == t.prev_end
                &&& t.temp_end != 0 && t.next_start < t.prev_end ==> after.next_start == cur
                &&& t.temp_end == 0 || t.next_start >= t.prev_end ==> after.next_start
                    == t.next_start
            }
            &&& !voiced && !silent ==> after == t
        }),
{
}

/// After a cut at a noted pause, the next stretch begins where speech resumed after it, or
/// not yet if it has not.
pub proof fn law_after_noted_cut(t: Track, p: VadParams, cur: int, voiced: bool)
    requires
        t.sound(cur),
        t.overlong(p, cur),
        !p.use_max_poss_sil_at_max_speech,
        t.prev_end != 0,
    ensures
        ({
            let after = t.step(p, cur, voiced, false);
            let resumes = voiced && t.temp_end != 0;
            &&& t.next_start >= t.prev_end ==> after.start == Some(t.next_start)
            &&& t.next_start < t.prev_end && resumes ==> after.start == Some(cur)
            &&& t.next_start < t.prev_end && !resumes ==> after.start is None
            &&& after.temp_end == 0 && after.prev_end == 0 && after.next_start == 0
            &&& after.pauses.len() == 0
        }),
{
}

/// A cut leaves no trace of the pauses before it: the next stretch knows of none.
pub proof fn law_cut_forgets(t: Track, p: VadParams, cur: int, voiced: bool)
    requires
        t.overlong(p, cur),
    ensures
        ({
            let after = t.step(p, cur, voiced, false);
            &&& after.temp_end == 0 && after.prev_end == 0 && after.next_start == 0
            &&& after.pauses.len() == 0
        }),
{
}

/// A cut that falls in a silent window is followed by a pause that begins with that window,
/// and with no silence to wait for, what was heard since the longest pause ends there.
pub proof fn law_cut_in_silence(t: Track, p: VadParams, cur: int, voiced: bool, k: int)
    requires
        t.sound(cur),
        t.overlong(p, cur),
        p.use_max_poss_sil_at_max_speech,
        0 <= k < pauses_with(t, p, cur, voiced).len(),
        forall|i: int|
            0 <= i < pauses_with(t, p, cur, voiced).len() && i != k ==> (#[trigger] pauses_with(
                t,
                p,
                cur,
                voiced,
            )[i]).1 < pauses_with(t, p, cur, voiced)[k].1,
    ensures
        ({
            let after = t.step(p, cur, voiced, true);
            let pause = pauses_with(t, p, cur, voiced)[k];
            let begin = pause.0 + pause.1;
            let n = t.speeches.len() as int;
            &&& p.min_silence_duration_ms > 0 ==> {
                &&& after.start == Some(begin)
                &&& after.temp_end == cur
                &&& after.speeches == t.speeches.push((t.start->0, pause.0))
            }
            &&& p.min_silence_duration_ms == 0 ==> {
                &&& after.start is None
                &&& cur - begin > 16 * p.min_speech_duration_ms ==> after.speeches
                    == t.speeches.push((t.start->0, pause.0)).push((begin, cur))
                &&& cur - begin <= 16 * p.min_speech_duration_ms ==> after.speeches
                    == t.speeches.push((t.start->0, pause.0))
            }
        }),
{
    let heard = if voiced && t.temp_end != 0 {
        t.resume(p, cur)
    } else {
        t
    };
    let pauses = pauses_with(t, p, cur, voiced);
    assert(heard.pauses == pauses);
    law_cut(t, p, cur, voiced, false, k);
    assert(heard.split(p, cur) == t.step(p, cur, voiced, false));
    let cut = heard.split(p, cur);
    assert(t.step(p, cur, voiced, true) == if cut.start is Some {
        cut.hush(p, cur)
    } else {
        cut
    });
    assert(cut.speeches =~= t.speeches.push((t.start->0, pauses[k].0)));
}

/// A cut at a noted pause that falls in a silent window is followed by a pause that begins
/// with that window.
pub proof fn law_noted_cut_in_silence(t: Track, p: VadParams, cur: int)
    requires
        t.sound(cur),
        t.overlong(p, cur),
        !p.use_max_poss_sil_at_max_speech,
        t.prev_end != 0,
        p.min_silence_duration_ms > 0,
    ensures
        ({
            let after = t.step(p, cur, false, true);
            &&& after.speeches == t.speeches.push((t.start->0, t.prev_end))
            &&& t.next_start < t.prev_end ==> after.start is None && after.temp_end == 0
            &&& t.next_start >= t.prev_end ==> after.start == Some(t.next_start) && after.temp_end
                == cur
        }),
{
}

} // verus!
