//! What holds of the speech segments of every recording.

use crate::ieee;
use crate::segment;
use crate::segment::Track;
use crate::vad;
use crate::vad::{VadParams, LOWEST_NEG_THRESHOLD, WINDOW};
use vstd::arithmetic::power2::*;
use vstd::prelude::*;

verus! {

/// A recording of `len` samples that has one probability for each window.
pub open spec fn covers(probs: Seq<u32>, len: int) -> bool {
    len >= 0 && probs.len() == vad::window_count(len)
}

/// The segments of a recording lie within it and are in order: each one begins no
/// earlier than the one before it ends.
pub proof fn law_segments_in_order(p: VadParams, probs: Seq<u32>, len: int)
    requires
        covers(probs, len),
    ensures
        ({
            let s = segment::segments(p, probs, len);
            &&& forall|i: int| 0 <= i < s.len() ==> 0 <= (#[trigger] s[i]).0 <= s[i].1 <= len
            &&& forall|i: int, j: int|
                0 <= i < j < s.len() ==> (#[trigger] s[i]).1 <= (#[trigger] s[j]).0
        }),
{
    let raw = segment::raw_speeches(p, probs, len);
    let s = segment::segments(p, probs, len);
    if len > 0 {
        segment::lemma_raw_in_order(p, probs, len);
    }
    assert forall|i: int| 0 <= i < s.len() implies 0 <= (#[trigger] s[i]).0 <= s[i].1 <= len by {
        law_margins(p, probs, len, i);
    }
    assert forall|i: int, j: int| 0 <= i < j < s.len() implies (#[trigger] s[i]).1 <= (
    #[trigger] s[j]).0 by {
        assert(raw[i].1 <= raw[i + 1].0);
        assert(raw[j - 1].1 <= raw[j].0);
        if i + 1 < j {
            assert(raw[i + 1].0 <= raw[i + 1].1);
            assert(raw[i + 1].1 <= raw[j].0);
            assert(raw[i + 1].0 <= raw[j - 1].1) by {
                if i + 1 < j - 1 {
                    assert(raw[i + 1].1 <= raw[j - 1].0);
                }
            }
        }
    }
}

/// A segment is a stretch of speech with up to the margin added on each side, and
/// nothing of the stretch is lost.
pub proof fn law_margins(p: VadParams, probs: Seq<u32>, len: int, i: int)
    requires
        covers(probs, len),
        0 <= i < segment::raw_speeches(p, probs, len).len(),
    ensures
        ({
            let raw = segment::raw_speeches(p, probs, len)[i];
            let s = segment::segments(p, probs, len)[i];
            &&& raw.0 - p.pad() <= s.0 <= raw.0
            &&& raw.1 <= s.1 <= raw.1 + p.pad()
            &&& 0 <= s.0
            &&& raw.0 <= raw.1
            &&& s.1 <= len
        }),
{
    let raw = segment::raw_speeches(p, probs, len);
    if len > 0 {
        segment::lemma_raw_in_order(p, probs, len);
    }
    if i > 0 {
        assert(raw[i - 1].1 <= raw[i].0);
    }
    if i < raw.len() - 1 {
        assert(raw[i].1 <= raw[i + 1].0);
        assert(raw[i + 1].0 <= raw[i + 1].1);
        assert(raw[i].1 <= raw[raw.len() - 1].0);
    }
}

/// Whether every stretch found is within the limit, give or take one window, and
/// the current one, seen from the last window, is too.
spec fn within_limit(t: Track, p: VadParams, cur: int) -> bool {
    &&& forall|i: int|
        0 <= i < t.speeches.len() ==> !p.too_long((#[trigger] t.speeches[i]).1 - t.speeches[i].0
            - WINDOW)
    &&& t.start is Some ==> !p.too_long(cur - WINDOW - t.start->0)
}

/// What is shorter than a stretch within the limit is within the limit.
proof fn lemma_too_long_monotone(p: VadParams, a: int, b: int)
    requires
        a <= b,
        !p.too_long(b),
    ensures
        !p.too_long(a),
{
    let one = ieee::single_one();
    lemma_pow2_pos(149);
    let x = a + WINDOW + 2 * p.pad();
    let y = b + WINDOW + 2 * p.pad();
    assert(x * one <= y * one) by (nonlinear_arith)
        requires
            x <= y,
            one > 0,
    ;
}

proof fn lemma_step_within_limit(t: Track, p: VadParams, cur: int, voiced: bool, silent: bool)
    requires
        t.sound(cur),
        within_limit(t, p, cur),
        !p.too_long(0),
    ensures
        within_limit(t.step(p, cur, voiced, silent), p, cur + WINDOW),
{
    let after = cur + WINDOW;
    let heard = if voiced && t.temp_end != 0 {
        t.resume(p, cur)
    } else {
        t
    };
    assert(heard.sound(after));
    if !(voiced && t.start is None) && t.start is Some {
        let start = t.start->0;
        assert forall|end: int| end <= cur implies !(#[trigger] p.too_long(end - start - WINDOW)) by {
            lemma_too_long_monotone(p, end - start - WINDOW, cur - WINDOW - start);
        }
        let cut = if heard.overlong(p, cur) {
            heard.split(p, cur)
        } else {
            heard
        };
        if heard.overlong(p, cur) {
            segment::lemma_split_sound(heard, p, cur);
            if p.use_max_poss_sil_at_max_speech && heard.pauses.len() > 0 {
                let k = segment::lemma_longest_pause(heard.pauses);
            }
            if cut.start is Some {
                lemma_too_long_monotone(p, cur - cut.start->0, cur - WINDOW - start);
            }
        }
        assert(within_limit(cut, p, after));
        if silent && cut.start is Some {
            let end = if cut.temp_end == 0 {
                cur
            } else {
                cut.temp_end
            };
            lemma_too_long_monotone(p, end - cut.start->0 - WINDOW, cur - cut.start->0);
        }
    }
}

proof fn lemma_run_within_limit(p: VadParams, probs: Seq<u32>)
    requires
        !p.too_long(0),
    ensures
        within_limit(Track::run(p, probs), p, WINDOW * probs.len()),
    decreases probs.len(),
{
    if probs.len() > 0 {
        let before = probs.drop_last();
        lemma_run_within_limit(p, before);
        segment::lemma_run_sound(p, before);
        lemma_step_within_limit(
            Track::run(p, before),
            p,
            WINDOW * before.len(),
            p.voiced(probs.last()),
            p.silent(probs.last()),
        );
    }
}

/// No segment is longer than `max_speech_duration_s`, provided that this leaves
/// room for one window and both margins.
pub proof fn law_segment_limit(p: VadParams, probs: Seq<u32>, len: int, i: int)
    requires
        covers(probs, len),
        0 <= i < segment::segments(p, probs, len).len(),
        !p.too_long(0),
    ensures
        ({
            let s = segment::segments(p, probs, len)[i];
            !ieee::lasts_longer(s.1 - s.0, p.max_speech_duration_s)
        }),
{
    let t = Track::run(p, probs);
    let raw = segment::raw_speeches(p, probs, len);
    let s = segment::segments(p, probs, len)[i];
    lemma_run_within_limit(p, probs);
    law_margins(p, probs, len, i);
    let stretch = raw[i].1 - raw[i].0 - WINDOW;
    if i == t.speeches.len() {
        lemma_too_long_monotone(p, stretch, WINDOW * probs.len() - WINDOW - t.start->0);
    }
    let one = ieee::single_one();
    lemma_pow2_pos(149);
    let a = s.1 - s.0;
    let b = stretch + WINDOW + 2 * p.pad();
    assert(a * one <= b * one) by (nonlinear_arith)
        requires
            a <= b,
            one > 0,
    ;
}

/// With a limit of 28 s and margins of less than 13 s, no segment has more than the
/// 448000 samples of 28 s.
pub proof fn law_segments_within_28_seconds(p: VadParams, probs: Seq<u32>, len: int, i: int)
    requires
        covers(probs, len),
        0 <= i < segment::segments(p, probs, len).len(),
        p.max_speech_duration_s == 0x41e0_0000,
        p.speech_pad_ms < 13_000,
    ensures
        segment::segments(p, probs, len)[i].1 - segment::segments(p, probs, len)[i].0 <= 448_000,
{
    let one = ieee::single_one();
    let limit = p.max_speech_duration_s;
    lemma_pow2_pos(149);
    lemma_pow2_adds(19, 130);
    lemma2_to64();
    assert(ieee::single_exponent(0x41e0_0000) == 131);
    assert(ieee::single_fraction(0x41e0_0000) == 0x60_0000);
    assert(ieee::single_value(limit) == 0xe0_0000 * pow2(130));
    assert(0xe0_0000 * pow2(130) == 28 * one);
    let room = 0 + WINDOW + 2 * p.pad();
    assert(room * one <= 448_000 * one) by (nonlinear_arith)
        requires
            room <= 448_000,
            one > 0,
    ;
    law_segment_limit(p, probs, len, i);
    let n = segment::segments(p, probs, len)[i].1 - segment::segments(p, probs, len)[i].0;
    assert(n <= 448_000) by (nonlinear_arith)
        requires
            n * one <= 448_000 * one,
            one > 0,
    ;
}

/// Whether pauses begin at least one window after the stretches they are in, and no
/// stretch found is shorter than a window.
spec fn no_empty(t: Track) -> bool {
    &&& t.temp_end != 0 ==> t.start->0 + WINDOW <= t.temp_end
    &&& t.prev_end != 0 ==> t.start->0 + WINDOW <= t.prev_end
    &&& forall|i: int|
        0 <= i < t.pauses.len() ==> t.start->0 + WINDOW <= (#[trigger] t.pauses[i]).0
    &&& forall|i: int|
        0 <= i < t.speeches.len() ==> (#[trigger] t.speeches[i]).0 + WINDOW <= t.speeches[i].1
}

proof fn lemma_step_no_empty(t: Track, p: VadParams, cur: int, voiced: bool, silent: bool)
    requires
        t.sound(cur),
        no_empty(t),
        !(voiced && silent),
    ensures
        no_empty(t.step(p, cur, voiced, silent)),
{
    let heard = if voiced && t.temp_end != 0 {
        t.resume(p, cur)
    } else {
        t
    };
    assert(no_empty(heard));
    if !(voiced && t.start is None) && t.start is Some {
        let cut = if heard.overlong(p, cur) {
            heard.split(p, cur)
        } else {
            heard
        };
        if heard.overlong(p, cur) && p.use_max_poss_sil_at_max_speech && heard.pauses.len() > 0 {
            let k = segment::lemma_longest_pause(heard.pauses);
        }
        assert(no_empty(cut));
        if silent {
            assert(heard == t);
            assert(cut.start is Some ==> cut.start->0 + WINDOW <= cur);
        }
    }
}

/// The threshold for silence is not above the one for speech, unless that is
/// below 0.01.
pub proof fn lemma_neg_threshold_below(threshold: u32)
    requires
        !ieee::single_is_nan(threshold),
        ieee::single_value(threshold) >= ieee::single_value(LOWEST_NEG_THRESHOLD),
    ensures
        vad::neg_threshold_value(threshold) <= ieee::single_value(threshold),
{
    ieee::lemma_single_representable(threshold);
    ieee::lemma_single_representable(vad::HYSTERESIS);
    ieee::lemma_single_representable(LOWEST_NEG_THRESHOLD);
    let lowered = ieee::single_value(threshold) - ieee::single_value(vad::HYSTERESIS);
    if lowered > ieee::single_value(LOWEST_NEG_THRESHOLD) {
        ieee::lemma_round_to_width_bound(
            lowered as nat,
            ieee::single_value(threshold) as nat,
            24,
        );
    }
}

proof fn lemma_run_no_empty(p: VadParams, probs: Seq<u32>)
    requires
        forall|i: int|
            0 <= i < probs.len() ==> !(p.voiced(#[trigger] probs[i]) && p.silent(probs[i])),
    ensures
        no_empty(Track::run(p, probs)),
    decreases probs.len(),
{
    if probs.len() > 0 {
        let before = probs.drop_last();
        assert forall|i: int| 0 <= i < before.len() implies !(p.voiced(#[trigger] before[i])
            && p.silent(before[i])) by {
            assert(before[i] == probs[i]);
        }
        lemma_run_no_empty(p, before);
        segment::lemma_run_sound(p, before);
        assert(probs.last() == probs[probs.len() - 1]);
        lemma_step_no_empty(
            Track::run(p, before),
            p,
            WINDOW * before.len(),
            p.voiced(probs.last()),
            p.silent(probs.last()),
        );
    }
}

/// No stretch is shorter than a window, unless the recording ends within it, where the
/// threshold is at least 0.01.
pub proof fn law_no_empty_stretch(p: VadParams, probs: Seq<u32>, len: int, i: int)
    requires
        covers(probs, len),
        0 <= i < segment::raw_speeches(p, probs, len).len(),
        ieee::single_value(p.threshold) >= ieee::single_value(LOWEST_NEG_THRESHOLD),
    ensures
        ({
            let raw = segment::raw_speeches(p, probs, len)[i];
            raw.0 < raw.1 && segment::int_min(raw.0 + WINDOW, len) <= raw.1
        }),
{
    assert forall|k: int| 0 <= k < probs.len() implies !(p.voiced(#[trigger] probs[k]) && p.silent(
        probs[k],
    )) by {
        if !ieee::single_is_nan(p.threshold) {
            lemma_neg_threshold_below(p.threshold);
        }
    }
    lemma_run_no_empty(p, probs);
    segment::lemma_run_sound(p, probs);
}

/// Every segment holds a window that counts as speech, as far as the recording goes,
/// where the threshold is at least 0.01; so none is empty.
pub proof fn law_segment_holds_speech(p: VadParams, probs: Seq<u32>, len: int, i: int)
    requires
        covers(probs, len),
        0 <= i < segment::segments(p, probs, len).len(),
        ieee::single_value(p.threshold) >= ieee::single_value(LOWEST_NEG_THRESHOLD),
    ensures
        ({
            let s = segment::segments(p, probs, len)[i];
            &&& s.0 < s.1
            &&& exists|k: int|
                0 <= k < probs.len() && p.voiced(#[trigger] probs[k]) && s.0 <= WINDOW * k
                    && segment::int_min(WINDOW * k + WINDOW, len) <= s.1
        }),
{
    law_margins(p, probs, len, i);
    law_no_empty_stretch(p, probs, len, i);
    law_speech_begins_voiced(p, probs, len, i);
    let raw = segment::raw_speeches(p, probs, len)[i];
    let k = choose|k: int|
        0 <= k < probs.len() && raw.0 == WINDOW * k && p.voiced(#[trigger] probs[k]);
    assert(p.voiced(probs[k]));
}

/// Whether all that was found, none of it by a split, is long enough and far
/// enough apart.
pub open spec fn unsplit(t: Track, p: VadParams, cur: int) -> bool {
    &&& forall|i: int|
        0 <= i < t.speeches.len() ==> (#[trigger] t.speeches[i]).1 - t.speeches[i].0
            > p.min_speech()
    &&& forall|i: int, j: int|
        0 <= i < j < t.speeches.len() ==> (#[trigger] t.speeches[j]).0 - (
        #[trigger] t.speeches[i]).1 >= p.min_silence() + WINDOW
    &&& t.speeches.len() > 0 ==> (if t.start is Some {
        t.start->0
    } else {
        cur
    }) - t.speeches.last().1 >= p.min_silence() + WINDOW
}

proof fn lemma_step_unsplit(t: Track, p: VadParams, cur: int, voiced: bool, silent: bool)
    requires
        t.sound(cur),
        unsplit(t, p, cur),
        !t.overlong(p, cur),
    ensures
        unsplit(t.step(p, cur, voiced, silent), p, cur + WINDOW),
{
    let heard = if voiced && t.temp_end != 0 {
        t.resume(p, cur)
    } else {
        t
    };
    if t.start is Some {
        assert(!heard.overlong(p, cur));
        let after = t.step(p, cur, voiced, silent);
        assert forall|i: int, j: int| 0 <= i < j < after.speeches.len() implies (
        #[trigger] after.speeches[j]).0 - (#[trigger] after.speeches[i]).1 >= p.min_silence()
            + WINDOW by {
            if j == t.speeches.len() && i < j - 1 {
                assert(t.speeches[i].1 <= t.speeches[j - 1].0);
                assert(t.speeches[j - 1].0 <= t.speeches[j - 1].1);
            }
        }
    }
}

/// Whether no stretch becomes too long, so that none is split.
pub open spec fn never_split(p: VadParams, probs: Seq<u32>) -> bool {
    forall|k: int|
        0 <= k < probs.len() ==> !(#[trigger] Track::run(p, probs.take(k))).overlong(p, WINDOW * k)
}

/// Nothing is split in a recording that is itself within the limit.
pub proof fn law_short_recording_unsplit(p: VadParams, probs: Seq<u32>, len: int)
    requires
        covers(probs, len),
        !p.too_long(len),
    ensures
        never_split(p, probs),
{
    assert forall|k: int| 0 <= k < probs.len() implies !(#[trigger] Track::run(
        p,
        probs.take(k),
    )).overlong(p, WINDOW * k) by {
        segment::lemma_run_sound(p, probs.take(k));
        let t = Track::run(p, probs.take(k));
        if t.start is Some {
            lemma_too_long_monotone(p, WINDOW * k - t.start->0, len);
        }
    }
}

pub proof fn lemma_run_unsplit(p: VadParams, probs: Seq<u32>)
    requires
        never_split(p, probs),
    ensures
        unsplit(Track::run(p, probs), p, WINDOW * probs.len()),
    decreases probs.len(),
{
    if probs.len() > 0 {
        let before = probs.drop_last();
        assert(before =~= probs.take(before.len() as int));
        assert(!Track::run(p, probs.take(before.len() as int)).overlong(p, WINDOW * before.len()));
        assert(never_split(p, before)) by {
            assert forall|k: int| 0 <= k < before.len() implies !(#[trigger] Track::run(
                p,
                before.take(k),
            )).overlong(p, WINDOW * k) by {
                assert(before.take(k) =~= probs.take(k));
                assert(!Track::run(p, probs.take(k)).overlong(p, WINDOW * k));
            }
        }
        lemma_run_unsplit(p, before);
        segment::lemma_run_sound(p, before);
        lemma_step_unsplit(
            Track::run(p, before),
            p,
            WINDOW * before.len(),
            p.voiced(probs.last()),
            p.silent(probs.last()),
        );
    }
}

/// Speech that is no longer than `min_speech_duration_ms` is dropped: every
/// segment is longer than that, unless a stretch was split.
pub proof fn law_short_speech_dropped(p: VadParams, probs: Seq<u32>, len: int, i: int)
    requires
        covers(probs, len),
        0 <= i < segment::segments(p, probs, len).len(),
        never_split(p, probs),
    ensures
        ({
            let s = segment::segments(p, probs, len)[i];
            s.1 - s.0 > p.min_speech()
        }),
{
    lemma_run_unsplit(p, probs);
    law_margins(p, probs, len, i);
}

/// A silence shorter than `min_silence_duration_ms` does not end a stretch: the
/// stretches are further apart by at least one window, unless one was split.
pub proof fn law_silence_between(p: VadParams, probs: Seq<u32>, len: int, i: int)
    requires
        covers(probs, len),
        0 <= i < segment::raw_speeches(p, probs, len).len() - 1,
        never_split(p, probs),
    ensures
        segment::gap(segment::raw_speeches(p, probs, len), i) >= p.min_silence() + WINDOW,
{
    lemma_run_unsplit(p, probs);
    let t = Track::run(p, probs);
    let raw = segment::raw_speeches(p, probs, len);
    if i + 1 < t.speeches.len() {
        assert(t.speeches[i + 1].0 - t.speeches[i].1 >= p.min_silence() + WINDOW);
    }
}

/// Whether `pos` is where a window begins that counts as speech.
pub open spec fn at_voiced_window(p: VadParams, probs: Seq<u32>, pos: int) -> bool {
    exists|k: int|
        0 <= k < probs.len() && pos == WINDOW * k && p.voiced(#[trigger] probs[k])
}

spec fn anchored(t: Track, p: VadParams, probs: Seq<u32>) -> bool {
    &&& t.start is Some ==> at_voiced_window(p, probs, t.start->0)
    &&& t.next_start != 0 ==> at_voiced_window(p, probs, t.next_start)
    &&& forall|i: int|
        0 <= i < t.pauses.len() ==> at_voiced_window(
            p,
            probs,
            (#[trigger] t.pauses[i]).0 + t.pauses[i].1,
        )
    &&& forall|i: int|
        0 <= i < t.speeches.len() ==> at_voiced_window(p, probs, (#[trigger] t.speeches[i]).0)
}

proof fn lemma_run_anchored(p: VadParams, probs: Seq<u32>)
    ensures
        anchored(Track::run(p, probs), p, probs),
    decreases probs.len(),
{
    if probs.len() > 0 {
        let before = probs.drop_last();
        let n = before.len() as int;
        let cur = WINDOW * n;
        lemma_run_anchored(p, before);
        segment::lemma_run_sound(p, before);
        let t = Track::run(p, before);
        assert forall|pos: int| at_voiced_window(p, before, pos) implies at_voiced_window(
            p,
            probs,
            pos,
        ) by {
            let k = choose|k: int|
                0 <= k < before.len() && pos == WINDOW * k && p.voiced(#[trigger] before[k]);
            assert(probs[k] == before[k]);
        }
        assert(anchored(t, p, probs));
        let voiced = p.voiced(probs.last());
        assert(probs[n] == probs.last());
        assert(voiced ==> at_voiced_window(p, probs, cur));
        let heard = if voiced && t.temp_end != 0 {
            t.resume(p, cur)
        } else {
            t
        };
        assert(anchored(heard, p, probs));
        if heard.overlong(p, cur) && p.use_max_poss_sil_at_max_speech && heard.pauses.len() > 0 {
            let k = segment::lemma_longest_pause(heard.pauses);
        }
    }
}

/// Every stretch of speech begins with a window that counts as speech.
pub proof fn law_speech_begins_voiced(p: VadParams, probs: Seq<u32>, len: int, i: int)
    requires
        0 <= i < segment::raw_speeches(p, probs, len).len(),
    ensures
        at_voiced_window(p, probs, segment::raw_speeches(p, probs, len)[i].0),
{
    lemma_run_anchored(p, probs);
}

/// A recording without a window that counts as speech has no segment.
pub proof fn law_silence_has_no_segment(p: VadParams, probs: Seq<u32>, len: int)
    requires
        forall|k: int| 0 <= k < probs.len() ==> !p.voiced(#[trigger] probs[k]),
    ensures
        segment::segments(p, probs, len).len() == 0,
{
    if segment::segments(p, probs, len).len() > 0 {
        law_speech_begins_voiced(p, probs, len, 0);
    }
}

/// A stretch that has become too long ends where the longest silence in it that is
/// long enough for a split began, and the next one begins where that silence ended.
pub proof fn law_split_at_longest_silence(t: Track, p: VadParams, cur: int)
    requires
        t.sound(cur),
        t.overlong(p, cur),
        p.use_max_poss_sil_at_max_speech,
        t.pauses.len() > 0,
    ensures
        exists|k: int|
            #![trigger t.pauses[k]]
            {
                let after = t.split(p, cur);
                &&& 0 <= k < t.pauses.len()
                &&& forall|i: int| 0 <= i < t.pauses.len() ==> (#[trigger] t.pauses[i]).1
                    <= t.pauses[k].1
                &&& after.speeches == t.speeches.push((t.start->0, t.pauses[k].0))
                &&& after.start == Some(t.pauses[k].0 + t.pauses[k].1)
            },
{
    let k = segment::lemma_longest_pause(t.pauses);
    let pause = t.pauses[k];
    assert(pause.0 + pause.1 <= cur - WINDOW);
    assert(t.split(p, cur).speeches =~= t.speeches.push((t.start->0, t.pauses[k].0)));
}

/// Whether the windows `a..b` begin with one that counts as speech, and none of them
/// counts as silence.
pub open spec fn spoken_through(p: VadParams, probs: Seq<u32>, a: int, b: int) -> bool {
    &&& 0 <= a < b <= probs.len()
    &&& p.voiced(probs[a])
    &&& forall|j: int| a <= j < b ==> !p.silent(#[trigger] probs[j])
}

/// Whether the windows `a..b` are within a stretch that was found, or within the
/// current one, which does not pause before their end.
spec fn kept(t: Track, a: int, b: int) -> bool {
    ||| t.start is Some && t.start->0 <= WINDOW * a && (t.temp_end == 0 || t.temp_end >= WINDOW * b)
    ||| exists|i: int|
        0 <= i < t.speeches.len() && (#[trigger] t.speeches[i]).0 <= WINDOW * a && WINDOW * b
            <= t.speeches[i].1
}

proof fn lemma_run_kept(p: VadParams, probs: Seq<u32>, a: int, b: int, n: int)
    requires
        never_split(p, probs),
        spoken_through(p, probs, a, b),
        WINDOW * (b - a) > p.min_speech(),
        a < n <= probs.len(),
    ensures
        n <= b ==> {
            let t = Track::run(p, probs.take(n));
            t.start is Some && t.start->0 <= WINDOW * a && t.temp_end == 0
        },
        n > b ==> kept(Track::run(p, probs.take(n)), a, b),
    decreases n,
{
    let before = probs.take(n - 1);
    let now = probs.take(n);
    let cur = WINDOW * (n - 1);
    assert(now.drop_last() =~= before);
    assert(now.last() == probs[n - 1]);
    let t = Track::run(p, before);
    segment::lemma_run_sound(p, before);
    assert(!t.overlong(p, cur));
    let voiced = p.voiced(probs[n - 1]);
    let silent = p.silent(probs[n - 1]);
    let after = t.step(p, cur, voiced, silent);
    assert(Track::run(p, now) == after);
    if n - 1 > a {
        lemma_run_kept(p, probs, a, b, n - 1);
    }
    if n > b {
        assert(kept(t, a, b));
        if !(t.start is Some && t.start->0 <= WINDOW * a && (t.temp_end == 0 || t.temp_end >= WINDOW
            * b)) {
            let i = choose|i: int|
                0 <= i < t.speeches.len() && (#[trigger] t.speeches[i]).0 <= WINDOW * a && WINDOW * b
                    <= t.speeches[i].1;
            assert(after.speeches[i] == t.speeches[i]);
        } else if after.speeches.len() > t.speeches.len() {
            assert(after.speeches[t.speeches.len() as int].0 <= WINDOW * a);
        }
    }
}

/// Speech that goes on for more than `min_speech_duration_ms` is found: windows that
/// begin with speech and are not interrupted by silence lie within one stretch,
/// unless a stretch was split.
pub proof fn law_long_speech_found(p: VadParams, probs: Seq<u32>, len: int, a: int, b: int)
    requires
        covers(probs, len),
        never_split(p, probs),
        spoken_through(p, probs, a, b),
        segment::int_min(WINDOW * b, len) - WINDOW * a > p.min_speech(),
    ensures
        exists|i: int|
            0 <= i < segment::raw_speeches(p, probs, len).len() && (
            #[trigger] segment::raw_speeches(p, probs, len)[i]).0 <= WINDOW * a
                && segment::int_min(WINDOW * b, len) <= segment::raw_speeches(p, probs, len)[i].1,
{
    let n = probs.len() as int;
    let raw = segment::raw_speeches(p, probs, len);
    assert(probs.take(n) =~= probs);
    lemma_run_kept(p, probs, a, b, n);
    let t = Track::run(p, probs);
    if t.start is Some && t.start->0 <= WINDOW * a {
        assert(raw[t.speeches.len() as int].1 == len);
    } else {
        let i = choose|i: int|
            0 <= i < t.speeches.len() && (#[trigger] t.speeches[i]).0 <= WINDOW * a && WINDOW * b
                <= t.speeches[i].1;
        assert(raw[i] == t.speeches[i]);
    }
}

} // verus!
