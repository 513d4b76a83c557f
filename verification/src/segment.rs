//! The state machine that turns window probabilities into stretches of speech.

use crate::ieee;
use crate::vad::{neg_threshold, Speech, VadParams, WINDOW};
use vstd::prelude::*;

verus! {

/// What is known of a recording after some of its windows.  Positions are in
/// samples; zero stands for "none" where a field says so.
#[verifier::ext_equal]
pub struct Track {
    /// Where the current stretch of speech began.
    pub start: Option<int>,
    /// Where the current pause began; zero outside a pause.
    pub temp_end: int,
    /// The latest pause long enough for a split; zero if there was none.
    pub prev_end: int,
    /// Where speech resumed after `prev_end`.
    pub next_start: int,
    /// The pauses inside the current stretch that are long enough for a split:
    /// where each began and how long it was.
    pub pauses: Seq<(int, int)>,
    /// The stretches found so far, as start and end.
    pub speeches: Seq<(int, int)>,
}

/// The longest pause, the latest one where several are equally long.
pub open spec fn longest_pause(pauses: Seq<(int, int)>) -> (int, int)
    decreases pauses.len(),
{
    if pauses.len() <= 1 {
        pauses[0]
    } else {
        let best = longest_pause(pauses.drop_last());
        if pauses.last().1 >= best.1 {
            pauses.last()
        } else {
            best
        }
    }
}

impl Track {
    pub open spec fn initial() -> Track {
        Track {
            start: None,
            temp_end: 0,
            prev_end: 0,
            next_start: 0,
            pauses: Seq::empty(),
            speeches: Seq::empty(),
        }
    }

    /// Speech is heard again during a pause: the pause is over, and kept if it
    /// is long enough for a split.
    pub open spec fn resume(self, p: VadParams, cur: int) -> Track {
        Track {
            pauses: if cur - self.temp_end > p.min_split_silence() {
                self.pauses.push((self.temp_end, cur - self.temp_end))
            } else {
                self.pauses
            },
            temp_end: 0,
            next_start: if self.next_start < self.prev_end {
                cur
            } else {
                self.next_start
            },
            ..self
        }
    }

    /// Everything but the stretches found is forgotten, and the next stretch
    /// begins at `start`.
    pub open spec fn restart(self, start: Option<int>) -> Track {
        Track { start, speeches: self.speeches, ..Track::initial() }
    }

    /// One more stretch is found, from the current start to `end`.
    pub open spec fn emit(self, end: int) -> Track {
        Track { speeches: self.speeches.push((self.start->0, end)), ..self }
    }

    /// The current stretch has become too long: it ends at its longest pause
    /// (where `use_max_poss_sil_at_max_speech` asks for that and there is one),
    /// else at its latest pause, else here.  What follows the pause is the next
    /// stretch.
    pub open spec fn split(self, p: VadParams, cur: int) -> Track {
        if p.use_max_poss_sil_at_max_speech && self.pauses.len() > 0 {
            let (end, len) = longest_pause(self.pauses);
            self.emit(end).restart(
                if len < cur {
                    Some(end + len)
                } else {
                    None
                },
            )
        } else if self.prev_end != 0 {
            self.emit(self.prev_end).restart(
                if self.next_start < self.prev_end {
                    None
                } else {
                    Some(self.next_start)
                },
            )
        } else {
            self.emit(cur).restart(None)
        }
    }

    /// A silent window within a stretch of speech: the pause goes on, and ends
    /// the stretch once it is long enough.  A stretch that is too short is
    /// dropped.
    pub open spec fn hush(self, p: VadParams, cur: int) -> Track {
        let temp_end = if self.temp_end == 0 {
            cur
        } else {
            self.temp_end
        };
        let quiet = cur - temp_end;
        if quiet < p.min_silence() {
            Track {
                temp_end,
                prev_end: if !p.use_max_poss_sil_at_max_speech && quiet > p.min_split_silence() {
                    temp_end
                } else {
                    self.prev_end
                },
                ..self
            }
        } else if temp_end - self.start->0 > p.min_speech() {
            self.emit(temp_end).restart(None)
        } else {
            self.restart(None)
        }
    }

    /// Whether the current stretch, seen from the window at `cur`, is too long.
    pub open spec fn overlong(self, p: VadParams, cur: int) -> bool {
        self.start is Some && p.too_long(cur - self.start->0)
    }

    /// One window, which begins at sample `cur`.
    pub open spec fn step(self, p: VadParams, cur: int, voiced: bool, silent: bool) -> Track {
        let heard = if voiced && self.temp_end != 0 {
            self.resume(p, cur)
        } else {
            self
        };
        if voiced && self.start is None {
            Track { start: Some(cur), ..heard }
        } else {
            let cut = if heard.overlong(p, cur) {
                heard.split(p, cur)
            } else {
                heard
            };
            if silent && cut.start is Some {
                cut.hush(p, cur)
            } else {
                cut
            }
        }
    }

    /// All windows of a recording, given their probabilities.
    pub open spec fn run(p: VadParams, probs: Seq<u32>) -> Track
        decreases probs.len(),
    {
        if probs.len() == 0 {
            Track::initial()
        } else {
            Track::run(p, probs.drop_last()).step(
                p,
                WINDOW * (probs.len() - 1),
                p.voiced(probs.last()),
                p.silent(probs.last()),
            )
        }
    }

    /// The stretches of a recording of `len` samples, once its windows are done:
    /// one that is still open ends with the recording.
    pub open spec fn finish(self, p: VadParams, len: int) -> Seq<(int, int)> {
        if self.start is Some && len - self.start->0 > p.min_speech() {
            self.speeches.push((self.start->0, len))
        } else {
            self.speeches
        }
    }
}

/// The stretches of speech in a recording of `len` samples, without margins.
pub open spec fn raw_speeches(p: VadParams, probs: Seq<u32>, len: int) -> Seq<(int, int)> {
    Track::run(p, probs).finish(p, len)
}

/// The silence between stretch `i` and the next one.
pub open spec fn gap(raw: Seq<(int, int)>, i: int) -> int {
    raw[i + 1].0 - raw[i].1
}

/// By how much the silence after stretch `i` is taken up on each side: by the
/// margin, or by half of a silence that two margins would overfill.
pub open spec fn margin(p: VadParams, raw: Seq<(int, int)>, i: int) -> int {
    if gap(raw, i) < 2 * p.pad() {
        gap(raw, i) / 2
    } else {
        p.pad()
    }
}

pub open spec fn int_max(a: int, b: int) -> int {
    if a >= b {
        a
    } else {
        b
    }
}

pub open spec fn int_min(a: int, b: int) -> int {
    if a <= b {
        a
    } else {
        b
    }
}

/// Stretch `i` with its margins, within a recording of `len` samples.
pub open spec fn padded(p: VadParams, raw: Seq<(int, int)>, len: int, i: int) -> (int, int) {
    (
        int_max(
            raw[i].0 - if i == 0 {
                p.pad()
            } else {
                margin(p, raw, i - 1)
            },
            0,
        ),
        int_min(
            raw[i].1 + if i == raw.len() - 1 {
                p.pad()
            } else {
                margin(p, raw, i)
            },
            len,
        ),
    )
}

/// The speech segments of a recording of `len` samples, given the probability of
/// each of its windows.
pub open spec fn segments(p: VadParams, probs: Seq<u32>, len: int) -> Seq<(int, int)> {
    let raw = raw_speeches(p, probs, len);
    Seq::new(raw.len(), |i: int| padded(p, raw, len, i))
}

impl Track {
    /// What holds between windows, the next of which begins at sample `cur`:
    /// every position lies behind `cur` and within the current stretch, pauses
    /// are at least one window long, and the stretches found are in order and
    /// end no later than the current one begins.
    pub open spec fn sound(self, cur: int) -> bool {
        &&& self.start is Some ==> 0 <= self.start->0 <= cur - WINDOW
        &&& self.temp_end != 0 ==> self.start is Some && self.start->0 <= self.temp_end <= cur
            - WINDOW
        &&& self.prev_end != 0 ==> self.start is Some && self.start->0 <= self.prev_end <= cur
            - WINDOW
        &&& self.next_start != 0 ==> self.start is Some && self.start->0 + WINDOW
            <= self.next_start <= cur - WINDOW
        &&& self.pauses.len() > 0 ==> self.start is Some
        &&& forall|i: int|
            0 <= i < self.pauses.len() ==> {
                &&& self.start->0 <= (#[trigger] self.pauses[i]).0
                &&& self.pauses[i].1 >= WINDOW
                &&& self.pauses[i].0 + self.pauses[i].1 <= cur - WINDOW
            }
        &&& in_order(self.speeches)
        &&& self.speeches.len() > 0 ==> self.speeches.last().1 <= if self.start is Some {
            self.start->0
        } else {
            cur - WINDOW
        }
        &&& cur >= 0
    }
}

/// Stretches that do not end before they begin, each one beginning no earlier
/// than those before it end.
pub open spec fn in_order(speeches: Seq<(int, int)>) -> bool {
    &&& forall|i: int|
        0 <= i < speeches.len() ==> 0 <= (#[trigger] speeches[i]).0 <= speeches[i].1
    &&& forall|i: int, j: int|
        0 <= i < j < speeches.len() ==> (#[trigger] speeches[i]).1 <= (#[trigger] speeches[j]).0
}

/// The longest pause is one of the pauses, none is longer, and none after it is as
/// long.
pub proof fn lemma_longest_pause(pauses: Seq<(int, int)>) -> (k: int)
    requires
        pauses.len() > 0,
    ensures
        0 <= k < pauses.len(),
        pauses[k] == longest_pause(pauses),
        forall|i: int| 0 <= i < pauses.len() ==> (#[trigger] pauses[i]).1 <= pauses[k].1,
        forall|i: int| k < i < pauses.len() ==> (#[trigger] pauses[i]).1 < pauses[k].1,
    decreases pauses.len(),
{
    if pauses.len() == 1 {
        0
    } else {
        let front = pauses.drop_last();
        let j = lemma_longest_pause(front);
        assert forall|i: int| 0 <= i < front.len() implies (#[trigger] pauses[i]).1
            <= front[j].1 by {
            assert(front[i] == pauses[i]);
        }
        assert forall|i: int| j < i < front.len() implies (#[trigger] pauses[i]).1 < front[j].1 by {
            assert(front[i] == pauses[i]);
        }
        if pauses.last().1 >= longest_pause(front).1 {
            pauses.len() - 1
        } else {
            j
        }
    }
}

proof fn lemma_emit_sound(t: Track, cur: int, end: int, start: Option<int>)
    requires
        t.sound(cur),
        t.start is Some,
        t.start->0 <= end <= cur - WINDOW,
        start is Some ==> end <= start->0 <= cur - WINDOW,
    ensures
        t.emit(end).restart(start).sound(cur),
{
    let e = t.emit(end);
    assert(in_order(e.speeches)) by {
        assert forall|i: int, j: int| 0 <= i < j < e.speeches.len() implies (
        #[trigger] e.speeches[i]).1 <= (#[trigger] e.speeches[j]).0 by {
            if j == t.speeches.len() && i < j - 1 {
                assert(t.speeches[i].1 <= t.speeches[j - 1].0);
            }
        }
    }
}

/// A split keeps `sound`.
pub proof fn lemma_split_sound(t: Track, p: VadParams, cur: int)
    requires
        t.sound(cur + WINDOW),
        t.start is Some,
    ensures
        t.split(p, cur).sound(cur + WINDOW),
{
    let after = cur + WINDOW;
    if p.use_max_poss_sil_at_max_speech && t.pauses.len() > 0 {
        let k = lemma_longest_pause(t.pauses);
        let (end, len) = longest_pause(t.pauses);
        lemma_emit_sound(
            t,
            after,
            end,
            if len < cur {
                Some(end + len)
            } else {
                None
            },
        );
    } else if t.prev_end != 0 {
        lemma_emit_sound(
            t,
            after,
            t.prev_end,
            if t.next_start < t.prev_end {
                None
            } else {
                Some(t.next_start)
            },
        );
    } else {
        lemma_emit_sound(t, after, cur, None);
    }
}

/// Each window keeps `sound`.
pub proof fn lemma_step_sound(t: Track, p: VadParams, cur: int, voiced: bool, silent: bool)
    requires
        t.sound(cur),
    ensures
        t.step(p, cur, voiced, silent).sound(cur + WINDOW),
{
    let after = cur + WINDOW;
    let heard = if voiced && t.temp_end != 0 {
        t.resume(p, cur)
    } else {
        t
    };
    assert(heard.sound(after));
    if voiced && t.start is None {
    } else {
        let cut = if heard.overlong(p, cur) {
            heard.split(p, cur)
        } else {
            heard
        };
        if heard.overlong(p, cur) {
            lemma_split_sound(heard, p, cur);
        }
        if silent && cut.start is Some {
            let temp_end = if cut.temp_end == 0 {
                cur
            } else {
                cut.temp_end
            };
            lemma_emit_sound(cut, after, temp_end, None);
        }
    }
}

/// `sound` holds after any number of windows.
pub proof fn lemma_run_sound(p: VadParams, probs: Seq<u32>)
    ensures
        Track::run(p, probs).sound(WINDOW * probs.len()),
    decreases probs.len(),
{
    if probs.len() > 0 {
        lemma_run_sound(p, probs.drop_last());
        lemma_step_sound(
            Track::run(p, probs.drop_last()),
            p,
            WINDOW * (probs.len() - 1),
            p.voiced(probs.last()),
            p.silent(probs.last()),
        );
    }
}

/// Pairs of positions, as integers.
pub open spec fn pairs(v: Seq<(usize, usize)>) -> Seq<(int, int)> {
    v.map_values(|x: (usize, usize)| (x.0 as int, x.1 as int))
}

/// Segments, as pairs of integers.
pub open spec fn spans(v: Seq<Speech>) -> Seq<(int, int)> {
    v.map_values(|x: Speech| (x.start as int, x.end as int))
}

/// Finds stretches of speech, window by window.
pub struct Segmenter {
    params: VadParams,
    /// The pattern of `neg_threshold_value`.
    neg_threshold: u32,
    /// The whole samples within `max_speech_duration_s`; none for a NaN.
    longest: Option<u128>,
    start: Option<usize>,
    temp_end: usize,
    prev_end: usize,
    next_start: usize,
    pauses: Vec<(usize, usize)>,
    speeches: Vec<Speech>,
}

impl Segmenter {
    pub closed spec fn params(&self) -> VadParams {
        self.params
    }

    pub closed spec fn track(&self) -> Track {
        Track {
            start: match self.start {
                Some(s) => Some(s as int),
                None => None,
            },
            temp_end: self.temp_end as int,
            prev_end: self.prev_end as int,
            next_start: self.next_start as int,
            pauses: pairs(self.pauses@),
            speeches: spans(self.speeches@),
        }
    }

    /// The precomputed fields agree with the parameters.
    pub closed spec fn ready(&self) -> bool {
        &&& !ieee::single_is_nan(self.neg_threshold)
        &&& ieee::single_value(self.neg_threshold) == crate::vad::neg_threshold_value(
            self.params.threshold,
        )
        &&& match self.longest {
            Some(n) => !ieee::single_is_nan(self.params.max_speech_duration_s) && n
                == ieee::samples_within(self.params.max_speech_duration_s),
            None => ieee::single_is_nan(self.params.max_speech_duration_s),
        }
    }

    spec fn same_setup(&self, other: &Segmenter) -> bool {
        &&& self.params == other.params
        &&& self.neg_threshold == other.neg_threshold
        &&& self.longest == other.longest
    }

    /// Before the first window.
    pub fn new(p: &VadParams) -> (s: Segmenter)
        ensures
            s.ready(),
            s.params() == *p,
            s.track() == Track::initial(),
    {
        let longest: Option<u128> = if ieee::is_single_nan(p.max_speech_duration_s) {
            None
        } else {
            Some(ieee::whole_samples(p.max_speech_duration_s))
        };
        let s = Segmenter {
            params: *p,
            neg_threshold: neg_threshold(p.threshold),
            longest,
            start: None,
            temp_end: 0,
            prev_end: 0,
            next_start: 0,
            pauses: Vec::new(),
            speeches: Vec::new(),
        };
        assert(s.track() =~= Track::initial());
        s
    }

    fn too_long(&self, len: usize) -> (r: bool)
        requires
            self.ready(),
        ensures
            r == self.params().too_long(len as int),
    {
        match self.longest {
            None => false,
            Some(n) => {
                let total: u128 = len as u128 + WINDOW as u128 + 32
                    * self.params.speech_pad_ms as u128;
                proof {
                    ieee::lemma_lasts_longer(total as int, self.params.max_speech_duration_s);
                }
                total > n
            },
        }
    }

    fn resume(&mut self, cur: usize)
        requires
            old(self).track().temp_end <= cur,
        ensures
            final(self).same_setup(old(self)),
            final(self).track() == old(self).track().resume(old(self).params(), cur as int),
    {
        let quiet: usize = cur - self.temp_end;
        if quiet as u64 > 16 * self.params.min_silence_at_max_speech as u64 {
            self.pauses.push((self.temp_end, quiet));
        }
        self.temp_end = 0;
        if self.next_start < self.prev_end {
            self.next_start = cur;
        }
        assert(self.track() =~= old(self).track().resume(old(self).params(), cur as int));
    }

    fn restart(&mut self, start: Option<usize>)
        ensures
            final(self).same_setup(old(self)),
            final(self).track() == old(self).track().restart(
                match start {
                    Some(s) => Some(s as int),
                    None => None,
                },
            ),
    {
        self.start = start;
        self.temp_end = 0;
        self.prev_end = 0;
        self.next_start = 0;
        self.pauses.clear();
        assert(pairs(self.pauses@) =~= Seq::<(int, int)>::empty());
    }

    fn emit(&mut self, start: usize, end: usize)
        requires
            old(self).track().start == Some(start as int),
        ensures
            final(self).same_setup(old(self)),
            final(self).track() == old(self).track().emit(end as int),
    {
        self.speeches.push(Speech { start, end });
        assert(self.track() =~= old(self).track().emit(end as int));
    }

    fn longest_pause(&self) -> (best: (usize, usize))
        requires
            self.track().pauses.len() > 0,
        ensures
            (best.0 as int, best.1 as int) == longest_pause(self.track().pauses),
    {
        let ghost all = pairs(self.pauses@);
        let mut best: (usize, usize) = self.pauses[0];
        let mut i: usize = 1;
        assert(all.take(1)[0] == all[0]);
        while i < self.pauses.len()
            invariant
                1 <= i <= self.pauses.len(),
                all == pairs(self.pauses@),
                (best.0 as int, best.1 as int) == longest_pause(all.take(i as int)),
            decreases self.pauses.len() - i,
        {
            assert(all.take(i + 1).drop_last() =~= all.take(i as int));
            let pause = self.pauses[i];
            if pause.1 >= best.1 {
                best = pause;
            }
            i = i + 1;
        }
        assert(all.take(i as int) =~= all);
        best
    }

    fn split(&mut self, start: usize, cur: usize)
        requires
            old(self).track().start == Some(start as int),
            old(self).track().sound(cur + WINDOW),
        ensures
            final(self).same_setup(old(self)),
            final(self).track() == old(self).track().split(old(self).params(), cur as int),
    {
        if self.params.use_max_poss_sil_at_max_speech && self.pauses.len() > 0 {
            let (end, len) = self.longest_pause();
            proof {
                let k = lemma_longest_pause(self.track().pauses);
            }
            self.emit(start, end);
            if len < cur {
                self.restart(Some(end + len));
            } else {
                self.restart(None);
            }
        } else if self.prev_end != 0 {
            let end: usize = self.prev_end;
            self.emit(start, end);
            if self.next_start < end {
                self.restart(None);
            } else {
                self.restart(Some(self.next_start));
            }
        } else {
            self.emit(start, cur);
            self.restart(None);
        }
    }

    fn hush(&mut self, start: usize, cur: usize)
        requires
            old(self).track().start == Some(start as int),
            old(self).track().sound(cur + WINDOW),
        ensures
            final(self).same_setup(old(self)),
            final(self).track() == old(self).track().hush(old(self).params(), cur as int),
    {
        if self.temp_end == 0 {
            self.temp_end = cur;
        }
        let end: usize = self.temp_end;
        let quiet: usize = cur - end;
        if !self.params.use_max_poss_sil_at_max_speech && quiet as u64 > 16
            * self.params.min_silence_at_max_speech as u64 {
            self.prev_end = end;
        }
        if (quiet as u64) < 16 * self.params.min_silence_duration_ms as u64 {
            return;
        }
        if (end - start) as u64 > 16 * self.params.min_speech_duration_ms as u64 {
            self.emit(start, end);
        }
        self.restart(None);
    }

    /// Takes the window that begins at sample `cur` and has probability `prob`.
    pub fn step(&mut self, cur: usize, prob: u32)
        requires
            old(self).ready(),
            old(self).track().sound(cur as int),
        ensures
            final(self).ready(),
            final(self).params() == old(self).params(),
            final(self).track() == old(self).track().step(
                old(self).params(),
                cur as int,
                old(self).params().voiced(prob),
                old(self).params().silent(prob),
            ),
            final(self).track().sound(cur + WINDOW),
    {
        let ghost before = self.track();
        let ghost p = self.params();
        let voiced: bool = ieee::at_least(prob, self.params.threshold);
        let silent: bool = ieee::below(prob, self.neg_threshold);
        proof {
            lemma_step_sound(before, p, cur as int, voiced, silent);
        }
        let triggered: bool = self.start.is_some();
        if voiced && self.temp_end != 0 {
            self.resume(cur);
        }
        if voiced && !triggered {
            self.start = Some(cur);
            return;
        }
        if let Some(start) = self.start {
            if self.too_long(cur - start) {
                proof {
                    lemma_split_sound(self.track(), p, cur as int);
                }
                self.split(start, cur);
            }
        }
        if silent {
            if let Some(start) = self.start {
                self.hush(start, cur);
            }
        }
    }

    /// Ends the recording after `len` samples and gives the stretches found.
    pub fn finish(self, len: usize) -> (speeches: Vec<Speech>)
        requires
            self.track().start is Some ==> self.track().start->0 <= len,
        ensures
            spans(speeches@) == self.track().finish(self.params(), len as int),
    {
        let ghost track = self.track();
        let mut speeches = self.speeches;
        if let Some(start) = self.start {
            if (len - start) as u64 > 16 * self.params.min_speech_duration_ms as u64 {
                speeches.push(Speech { start, end: len });
            }
        }
        assert(spans(speeches@) =~= track.finish(self.params(), len as int));
        speeches
    }
}

/// Every stretch of a finished recording lies within it, and they are in order.
pub proof fn lemma_raw_in_order(p: VadParams, probs: Seq<u32>, len: int)
    requires
        WINDOW * (probs.len() - 1) < len <= WINDOW * probs.len(),
    ensures
        in_order(raw_speeches(p, probs, len)),
        raw_speeches(p, probs, len).len() > 0 ==> raw_speeches(p, probs, len).last().1 <= len,
{
    lemma_run_sound(p, probs);
    let t = Track::run(p, probs);
    let raw = t.finish(p, len);
    assert forall|i: int, j: int| 0 <= i < j < raw.len() implies (#[trigger] raw[i]).1 <= (
    #[trigger] raw[j]).0 by {
        if j == t.speeches.len() && i < j - 1 {
            assert(t.speeches[i].1 <= t.speeches[j - 1].0);
        }
    }
}

/// Adds the margins to the stretches of a recording of `len` samples.
pub fn pad(p: &VadParams, raw: &Vec<Speech>, len: usize) -> (padded_speeches: Vec<Speech>)
    requires
        in_order(spans(raw@)),
        raw@.len() > 0 ==> raw@.last().end <= len,
    ensures
        spans(padded_speeches@) == Seq::new(
            raw@.len(),
            |i: int| padded(*p, spans(raw@), len as int, i),
        ),
{
    let ghost all = spans(raw@);
    let pad: u64 = 16 * p.speech_pad_ms as u64;
    let mut out: Vec<Speech> = Vec::new();
    let mut left: u64 = pad;
    let mut i: usize = 0;
    while i < raw.len()
        invariant
            all == spans(raw@),
            in_order(all),
            raw@.len() > 0 ==> raw@.last().end <= len,
            pad == p.pad(),
            i <= raw@.len(),
            out@.len() == i,
            i < raw@.len() ==> left == (if i == 0 {
                p.pad()
            } else {
                margin(*p, all, i - 1)
            }),
            forall|j: int|
                0 <= j < i ==> ((#[trigger] out@[j]).start as int, out@[j].end as int) == padded(
                    *p,
                    all,
                    len as int,
                    j,
                ),
        decreases raw.len() - i,
    {
        let s = raw[i];
        assert(all[i as int] == (s.start as int, s.end as int));
        let mut right: u64 = pad;
        if i < raw.len() - 1 {
            assert(all[i + 1] == (raw@[i + 1].start as int, raw@[i + 1].end as int));
            let silence: u64 = (raw[i + 1].start - s.end) as u64;
            if silence < 2 * pad {
                right = silence / 2;
            }
        }
        assert(s.end <= len) by {
            if i < raw.len() - 1 {
                assert(all[raw@.len() - 1] == (
                    raw@.last().start as int,
                    raw@.last().end as int,
                ));
                assert(all[i as int].1 <= all[raw@.len() - 1].0);
            }
        }
        let start: usize = if s.start as u64 > left {
            s.start - left as usize
        } else {
            0
        };
        let end: usize = if (len - s.end) as u64 > right {
            s.end + right as usize
        } else {
            len
        };
        out.push(Speech { start, end });
        left = right;
        i = i + 1;
    }
    assert(spans(out@) =~= Seq::new(raw@.len(), |i: int| padded(*p, all, len as int, i)));
    out
}

} // verus!
