//! What is decided on the way from a media file to its subtitles.

use crate::double;
use crate::media;
use crate::segment;
use crate::srt::SrtEntry;
use crate::text;
use crate::vad::Speech;
use crate::wav;
use vstd::prelude::*;

verus! {

/// Samples per second.
pub const SAMPLE_RATE: u32 = 16_000;

/// The extensions in a list that is separated by commas, without the white space
/// around them; the default ones if the list is empty.
pub open spec fn extensions(list: Seq<char>) -> Seq<Seq<char>> {
    if list.len() == 0 {
        media::default_extension_list()
    } else {
        named(text::pieces(list, text::occurrences(list, ',')))
    }
}

/// Texts without the white space around them, and without those that are blank.
pub open spec fn named(parts: Seq<Seq<char>>) -> Seq<Seq<char>>
    decreases parts.len(),
{
    if parts.len() == 0 {
        Seq::empty()
    } else {
        let before = named(parts.drop_last());
        let last = text::trimmed(parts.last());
        if last.len() == 0 {
            before
        } else {
            before.push(last)
        }
    }
}

/// The extensions in a list that is separated by commas, or the default ones.
pub fn parse_extensions(list: &str) -> (exts: Vec<String>)
    ensures
        text::views(exts@) == extensions(list@),
{
    if list.is_empty() {
        return media::default_extensions();
    }
    let parts = text::split_on(list, ',');
    let ghost all = text::views(parts@);
    let mut exts: Vec<String> = Vec::new();
    let mut i: usize = 0;
    while i < parts.len()
        invariant
            all == text::views(parts@),
            i <= parts@.len(),
            text::views(exts@) =~= named(all.take(i as int)),
        decreases parts.len() - i,
    {
        assert(all.take(i + 1).drop_last() =~= all.take(i as int));
        assert(all.take(i + 1).last() == parts@[i as int]@);
        let part = text::trim(parts[i].as_str());
        if !part.as_str().is_empty() {
            text::push_text(&mut exts, part.as_str());
        }
        i = i + 1;
    }
    assert(all.take(i as int) =~= all);
    exts
}

/// The text of a string, if there is one.
pub open spec fn text_of(s: Option<String>) -> Option<Seq<char>> {
    match s {
        Some(x) => Some(x@),
        None => None,
    }
}

/// The language of a media file: that in its name, if names are to be looked at and
/// there is one, and else the given one.
pub open spec fn language_for(
    from_name: bool,
    language: Option<Seq<char>>,
    path: Seq<u8>,
) -> Option<Seq<char>> {
    if from_name && media::name_language(path) is Some {
        media::name_language(path)
    } else {
        language
    }
}

/// The language of a media file.
pub fn resolve_language(from_name: bool, language: &Option<String>, path: &[u8]) -> (code: Option<
    String,
>)
    ensures
        text_of(code) == language_for(from_name, text_of(*language), path@),
{
    if from_name {
        let code = media::lang_from_name(path);
        if code.is_some() {
            return code;
        }
    }
    match language {
        Some(l) => Some(l.clone()),
        None => None,
    }
}

/// The samples that were decoded, or an error if there are none.
pub fn decoded(bytes: &[u8]) -> (samples: Result<Vec<u32>, &'static str>)
    ensures
        match samples {
            Ok(s) => bytes@.len() >= 2 && wav::are_samples(s@, bytes@),
            Err(message) => bytes@.len() < 2 && message@
                == "ffmpeg produced 0 samples — input may be corrupt/unreadable or empty"@,
        },
{
    let samples = wav::samples_from_s16le(bytes);
    if samples.len() == 0 {
        Err("ffmpeg produced 0 samples — input may be corrupt/unreadable or empty")
    } else {
        Ok(samples)
    }
}

/// A part of a recording that is to be transcribed: the number of its segment, and
/// where it begins and ends.
pub struct Job {
    pub index: usize,
    pub start: usize,
    pub end: usize,
}

/// Jobs as integers.
pub open spec fn job_views(jobs: Seq<Job>) -> Seq<(int, int, int)> {
    jobs.map_values(|j: Job| (j.index as int, j.start as int, j.end as int))
}

/// What is to be transcribed of a recording of `len` samples: each segment up to the
/// end of the recording, but for those of which nothing is left.
pub open spec fn jobs(spans: Seq<(int, int)>, len: int) -> Seq<(int, int, int)>
    decreases spans.len(),
{
    if spans.len() == 0 {
        Seq::empty()
    } else {
        let before = jobs(spans.drop_last(), len);
        let (start, stop) = spans.last();
        let end = segment::int_min(stop, len);
        if end <= start {
            before
        } else {
            before.push((spans.len() - 1, start, end))
        }
    }
}

/// What is to be transcribed of a recording of `len` samples.
pub fn plan(segs: &Vec<Speech>, len: usize) -> (out: Vec<Job>)
    ensures
        job_views(out@) == jobs(segment::spans(segs@), len as int),
{
    let ghost spans = segment::spans(segs@);
    let mut out: Vec<Job> = Vec::new();
    let mut i: usize = 0;
    while i < segs.len()
        invariant
            spans == segment::spans(segs@),
            i <= segs@.len(),
            job_views(out@) =~= jobs(spans.take(i as int), len as int),
        decreases segs.len() - i,
    {
        assert(spans.take(i + 1).drop_last() =~= spans.take(i as int));
        let start: usize = segs[i].start;
        let end: usize = if segs[i].end < len {
            segs[i].end
        } else {
            len
        };
        assert(spans.take(i + 1).last() == (start as int, segs@[i as int].end as int));
        if end > start {
            out.push(Job { index: i, start, end });
        }
        i = i + 1;
    }
    assert(spans.take(i as int) =~= spans);
    out
}

/// Jobs are within the recording and not empty, they are in the order of the
/// segments, and every segment of which something lies within the recording has one.
pub proof fn law_jobs(spans: Seq<(int, int)>, len: int)
    ensures
        ({
            let js = jobs(spans, len);
            &&& forall|k: int|
                0 <= k < js.len() ==> {
                    let (i, start, end) = #[trigger] js[k];
                    0 <= i < spans.len() && start == spans[i].0 && start < end <= len && end
                        == segment::int_min(spans[i].1, len)
                }
            &&& forall|k: int, m: int|
                0 <= k < m < js.len() ==> (#[trigger] js[k]).0 < (#[trigger] js[m]).0
            &&& forall|i: int|
                0 <= i < spans.len() && spans[i].0 < segment::int_min((#[trigger] spans[i]).1, len)
                    ==> exists|k: int| 0 <= k < js.len() && (#[trigger] js[k]).0 == i
        }),
    decreases spans.len(),
{
    if spans.len() > 0 {
        let front = spans.drop_last();
        law_jobs(front, len);
        let before = jobs(front, len);
        let js = jobs(spans, len);
        assert forall|i: int|
            0 <= i < spans.len() && spans[i].0 < segment::int_min(
                (#[trigger] spans[i]).1,
                len,
            ) implies exists|k: int| 0 <= k < js.len() && (#[trigger] js[k]).0 == i by {
            if i < front.len() {
                assert(front[i] == spans[i]);
                let k = choose|k: int| 0 <= k < before.len() && (#[trigger] before[k]).0 == i;
                assert(js[k] == before[k]);
            } else {
                assert(js.last().0 == i);
                assert(js[js.len() - 1].0 == i);
            }
        }
        assert forall|k: int| 0 <= k < js.len() implies ({
            let (i, start, end) = #[trigger] js[k];
            0 <= i < spans.len() && start == spans[i].0 && start < end <= len && end
                == segment::int_min(spans[i].1, len)
        }) by {
            if k < before.len() {
                assert(js[k] == before[k]);
                let i = before[k].0;
                assert(front[i] == spans[i]);
            }
        }
    }
}

/// The recording that is sent for a job.
pub fn job_wav(samples: &[u32], job: &Job) -> (bytes: Vec<u8>)
    requires
        job.start <= job.end <= samples@.len(),
        36 + wav::data_len(job.end - job.start) <= u32::MAX,
    ensures
        bytes@ == wav::wav_file(
            samples@.subrange(job.start as int, job.end as int),
            SAMPLE_RATE as int,
        ),
{
    let part = vstd::slice::slice_subrange(samples, job.start, job.end);
    wav::encode_pcm16_mono(part, SAMPLE_RATE)
}

/// How many requests may be under way at a time, of those asked for: at least one.
pub open spec fn allowed(concurrency: int) -> int {
    if concurrency < 1 {
        1
    } else {
        concurrency
    }
}

/// How many requests may be under way at a time, of those asked for.
pub fn permits(concurrency: usize) -> (n: usize)
    ensures
        n == allowed(concurrency as int),
{
    if concurrency < 1 {
        1
    } else {
        concurrency
    }
}

/// What was said in a segment.
pub struct Transcript {
    pub index: usize,
    pub text: String,
}

/// What a request came to.
pub struct Reply {
    pub index: usize,
    pub result: Result<String, String>,
}

/// Transcripts as numbers and texts.
pub open spec fn transcript_views(ts: Seq<Transcript>) -> Seq<(int, Seq<char>)> {
    ts.map_values(|t: Transcript| (t.index as int, t.text@))
}

/// Where a transcript belongs among transcripts in order: after those whose segments
/// do not come later.
pub open spec fn place(ts: Seq<(int, Seq<char>)>, index: int) -> int
    decreases ts.len(),
{
    if ts.len() == 0 || ts.last().0 <= index {
        ts.len() as int
    } else {
        place(ts.drop_last(), index)
    }
}

/// Transcripts in the order of their segments.
pub open spec fn by_index(ts: Seq<(int, Seq<char>)>) -> Seq<(int, Seq<char>)>
    decreases ts.len(),
{
    if ts.len() == 0 {
        Seq::empty()
    } else {
        let before = by_index(ts.drop_last());
        before.insert(place(before, ts.last().0), ts.last())
    }
}

/// What the replies say, in the order in which they came, if all of them succeeded.
pub open spec fn said(replies: Seq<Reply>) -> Seq<(int, Seq<char>)> {
    replies.map_values(
        |r: Reply|
            (
                r.index as int,
                match r.result {
                    Ok(s) => s@,
                    Err(_) => Seq::empty(),
                },
            ),
    )
}

/// Whether `i` is the first reply that failed.
pub open spec fn first_failure(replies: Seq<Reply>, i: int) -> bool {
    &&& 0 <= i < replies.len()
    &&& replies[i].result is Err
    &&& forall|k: int| 0 <= k < i ==> (#[trigger] replies[k]).result is Ok
}

proof fn lemma_place_in_range(ts: Seq<(int, Seq<char>)>, index: int)
    ensures
        0 <= place(ts, index) <= ts.len(),
        forall|k: int| place(ts, index) <= k < ts.len() ==> (#[trigger] ts[k]).0 > index,
        place(ts, index) > 0 ==> ts[place(ts, index) - 1].0 <= index,
    decreases ts.len(),
{
    if ts.len() > 0 && ts.last().0 > index {
        let front = ts.drop_last();
        lemma_place_in_range(front, index);
        assert forall|k: int| place(ts, index) <= k < ts.len() implies (#[trigger] ts[k]).0
            > index by {
            if k < front.len() {
                assert(front[k] == ts[k]);
            }
        }
    }
}

fn insert_transcript(ts: &mut Vec<Transcript>, t: Transcript)
    ensures
        transcript_views(final(ts)@) == transcript_views(old(ts)@).insert(
            place(transcript_views(old(ts)@), t.index as int),
            (t.index as int, t.text@),
        ),
{
    let ghost views = transcript_views(ts@);
    let mut at: usize = ts.len();
    assert(views.take(at as int) =~= views);
    while at > 0 && ts[at - 1].index > t.index
        invariant
            views == transcript_views(ts@),
            at <= ts@.len(),
            place(views.take(at as int), t.index as int) == place(views, t.index as int),
        decreases at,
    {
        assert(views.take(at as int).last() == views[at - 1]);
        assert(views.take(at as int).drop_last() =~= views.take(at - 1));
        at = at - 1;
    }
    proof {
        if at > 0 {
            assert(views.take(at as int).last() == views[at - 1]);
        }
    }
    ts.insert(at, t);
    assert(transcript_views(ts@) =~= views.insert(at as int, (t.index as int, t.text@)));
}

/// The transcripts of all replies in the order of their segments, or the first
/// failure.
pub fn transcripts(replies: Vec<Reply>) -> (result: Result<Vec<Transcript>, String>)
    ensures
        match result {
            Ok(ts) => {
                &&& forall|k: int| 0 <= k < replies@.len() ==> (#[trigger] replies@[k]).result is Ok
                &&& transcript_views(ts@) == by_index(said(replies@))
            },
            Err(error) => exists|i: int| #[trigger]
                first_failure(replies@, i) && replies@[i].result == Err::<String, String>(error),
        },
{
    let ghost all = said(replies@);
    let mut ts: Vec<Transcript> = Vec::new();
    let mut i: usize = 0;
    while i < replies.len()
        invariant
            all == said(replies@),
            i <= replies@.len(),
            forall|k: int| 0 <= k < i ==> (#[trigger] replies@[k]).result is Ok,
            transcript_views(ts@) =~= by_index(all.take(i as int)),
        decreases replies.len() - i,
    {
        match &replies[i].result {
            Ok(text) => {
                assert(all.take(i + 1).drop_last() =~= all.take(i as int));
                assert(all.take(i + 1).last() == (replies@[i as int].index as int, text@));
                insert_transcript(
                    &mut ts,
                    Transcript { index: replies[i].index, text: text.clone() },
                );
            },
            Err(error) => {
                assert(first_failure(replies@, i as int));
                return Err(error.clone());
            },
        }
        i = i + 1;
    }
    assert(all.take(i as int) =~= all);
    Ok(ts)
}

/// Whether transcripts are in the order of their segments.
pub open spec fn in_index_order(ts: Seq<(int, Seq<char>)>) -> bool {
    forall|i: int, j: int|
        0 <= i < j < ts.len() ==> (#[trigger] ts[i]).0 <= (#[trigger] ts[j]).0
}

/// Putting transcripts in order leaves none out, adds none, and puts them in order.
pub proof fn law_by_index(ts: Seq<(int, Seq<char>)>)
    ensures
        in_index_order(by_index(ts)),
        by_index(ts).to_multiset() == ts.to_multiset(),
    decreases ts.len(),
{
    if ts.len() > 0 {
        let front = ts.drop_last();
        law_by_index(front);
        let before = by_index(front);
        let at = place(before, ts.last().0);
        lemma_place_in_range(before, ts.last().0);
        before.to_multiset_ensures();
        vstd::seq_lib::to_multiset_insert(before, at, ts.last());
        assert(front.push(ts.last()) =~= ts);
        vstd::seq_lib::to_multiset_build(front, ts.last());
    } else {
        assert(by_index(ts) =~= ts);
    }
}

/// Transcripts that are in order stay as they are.
pub proof fn law_by_index_in_order(ts: Seq<(int, Seq<char>)>)
    requires
        in_index_order(ts),
    ensures
        by_index(ts) == ts,
    decreases ts.len(),
{
    if ts.len() > 0 {
        let front = ts.drop_last();
        law_by_index_in_order(front);
        if front.len() > 0 {
            assert(ts[front.len() - 1].0 <= ts[front.len() as int].0);
        }
        assert(by_index(ts) =~= ts);
    } else {
        assert(by_index(ts) =~= ts);
    }
}

/// Whether a subtitle says what was said in a segment, when the segment is.
pub open spec fn subtitles(entry: SrtEntry, segs: Seq<Speech>, t: Transcript) -> bool {
    &&& double::is_time(entry.start, segs[t.index as int].start as nat)
    &&& double::is_time(entry.end, segs[t.index as int].end as nat)
    &&& entry.text@ == t.text@
}

/// The subtitles of what was said.
pub fn srt_entries(segs: &Vec<Speech>, ts: &Vec<Transcript>) -> (entries: Vec<SrtEntry>)
    requires
        forall|i: int| 0 <= i < ts@.len() ==> (#[trigger] ts@[i]).index < segs@.len(),
    ensures
        entries@.len() == ts@.len(),
        forall|i: int| 0 <= i < ts@.len() ==> subtitles(#[trigger] entries@[i], segs@, ts@[i]),
{
    let mut entries: Vec<SrtEntry> = Vec::new();
    let mut i: usize = 0;
    while i < ts.len()
        invariant
            forall|k: int| 0 <= k < ts@.len() ==> (#[trigger] ts@[k]).index < segs@.len(),
            i <= ts@.len(),
            entries@.len() == i,
            forall|k: int| 0 <= k < i ==> subtitles(#[trigger] entries@[k], segs@, ts@[k]),
        decreases ts.len() - i,
    {
        assert(ts@[i as int].index < segs@.len());
        let at: usize = ts[i].index;
        let start = double::seconds(segs[at].start);
        let end = double::seconds(segs[at].end);
        entries.push(SrtEntry { start, end, text: ts[i].text.clone() });
        i = i + 1;
    }
    entries
}

/// How many subtitles have a text.
pub open spec fn spoken(entries: Seq<SrtEntry>) -> nat
    decreases entries.len(),
{
    if entries.len() == 0 {
        0
    } else {
        spoken(entries.drop_last()) + if text::trimmed(entries.last().text@).len() == 0 {
            0nat
        } else {
            1nat
        }
    }
}

/// How many subtitles have a text.
pub fn count_spoken(entries: &Vec<SrtEntry>) -> (n: usize)
    ensures
        n == spoken(entries@),
{
    let mut n: usize = 0;
    let mut i: usize = 0;
    while i < entries.len()
        invariant
            i <= entries@.len(),
            n <= i,
            n == spoken(entries@.take(i as int)),
        decreases entries.len() - i,
    {
        assert(entries@.take(i + 1).drop_last() =~= entries@.take(i as int));
        let said = text::trim(entries[i].text.as_str());
        if !said.as_str().is_empty() {
            n = n + 1;
        }
        i = i + 1;
    }
    assert(entries@.take(i as int) =~= entries@);
    n
}

/// How many samples the segments have together.
pub open spec fn speech_samples(spans: Seq<(int, int)>) -> int
    decreases spans.len(),
{
    if spans.len() == 0 {
        0
    } else {
        speech_samples(spans.drop_last()) + (spans.last().1 - spans.last().0)
    }
}

/// Segments that are in order have together no more samples than lie before the end
/// of the last one.
pub proof fn law_speech_samples(spans: Seq<(int, int)>)
    requires
        segment::in_order(spans),
    ensures
        0 <= speech_samples(spans),
        spans.len() > 0 ==> speech_samples(spans) <= spans.last().1,
    decreases spans.len(),
{
    if spans.len() > 0 {
        let front = spans.drop_last();
        assert(front =~= spans.take(spans.len() - 1));
        lemma_in_order_take(spans, spans.len() - 1);
        law_speech_samples(front);
        assert(spans.last() == spans[spans.len() - 1]);
        if front.len() > 0 {
            assert(front.last() == spans[spans.len() - 2]);
        }
    }
}

proof fn lemma_in_order_take(spans: Seq<(int, int)>, n: int)
    requires
        segment::in_order(spans),
        0 <= n <= spans.len(),
    ensures
        segment::in_order(spans.take(n)),
{
    let front = spans.take(n);
    assert forall|i: int| 0 <= i < front.len() implies 0 <= (#[trigger] front[i]).0
        <= front[i].1 by {
        assert(front[i] == spans[i]);
    }
    assert forall|i: int, j: int| 0 <= i < j < front.len() implies (#[trigger] front[i]).1
        <= (#[trigger] front[j]).0 by {
        assert(front[i] == spans[i] && front[j] == spans[j]);
    }
}

/// How long the segments are together, in seconds (double precision).
pub fn total_speech(segs: &Vec<Speech>) -> (bits: u64)
    requires
        segment::in_order(segment::spans(segs@)),
    ensures
        double::is_time(bits, speech_samples(segment::spans(segs@)) as nat),
{
    let ghost spans = segment::spans(segs@);
    let mut sum: usize = 0;
    let mut i: usize = 0;
    while i < segs.len()
        invariant
            spans == segment::spans(segs@),
            segment::in_order(spans),
            i <= segs@.len(),
            sum == speech_samples(spans.take(i as int)),
        decreases segs.len() - i,
    {
        proof {
            assert(spans.take(i + 1).drop_last() =~= spans.take(i as int));
            lemma_in_order_take(spans, i + 1);
            law_speech_samples(spans.take(i + 1));
            assert(spans.take(i + 1).last() == spans[i as int]);
        }
        sum = sum + (segs[i].end - segs[i].start);
        i = i + 1;
    }
    assert(spans.take(i as int) =~= spans);
    double::seconds(sum)
}

} // verus!
