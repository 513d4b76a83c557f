//! What holds on the way from every file to its subtitles.

use crate::media;
use crate::number_laws;
use crate::pipeline;
use crate::pipeline::{Reply, Transcript};
use crate::run;
use crate::run::{FileEnd, FileEvent, FileStep, RunOptions};
use crate::segment;
use crate::srt;
use crate::srt::SrtEntry;
use crate::text;
use crate::text_laws;
use crate::vad::Speech;
use vstd::prelude::*;

verus! {

/// Extensions in a list lose the white space around them, and blank ones are left out;
/// their order stays.
pub proof fn law_named(parts: Seq<Seq<char>>)
    ensures
        pipeline::named(parts) == parts.map_values(|p: Seq<char>| text::trimmed(p)).filter(
            |p: Seq<char>| p.len() > 0,
        ),
    decreases parts.len(),
{
    reveal(Seq::filter);
    let trims = |p: Seq<char>| text::trimmed(p);
    let full = |p: Seq<char>| p.len() > 0;
    let all = parts.map_values(trims);
    if parts.len() == 0 {
        assert(all =~= Seq::empty());
        assert(pipeline::named(parts) =~= all.filter(full));
    } else {
        law_named(parts.drop_last());
        assert(all.drop_last() =~= parts.drop_last().map_values(trims));
        assert(all.last() == text::trimmed(parts.last()));
    }
}

/// A comma parts a list of extensions.
pub proof fn law_extension_list(a: Seq<char>, b: Seq<char>)
    requires
        a.len() > 0,
        b.len() > 0,
    ensures
        pipeline::extensions(a.push(',') + b) == pipeline::extensions(a) + pipeline::extensions(b),
{
    let list = a.push(',') + b;
    let x = text::pieces(a, text::occurrences(a, ','));
    let y = text::pieces(b, text::occurrences(b, ','));
    assert(text::occurrences(list, ',') =~= text::occurrences(a, ',').push(true)
        + text::occurrences(b, ','));
    text_laws::law_pieces_parted(
        a,
        ',',
        b,
        text::occurrences(a, ','),
        text::occurrences(b, ','),
    );
    lemma_named_concat(x, y);
}

proof fn lemma_named_concat(a: Seq<Seq<char>>, b: Seq<Seq<char>>)
    ensures
        pipeline::named(a + b) == pipeline::named(a) + pipeline::named(b),
    decreases b.len(),
{
    if b.len() == 0 {
        assert(a + b =~= a);
        assert(pipeline::named(a) + pipeline::named(b) =~= pipeline::named(a));
    } else {
        lemma_named_concat(a, b.drop_last());
        assert((a + b).drop_last() =~= a + b.drop_last());
        assert(pipeline::named(a + b) =~= pipeline::named(a) + pipeline::named(b));
    }
}

/// A list without a comma is one extension, or none if it is blank; with no list there are
/// the default ones.
pub proof fn law_one_extension(list: Seq<char>)
    requires
        forall|i: int| 0 <= i < list.len() ==> #[trigger] list[i] != ',',
    ensures
        list.len() == 0 ==> pipeline::extensions(list) == media::default_extension_list(),
        list.len() > 0 && text::trimmed(list).len() == 0 ==> pipeline::extensions(list).len() == 0,
        text::trimmed(list).len() > 0 ==> pipeline::extensions(list) == seq![text::trimmed(list)],
{
    if list.len() > 0 {
        text_laws::law_pieces_whole(list, text::occurrences(list, ','));
        let parts = seq![list];
        assert(parts.drop_last() =~= Seq::empty());
        assert(pipeline::named(parts.drop_last()) =~= Seq::empty());
        assert(pipeline::named(parts) =~= if text::trimmed(list).len() > 0 {
            seq![text::trimmed(list)]
        } else {
            Seq::empty()
        });
    }
}

/// The language in a name counts only if it is asked for, and then before the given one,
/// which counts wherever the name has none.
pub proof fn law_language_for(from_name: bool, language: Option<Seq<char>>, path: Seq<u8>)
    ensures
        !from_name ==> pipeline::language_for(from_name, language, path) == language,
        media::name_language(path) is None ==> pipeline::language_for(from_name, language, path)
            == language,
        from_name && media::name_language(path) is Some ==> pipeline::language_for(
            from_name,
            language,
            path,
        ) == media::name_language(path),
{
}

/// A job is what a segment has before the end of the recording.
pub proof fn law_job_of_segment(before: Seq<(int, int)>, start: int, end: int, len: int)
    ensures
        ({
            let all = pipeline::jobs(before.push((start, end)), len);
            let old = pipeline::jobs(before, len);
            &&& start < end <= len ==> all == old.push((before.len() as int, start, end))
            &&& start < len < end ==> all == old.push((before.len() as int, start, len))
            &&& end <= start || len <= start ==> all == old
        }),
        pipeline::jobs(Seq::empty(), len).len() == 0,
{
    assert(before.push((start, end)).drop_last() =~= before);
}

/// What a reply says counts for its own segment.
pub proof fn law_said(replies: Seq<Reply>, i: int)
    requires
        0 <= i < replies.len(),
        replies[i].result is Ok,
    ensures
        pipeline::said(replies).len() == replies.len(),
        pipeline::said(replies)[i] == (replies[i].index as int, replies[i].result->Ok_0@),
{
}

/// The failure that is reported is one of a reply, the only one that no other comes before.
pub proof fn law_first_failure(replies: Seq<Reply>, i: int, k: int)
    requires
        pipeline::first_failure(replies, i),
        0 <= k < replies.len(),
        replies[k].result is Err,
    ensures
        0 <= i <= k,
        replies[i].result is Err,
{
}

/// Speech is added up segment by segment.
pub proof fn law_speech_sum(a: Seq<(int, int)>, b: Seq<(int, int)>, start: int, end: int)
    ensures
        pipeline::speech_samples(a + b) == pipeline::speech_samples(a) + pipeline::speech_samples(
            b,
        ),
        pipeline::speech_samples(seq![(start, end)]) == end - start,
    decreases b.len(),
{
    let one = seq![(start, end)];
    assert(one.drop_last() =~= Seq::empty());
    assert(pipeline::speech_samples(one.drop_last()) == 0);
    if b.len() == 0 {
        assert(a + b =~= a);
    } else {
        law_speech_sum(a, b.drop_last(), start, end);
        assert((a + b).drop_last() =~= a + b.drop_last());
    }
}

/// The subtitles that are counted are those with a text besides white space.
pub proof fn law_spoken(entries: Seq<SrtEntry>)
    ensures
        pipeline::spoken(entries) == entries.filter(
            |e: SrtEntry| text::trimmed(e.text@).len() > 0,
        ).len(),
    decreases entries.len(),
{
    reveal(Seq::filter);
    if entries.len() > 0 {
        law_spoken(entries.drop_last());
    }
}

/// A subtitle has the text of its transcript, and its times are within half a millisecond
/// of the ends of its segment.
pub proof fn law_subtitle(entry: SrtEntry, segs: Seq<Speech>, t: Transcript)
    requires
        pipeline::subtitles(entry, segs, t),
        t.index < segs.len(),
        segs[t.index as int].start <= 0x4_0000_0000_0000,
        segs[t.index as int].end <= 0x4_0000_0000_0000,
    ensures
        entry.text@ == t.text@,
        number_laws::distance(16 * srt::millis(entry.start), segs[t.index as int].start as int)
            <= 8,
        number_laws::distance(16 * srt::millis(entry.end), segs[t.index as int].end as int) <= 8,
        segs[t.index as int].start <= segs[t.index as int].end ==> srt::millis(entry.start)
            <= srt::millis(entry.end),
{
    let s = segs[t.index as int];
    srt::law_time_of_sample(entry.start, s.start as nat);
    srt::law_time_of_sample(entry.end, s.end as nat);
    if s.start <= s.end {
        srt::law_times_in_order(entry.start, entry.end, s.start as nat, s.end as nat);
    }
}

/// What leads to each step with a file.
pub proof fn law_file_steps(step: FileStep, event: FileEvent, o: RunOptions)
    ensures
        ({
            let next = run::following(step, event, o);
            &&& next is Prepare && !(step is Prepare) ==> step is Look && (event
                == FileEvent::Exists(false) || event == FileEvent::Exists(true) && o.force)
            &&& next is Plan && !(step is Plan) ==> step is Prepare && o.dry_run && event is Prepared
            &&& next is Transcribe && !(step is Transcribe) ==> step is Prepare && !o.dry_run && (
            event matches FileEvent::Prepared(Some(n)) && n > 0)
            &&& next is Write && !(step is Write) ==> step is Transcribe && event
                == FileEvent::Transcribed(true)
            &&& next is Look ==> step is Look
        }),
{
}

/// Where each event with a file leads.
pub proof fn law_file_events(o: RunOptions, n: usize)
    ensures
        run::following(FileStep::Look, FileEvent::Exists(false), o) == FileStep::Prepare,
        run::following(FileStep::Look, FileEvent::Exists(true), o) == if o.force {
            FileStep::Prepare
        } else {
            FileStep::Done(FileEnd::Skipped)
        },
        run::following(FileStep::Prepare, FileEvent::Prepared(None), o) == FileStep::Done(
            FileEnd::Failed,
        ),
        o.dry_run ==> run::following(FileStep::Prepare, FileEvent::Prepared(Some(n)), o)
            == FileStep::Plan,
        !o.dry_run && n > 0 ==> run::following(FileStep::Prepare, FileEvent::Prepared(Some(n)), o)
            == FileStep::Transcribe,
        !o.dry_run && n == 0 ==> run::following(FileStep::Prepare, FileEvent::Prepared(Some(n)), o)
            == FileStep::Done(FileEnd::NoSpeech),
        run::following(FileStep::Plan, FileEvent::Planned, o) == FileStep::Done(FileEnd::Completed),
        run::following(FileStep::Transcribe, FileEvent::Transcribed(true), o) == FileStep::Write,
        run::following(FileStep::Transcribe, FileEvent::Transcribed(false), o) == FileStep::Done(
            FileEnd::Failed,
        ),
        run::following(FileStep::Write, FileEvent::Written, o) == FileStep::Done(
            FileEnd::Completed,
        ),
{
}

/// Nothing more is done with a file that is done.
pub proof fn law_done_is_done(end: FileEnd, event: FileEvent, o: RunOptions)
    ensures
        run::following(FileStep::Done(end), event, o) == FileStep::Done(end),
{
}

/// The smaller and the larger of two numbers.
pub proof fn law_smaller_larger(a: int, b: int)
    ensures
        segment::int_min(a, b) == a && a <= b || segment::int_min(a, b) == b && b <= a,
        segment::int_max(a, b) == a && a >= b || segment::int_max(a, b) == b && b >= a,
{
}

/// As many requests as asked for may be under way at a time, but never none.
pub proof fn law_allowed(concurrency: int)
    ensures
        concurrency >= 1 ==> pipeline::allowed(concurrency) == concurrency,
        concurrency <= 0 ==> pipeline::allowed(concurrency) == 1,
{
}

/// What the files of a run came to, one after the other.
pub open spec fn all_completed(ends: Seq<FileEnd>) -> int
    decreases ends.len(),
{
    if ends.len() == 0 {
        0
    } else {
        run::completed_after(all_completed(ends.drop_last()), ends.last())
    }
}

/// The files of a run that failed.
pub open spec fn all_failed(paths: Seq<Seq<u8>>, ends: Seq<FileEnd>) -> Seq<Seq<u8>>
    decreases ends.len(),
{
    if ends.len() == 0 {
        Seq::empty()
    } else {
        run::failed_after(
            all_failed(paths.drop_last(), ends.drop_last()),
            paths.last(),
            ends.last(),
        )
    }
}

/// The report on a run has the files that were completed before the slash, and all of them
/// behind it.
pub proof fn law_summary(completed: nat, files: nat)
    ensures
        ({
            let s = run::summary(completed, files);
            let counts = s.take(s.len() - 5);
            let parts = text::pieces(counts, text::occurrences(counts, '/'));
            &&& s.len() >= 5
            &&& s.skip(s.len() - 5) == " done"@
            &&& parts.len() == 2
            &&& text::number(parts[0]) == completed
            &&& text::number(parts[1]) == files
        }),
{
    reveal_strlit("/");
    reveal_strlit(" done");
    text_laws::law_decimal_digits(completed);
    text_laws::law_decimal_digits(files);
    let a = text::decimal(completed);
    let b = text::decimal(files);
    let s = run::summary(completed, files);
    let counts = s.take(s.len() - 5);
    let a_seps = text::occurrences(a, '/');
    let b_seps = text::occurrences(b, '/');
    assert(s.skip(s.len() - 5) =~= " done"@);
    assert(counts =~= a.push('/') + b);
    assert(text::occurrences(counts, '/') =~= a_seps.push(true) + b_seps);
    text_laws::law_pieces_parted(a, '/', b, a_seps, b_seps);
    text_laws::law_pieces_whole(a, a_seps);
    text_laws::law_pieces_whole(b, b_seps);
}

/// A run counts the files that were completed, lists those that failed, and succeeds
/// exactly if none did.
pub proof fn law_run(paths: Seq<Seq<u8>>, ends: Seq<FileEnd>)
    requires
        paths.len() == ends.len(),
    ensures
        all_completed(ends) == ends.filter(|e: FileEnd| e == FileEnd::Completed).len(),
        all_failed(paths, ends).len() == ends.filter(|e: FileEnd| e == FileEnd::Failed).len(),
        run::code_after(all_failed(paths, ends).len()) == 0 <==> !ends.contains(FileEnd::Failed),
        run::code_after(all_failed(paths, ends).len()) == 0 || run::code_after(
            all_failed(paths, ends).len(),
        ) == 1,
        forall|i: int|
            0 <= i < ends.len() && #[trigger] ends[i] == FileEnd::Failed ==> all_failed(
                paths,
                ends,
            ).contains(paths[i]),
        ends.len() > 0 ==> all_failed(paths.drop_last(), ends.drop_last()).is_prefix_of(
            all_failed(paths, ends),
        ),
        ends.len() > 0 && ends.last() == FileEnd::Failed ==> all_failed(paths, ends).last()
            == paths.last(),
    decreases ends.len(),
{
    reveal(Seq::filter);
    if ends.len() > 0 {
        let front = ends.drop_last();
        let before = all_failed(paths.drop_last(), front);
        law_run(paths.drop_last(), front);
        let all = all_failed(paths, ends);
        assert forall|i: int|
            0 <= i < ends.len() && #[trigger] ends[i] == FileEnd::Failed implies all.contains(
            paths[i],
        ) by {
            if i < front.len() {
                assert(front[i] == ends[i]);
                assert(before.contains(paths.drop_last()[i]));
                let k = choose|k: int| 0 <= k < before.len() && before[k] == paths[i];
                assert(all[k] == paths[i]);
            } else {
                assert(all[all.len() - 1] == paths[i]);
            }
        }
        assert(ends.contains(FileEnd::Failed) <==> front.contains(FileEnd::Failed) || ends.last()
            == FileEnd::Failed) by {
            if front.contains(FileEnd::Failed) {
                let i = choose|i: int| 0 <= i < front.len() && front[i] == FileEnd::Failed;
                assert(ends[i] == FileEnd::Failed);
            }
            if ends.last() == FileEnd::Failed {
                assert(ends[ends.len() - 1] == FileEnd::Failed);
            }
            if ends.contains(FileEnd::Failed) {
                let i = choose|i: int| 0 <= i < ends.len() && ends[i] == FileEnd::Failed;
                if i < front.len() {
                    assert(front[i] == FileEnd::Failed);
                }
            }
        }
    }
}

} // verus!
