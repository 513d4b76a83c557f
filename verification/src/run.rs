//! What is done with each file, and what a run comes to.

use crate::media;
use crate::text;
use vstd::prelude::*;

verus! {

/// What came of a file.
#[derive(Clone, Copy, PartialEq, Eq, Structural, Debug)]
pub enum FileEnd {
    /// It has subtitles already.
    Skipped,
    /// There is no speech in it.
    NoSpeech,
    /// It was segmented, or its subtitles were written.
    Completed,
    /// It could not be read, segmented or transcribed.
    Failed,
}

/// What is to be done next with a file.
#[derive(Clone, Copy, PartialEq, Eq, Structural, Debug)]
pub enum FileStep {
    /// See whether it has subtitles.
    Look,
    /// Decode it and find the speech in it.
    Prepare,
    /// Print its segments.
    Plan,
    /// Have its segments transcribed.
    Transcribe,
    /// Write its subtitles.
    Write,
    /// Nothing.
    Done(FileEnd),
}

/// What was seen of a file, or came of a step.
#[derive(Clone, Copy, PartialEq, Eq, Structural, Debug)]
pub enum FileEvent {
    /// Whether it has subtitles.
    Exists(bool),
    /// How many segments it has, unless it could not be read or segmented.
    Prepared(Option<usize>),
    Planned,
    /// Whether all segments were transcribed.
    Transcribed(bool),
    Written,
}

/// What a run was asked to do.
#[derive(Clone, Copy, PartialEq, Eq, Structural, Debug)]
pub struct RunOptions {
    /// Write subtitles even where there are some.
    pub force: bool,
    /// Only find the segments.
    pub dry_run: bool,
}

/// What follows a step.
pub open spec fn following(step: FileStep, event: FileEvent, options: RunOptions) -> FileStep {
    match (step, event) {
        (FileStep::Look, FileEvent::Exists(exists)) => if exists && !options.force {
            FileStep::Done(FileEnd::Skipped)
        } else {
            FileStep::Prepare
        },
        (FileStep::Prepare, FileEvent::Prepared(None)) => FileStep::Done(FileEnd::Failed),
        (FileStep::Prepare, FileEvent::Prepared(Some(n))) => if options.dry_run {
            FileStep::Plan
        } else if n == 0 {
            FileStep::Done(FileEnd::NoSpeech)
        } else {
            FileStep::Transcribe
        },
        (FileStep::Plan, FileEvent::Planned) => FileStep::Done(FileEnd::Completed),
        (FileStep::Transcribe, FileEvent::Transcribed(ok)) => if ok {
            FileStep::Write
        } else {
            FileStep::Done(FileEnd::Failed)
        },
        (FileStep::Write, FileEvent::Written) => FileStep::Done(FileEnd::Completed),
        _ => step,
    }
}

/// What follows a step; an event that does not belong to it changes nothing.
pub fn next_step(step: FileStep, event: FileEvent, options: RunOptions) -> (next: FileStep)
    ensures
        next == following(step, event, options),
{
    match (step, event) {
        (FileStep::Look, FileEvent::Exists(exists)) => if exists && !options.force {
            FileStep::Done(FileEnd::Skipped)
        } else {
            FileStep::Prepare
        },
        (FileStep::Prepare, FileEvent::Prepared(None)) => FileStep::Done(FileEnd::Failed),
        (FileStep::Prepare, FileEvent::Prepared(Some(n))) => if options.dry_run {
            FileStep::Plan
        } else if n == 0 {
            FileStep::Done(FileEnd::NoSpeech)
        } else {
            FileStep::Transcribe
        },
        (FileStep::Plan, FileEvent::Planned) => FileStep::Done(FileEnd::Completed),
        (FileStep::Transcribe, FileEvent::Transcribed(ok)) => if ok {
            FileStep::Write
        } else {
            FileStep::Done(FileEnd::Failed)
        },
        (FileStep::Write, FileEvent::Written) => FileStep::Done(FileEnd::Completed),
        _ => step,
    }
}

/// The step that events lead to.
pub open spec fn reached(events: Seq<FileEvent>, options: RunOptions) -> FileStep
    decreases events.len(),
{
    if events.len() == 0 {
        FileStep::Look
    } else {
        following(reached(events.drop_last(), options), events.last(), options)
    }
}

/// A dry run neither asks the server for anything nor writes a file.
pub proof fn law_dry_run(events: Seq<FileEvent>, options: RunOptions)
    requires
        options.dry_run,
    ensures
        !(reached(events, options) is Transcribe),
        !(reached(events, options) is Write),
    decreases events.len(),
{
    if events.len() > 0 {
        law_dry_run(events.drop_last(), options);
    }
}

/// A file that has subtitles is left alone, unless they are to be replaced.
pub proof fn law_existing_subtitles(events: Seq<FileEvent>, options: RunOptions)
    requires
        !options.force,
        events.len() > 0,
        events[0] == FileEvent::Exists(true),
    ensures
        reached(events, options) == FileStep::Done(FileEnd::Skipped),
    decreases events.len(),
{
    if events.len() > 1 {
        law_existing_subtitles(events.drop_last(), options);
    } else {
        assert(reached(events.drop_last(), options) is Look);
    }
}

/// Subtitles are written only of a file that has segments, all of which were
/// transcribed.
pub proof fn law_written_was_transcribed(events: Seq<FileEvent>, options: RunOptions)
    requires
        reached(events, options) is Write,
    ensures
        exists|i: int|
            0 <= i < events.len() && #[trigger] events[i] == FileEvent::Transcribed(true),
        exists|i: int|
            0 <= i < events.len() && (#[trigger] events[i] matches FileEvent::Prepared(Some(n))
                && n > 0),
    decreases events.len(),
{
    let front = events.drop_last();
    if reached(front, options) is Write {
        law_written_was_transcribed(front, options);
        let i = choose|i: int|
            0 <= i < front.len() && #[trigger] front[i] == FileEvent::Transcribed(true);
        assert(events[i] == front[i]);
        let k = choose|k: int|
            0 <= k < front.len() && (#[trigger] front[k] matches FileEvent::Prepared(Some(n)) && n
                > 0);
        assert(events[k] == front[k]);
    } else {
        assert(events[events.len() - 1] == FileEvent::Transcribed(true));
        lemma_transcribe_has_segments(front, options);
        let k = choose|k: int|
            0 <= k < front.len() && (#[trigger] front[k] matches FileEvent::Prepared(Some(n)) && n
                > 0);
        assert(events[k] == front[k]);
    }
}

proof fn lemma_transcribe_has_segments(events: Seq<FileEvent>, options: RunOptions)
    requires
        reached(events, options) is Transcribe,
    ensures
        exists|i: int|
            0 <= i < events.len() && (#[trigger] events[i] matches FileEvent::Prepared(Some(n))
                && n > 0),
    decreases events.len(),
{
    let front = events.drop_last();
    if reached(front, options) is Transcribe {
        lemma_transcribe_has_segments(front, options);
        let k = choose|k: int|
            0 <= k < front.len() && (#[trigger] front[k] matches FileEvent::Prepared(Some(n)) && n
                > 0);
        assert(events[k] == front[k]);
    } else {
        assert(events[events.len() - 1] matches FileEvent::Prepared(Some(n)) && n > 0);
    }
}

/// What the files of a run came to.
pub struct Tally {
    /// How many were completed.
    pub completed: usize,
    /// Those that failed.
    pub failed: Vec<Vec<u8>>,
}

/// How many files are completed after one more.
pub open spec fn completed_after(completed: int, end: FileEnd) -> int {
    completed + if end is Completed {
        1int
    } else {
        0int
    }
}

/// The files that failed after one more.
pub open spec fn failed_after(failed: Seq<Seq<u8>>, path: Seq<u8>, end: FileEnd) -> Seq<Seq<u8>> {
    if end is Failed {
        failed.push(path)
    } else {
        failed
    }
}

/// The exit code of a run after which so many files have failed.
pub open spec fn code_after(failed: nat) -> int {
    if failed == 0 {
        0
    } else {
        1
    }
}

/// How many of the files were completed, as it is reported.
pub open spec fn summary(completed: nat, files: nat) -> Seq<char> {
    text::decimal(completed) + "/"@ + text::decimal(files) + " done"@
}

impl Tally {
    /// No file yet.
    pub fn new() -> (tally: Self)
        ensures
            tally.completed == 0,
            tally.failed@ == Seq::<Vec<u8>>::empty(),
    {
        Tally { completed: 0, failed: Vec::new() }
    }

    /// Counts a file.
    pub fn record(&mut self, path: Vec<u8>, end: FileEnd)
        requires
            old(self).completed < usize::MAX,
        ensures
            final(self).completed == completed_after(old(self).completed as int, end),
            media::byte_views(final(self).failed@) == failed_after(
                media::byte_views(old(self).failed@),
                path@,
                end,
            ),
    {
        match end {
            FileEnd::Completed => {
                self.completed = self.completed + 1;
            },
            FileEnd::Failed => {
                self.failed.push(path);
            },
            _ => {},
        }
        assert(media::byte_views(self.failed@) =~= failed_after(
            media::byte_views(old(self).failed@),
            path@,
            end,
        ));
    }

    /// The exit code of the run: 1 if a file failed.
    pub fn exit_code(&self) -> (code: i32)
        ensures
            code == code_after(self.failed@.len()),
    {
        if self.failed.len() == 0 {
            0
        } else {
            1
        }
    }

    /// How many of the files were completed.
    pub fn message(&self, files: usize) -> (message: String)
        ensures
            message@ == summary(self.completed as nat, files as nat),
    {
        let mut message = text::to_decimal(self.completed as u64);
        message.append("/");
        message.append(text::to_decimal(files as u64).as_str());
        message.append(" done");
        message
    }
}

} // verus!
