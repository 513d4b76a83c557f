//! Media files and what is done with them.

use otograph::media;
use otograph::run;
use otograph::run::{FileEnd, FileEvent, FileStep, RunOptions, Tally};
use std::path::{Path, PathBuf};

fn paths() -> Vec<&'static str> {
    vec![
        "", "/", ".", "..", "a", "a.mp4", "a.", ".a", ".a.b", "..a", "x/..ab", "x/..a/", "x/..ab/", "a..b", "a.b.c", "/x/y.z",
        "x/y/", "x/y.mp4/", "x/y.mp4//", "x/.", "x/y.mp4/.", "x/..", "./a.b", "//a//b.c", "a/./b.c",
        "foo/bar/video.mp4", "音/声.MP3", "a b.c d", "x.mp4/y", "...", "a/...", "....b",
    ]
}

#[test]
fn the_subtitles_are_next_to_the_file() {
    assert_eq!(media::srt_path_for(b"foo/bar/video.mp4"), b"foo/bar/video.srt".to_vec());
    assert_eq!(media::srt_path_for(b"x/..a"), b"x/..".to_vec());
    assert_eq!(media::srt_path_for(b"x/\xff.mp4"), b"x/\xff.srt".to_vec());
    for p in paths() {
        let expected = Path::new(p).with_extension("srt");
        assert_eq!(
            String::from_utf8(media::srt_path_for(p.as_bytes())).unwrap(),
            expected.to_str().unwrap(),
            "{p}"
        );
    }
}

#[test]
fn the_path_of_subtitles_is_its_own() {
    for p in ["a.mp4", "foo/bar/video.mp4", "x/y/", "a"] {
        let once = media::srt_path_for(p.as_bytes());
        assert_eq!(media::srt_path_for(&once), once);
    }
}

#[test]
fn media_files_by_extension() {
    let exts = media::default_extensions();
    assert_eq!(exts.len(), 21);
    assert!(media::is_media(b"a.mp4", &exts));
    assert!(media::is_media(b"dir.x/a.MP3", &exts));
    assert!(!media::is_media(b"a.srt", &exts));
    assert!(!media::is_media(b"mp4", &exts));
    assert!(!media::is_media(b".mp4", &exts));
    assert!(!media::is_media(b"a.mp\xff", &exts));
    for p in paths() {
        let expected = match Path::new(p).extension().and_then(|x| x.to_str()) {
            Some(ext) => exts.iter().any(|x| x.eq_ignore_ascii_case(ext)),
            None => false,
        };
        assert_eq!(media::is_media(p.as_bytes(), &exts), expected, "{p}");
    }
}

#[test]
fn media_files_come_in_the_order_of_paths() {
    let exts = vec!["mp4".to_string()];
    let names = [
        "r/b.mp4", "r/a/z.mp4", "r/a.mp4", "r/a-b/c.mp4", "r//a/y.mp4", "r/x.txt", "r/./a/x.mp4",
        "r/a/z.MP4", "r/A.mp4", "/r/a.mp4", "r/a/../b.mp4",
    ];
    let found: Vec<Vec<u8>> = names.iter().map(|s| s.as_bytes().to_vec()).collect();
    let got = media::select_media(&found, &exts);
    let mut expected: Vec<PathBuf> =
        names.iter().filter(|s| !s.ends_with("txt")).map(PathBuf::from).collect();
    expected.sort();
    let got: Vec<PathBuf> =
        got.into_iter().map(|b| PathBuf::from(String::from_utf8(b).unwrap())).collect();
    assert_eq!(got, expected);
}

#[test]
fn languages_in_names() {
    let of = |s: &str| media::lang_from_name(s.as_bytes());
    assert_eq!(of("talk.zh.mp4"), Some("zh".to_string()));
    assert_eq!(of("movie_[ja].mkv"), Some("ja".to_string()));
    assert_eq!(of("foo.zh.mp4"), Some("zh".to_string()));
    assert_eq!(of("bar_[ja].mkv"), Some("ja".to_string()));
    assert_eq!(of("d/Lecture (ENGLISH).mp4"), Some("en".to_string()));
    assert_eq!(of("en.zh.mp4"), Some("en".to_string()));
    assert_eq!(of("zh"), Some("zh".to_string()));
    assert_eq!(of("talk.mp4"), None);
    assert_eq!(of("zh/talk.mp4"), None);
    assert_eq!(of("talken.mp4"), None);
    assert_eq!(of("日本en.mp4"), None);
    assert_eq!(of("日本。en.mp4"), Some("en".to_string()));
    assert_eq!(of(""), None);
    assert_eq!(of(".."), None);
    assert_eq!(media::lang_from_name(b"zh.\xff.mp4"), None);
    let words = [
        ("chinese", "zh"), ("cn", "zh"), ("mandarin", "zh"), ("cantonese", "zh"), ("jp", "ja"),
        ("japanese", "ja"), ("korean", "ko"), ("french", "fr"), ("german", "de"),
        ("spanish", "es"), ("russian", "ru"),
    ];
    for (word, code) in words {
        assert_eq!(of(&format!("x-{word}.wav")), Some(code.to_string()));
    }
    for code in ["zh", "ja", "en", "ko", "fr", "de", "es", "ru"] {
        assert_eq!(media::lang_from_words(&vec![code.to_string()]), Some(code.to_string()));
    }
}

fn options(force: bool, dry_run: bool) -> RunOptions {
    RunOptions { force, dry_run }
}

#[test]
fn a_file_from_look_to_write() {
    let o = options(false, false);
    let s = run::next_step(FileStep::Look, FileEvent::Exists(false), o);
    assert_eq!(s, FileStep::Prepare);
    let s = run::next_step(s, FileEvent::Prepared(Some(4)), o);
    assert_eq!(s, FileStep::Transcribe);
    assert_eq!(run::next_step(s, FileEvent::Written, o), FileStep::Transcribe);
    let failed = run::next_step(s, FileEvent::Transcribed(false), o);
    assert_eq!(failed, FileStep::Done(FileEnd::Failed));
    let s = run::next_step(s, FileEvent::Transcribed(true), o);
    assert_eq!(s, FileStep::Write);
    assert_eq!(run::next_step(s, FileEvent::Written, o), FileStep::Done(FileEnd::Completed));
}

#[test]
fn existing_subtitles_are_kept_unless_forced() {
    let exists = FileEvent::Exists(true);
    let kept = run::next_step(FileStep::Look, exists, options(false, false));
    assert_eq!(kept, FileStep::Done(FileEnd::Skipped));
    assert_eq!(run::next_step(FileStep::Look, exists, options(true, false)), FileStep::Prepare);
}

#[test]
fn a_dry_run_only_plans() {
    let o = options(false, true);
    let s = run::next_step(FileStep::Prepare, FileEvent::Prepared(Some(0)), o);
    assert_eq!(s, FileStep::Plan);
    assert_eq!(run::next_step(s, FileEvent::Planned, o), FileStep::Done(FileEnd::Completed));
}

#[test]
fn a_file_without_speech_and_one_that_fails() {
    let o = options(false, false);
    let s = run::next_step(FileStep::Prepare, FileEvent::Prepared(Some(0)), o);
    assert_eq!(s, FileStep::Done(FileEnd::NoSpeech));
    let s = run::next_step(FileStep::Prepare, FileEvent::Prepared(None), o);
    assert_eq!(s, FileStep::Done(FileEnd::Failed));
}

#[test]
fn a_run_is_counted() {
    let mut tally = Tally::new();
    assert_eq!(tally.exit_code(), 0);
    tally.record(b"a".to_vec(), FileEnd::Completed);
    tally.record(b"b".to_vec(), FileEnd::Skipped);
    tally.record(b"c".to_vec(), FileEnd::NoSpeech);
    assert_eq!(tally.exit_code(), 0);
    tally.record(b"d".to_vec(), FileEnd::Failed);
    tally.record(b"e".to_vec(), FileEnd::Completed);
    assert_eq!(tally.completed, 2);
    assert_eq!(tally.failed, vec![b"d".to_vec()]);
    assert_eq!(tally.exit_code(), 1);
    assert_eq!(tally.message(5), "2/5 done");
}
