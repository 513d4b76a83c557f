//! Texts, subtitles and what leads to them.

use otograph::double;
use otograph::pipeline;
use otograph::pipeline::{Reply, Transcript};
use otograph::srt;
use otograph::srt::SrtEntry;
use otograph::text;
use otograph::vad::Speech;

#[test]
fn white_space_is_that_of_unicode() {
    for u in 0..=0x10_ffffu32 {
        if let Some(c) = char::from_u32(u) {
            assert_eq!(text::white_space(c), c.is_whitespace(), "{u:x}");
        }
    }
}

#[test]
fn trimming() {
    for s in ["", " ", "a", " a b\t\n", "\u{3000}日本\u{2003}", "\u{200b}x", "no"] {
        assert_eq!(text::trim(s), s.trim());
    }
}

#[test]
fn numbers_in_decimal() {
    for n in [0u64, 1, 9, 10, 99, 100, 12345, u64::MAX] {
        assert_eq!(text::to_decimal(n), format!("{n}"));
        assert_eq!(text::to_zero_padded(n, 3), format!("{n:03}"));
        assert_eq!(text::to_decimal(n).parse::<u64>().unwrap(), n);
    }
    for n in [0i32, 1, -1, 255, i32::MIN, i32::MAX] {
        assert_eq!(text::to_signed_decimal(n), format!("{n}"));
    }
}

#[test]
fn pieces_of_texts() {
    for s in ["", ",", "a", "a,b", ",a,,b,", "ä,ö"] {
        let expected: Vec<String> = s.split(',').map(|x| x.to_string()).collect();
        assert_eq!(text::split_on(s, ','), expected);
    }
    for s in ["", "/", "a/", "a//", "//a", "a/b"] {
        assert_eq!(text::strip_trailing(s, '/'), s.trim_end_matches('/'));
    }
    assert!(text::same("日本", "日本"));
    assert!(!text::same("a", "ab"));
    assert_eq!(text::concat("ab", "cd"), "abcd");
}

#[test]
fn first_bytes_end_with_a_character() {
    let s = "aé日😀z";
    for n in 0..20 {
        let end = s.len().min(n);
        let expected = if s.is_char_boundary(end) { Some(s[..end].to_string()) } else { None };
        assert_eq!(text::first_bytes(s, n), expected, "{n}");
    }
    assert_eq!(text::first_bytes("", 5), Some(String::new()));
    assert_eq!(text::quote("x: ", "héllo", 3), Some("x: hé".to_string()));
    assert_eq!(text::quote("x: ", "héllo", 2), None);
}

#[test]
fn timestamps() {
    assert_eq!(srt::format_timestamp(0.0f64.to_bits()), "00:00:00,000");
    assert_eq!(srt::format_timestamp(3661.5f64.to_bits()), "01:01:01,500");
    assert_eq!(srt::format_timestamp(0.0005f64.to_bits()), "00:00:00,001");
    assert_eq!(srt::format_timestamp(360000.0f64.to_bits()), "100:00:00,000");
    assert_eq!(srt::format_timestamp((-1.0f64).to_bits()), "00:00:00,000");
    assert_eq!(srt::format_timestamp(f64::NAN.to_bits()), "00:00:00,000");
}

#[test]
fn milliseconds_match_the_machine() {
    let mut all: Vec<f64> = vec![
        0.0, -0.0, 1e-300, 5e-324, 0.0004999999999999999, 0.0005, 1e15, 1.8446744073709552e16, 1e20,
        1e300, f64::MAX, f64::INFINITY, f64::NEG_INFINITY, f64::NAN, -5.0, -1e-9,
    ];
    for n in 0..200_000u32 {
        all.push(n as f64 / 16000.0);
    }
    let mut x: u64 = 11;
    for _ in 0..50_000 {
        x = x.wrapping_mul(6_364_136_223_846_793_005).wrapping_add(1_442_695_040_888_963_407);
        all.push(f64::from_bits(x));
        all.push((x >> 24) as f64 / 16000.0);
        all.push((x >> 30) as f64 / 2000.0);
    }
    for s in all {
        assert_eq!(srt::total_millis(s.to_bits()), (s * 1000.0).round() as u64, "{s}");
    }
}

#[test]
fn times_are_close_and_in_order() {
    let mut before = 0;
    for n in (0..3_000_000usize).step_by(7) {
        let ms = srt::total_millis(double::seconds(n)) as i64;
        assert!((16 * ms - n as i64).abs() <= 8, "{n}");
        assert!(ms >= before);
        before = ms;
    }
}

fn entry(start: f64, end: f64, text: &str) -> SrtEntry {
    SrtEntry { start: start.to_bits(), end: end.to_bits(), text: text.to_string() }
}

#[test]
fn subtitles_without_text_are_left_out_but_counted() {
    let entries = vec![
        entry(0.32, 2.27, "  And so, my fellow Americans \n"),
        entry(3.0, 4.0, " \t"),
        entry(5.38, 7.68, "ask not"),
    ];
    let expected = "1\n00:00:00,320 --> 00:00:02,270\nAnd so, my fellow Americans\n\n\
                    3\n00:00:05,380 --> 00:00:07,680\nask not\n\n";
    assert_eq!(srt::write_srt(&entries), expected);
    assert_eq!(pipeline::count_spoken(&entries), 2);
    assert_eq!(srt::write_srt(&[]), "");
}

#[test]
fn extensions_from_a_list() {
    assert_eq!(pipeline::parse_extensions("mp4, mkv ,,  ,Wav"), vec!["mp4", "mkv", "Wav"]);
    assert_eq!(pipeline::parse_extensions(" "), Vec::<String>::new());
    let default = pipeline::parse_extensions("");
    assert_eq!(default.len(), 21);
    assert_eq!(default[0], "mp4");
    assert_eq!(default[20], "amr");
}

#[test]
fn the_language_of_a_file() {
    let given = Some("en".to_string());
    assert_eq!(
        pipeline::resolve_language(true, &given, b"/a/talk.zh.mp4"),
        Some("zh".to_string())
    );
    assert_eq!(pipeline::resolve_language(false, &given, b"/a/talk.zh.mp4"), given);
    assert_eq!(pipeline::resolve_language(true, &given, b"/a/talk.mp4"), given);
    assert_eq!(pipeline::resolve_language(true, &None, b"/a/talk.mp4"), None);
}

fn reply(index: usize, result: Result<&str, &str>) -> Reply {
    Reply {
        index,
        result: match result {
            Ok(s) => Ok(s.to_string()),
            Err(s) => Err(s.to_string()),
        },
    }
}

#[test]
fn transcripts_are_put_in_order() {
    let replies = vec![reply(2, Ok("c")), reply(0, Ok("a")), reply(1, Ok("b")), reply(1, Ok("d"))];
    let got: Vec<(usize, String)> = match pipeline::transcripts(replies) {
        Ok(ts) => ts.into_iter().map(|t| (t.index, t.text)).collect(),
        Err(e) => panic!("{e}"),
    };
    let expected: Vec<(usize, String)> = vec![
        (0, "a".to_string()),
        (1, "b".to_string()),
        (1, "d".to_string()),
        (2, "c".to_string()),
    ];
    assert_eq!(got, expected);
}

#[test]
fn the_first_failure_is_reported() {
    let replies = vec![reply(0, Ok("a")), reply(1, Err("first")), reply(2, Err("second"))];
    match pipeline::transcripts(replies) {
        Ok(_) => panic!("no failure"),
        Err(e) => assert_eq!(e, "first"),
    }
    assert!(matches!(pipeline::transcripts(Vec::new()), Ok(ts) if ts.is_empty()));
}

#[test]
fn subtitles_of_transcripts() {
    let segs = vec![Speech { start: 0, end: 16_000 }, Speech { start: 24_000, end: 40_000 }];
    let ts = vec![Transcript { index: 1, text: "hello".to_string() }];
    let entries = pipeline::srt_entries(&segs, &ts);
    assert_eq!(entries.len(), 1);
    assert_eq!(entries[0].start, 1.5f64.to_bits());
    assert_eq!(entries[0].end, 2.5f64.to_bits());
    assert_eq!(srt::write_srt(&entries), "1\n00:00:01,500 --> 00:00:02,500\nhello\n\n");
}

#[test]
fn at_least_one_request_at_a_time() {
    assert_eq!(pipeline::permits(0), 1);
    assert_eq!(pipeline::permits(1), 1);
    assert_eq!(pipeline::permits(96), 96);
}
