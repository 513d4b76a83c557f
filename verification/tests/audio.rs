//! Samples, recordings and speech segments.

use otograph::double;
use otograph::pipeline;
use otograph::pipeline::Job;
use otograph::vad;
use otograph::vad::{Speech, VadModel, VadParams};
use otograph::wav;

/// The segments of a recording of `len` silent samples whose windows have the given
/// probabilities.
fn segments(probs: &[f32], len: usize, p: &VadParams) -> Vec<(usize, usize)> {
    let audio = vec![0u32; len];
    let mut model = VadModel::new();
    let mut i = 0;
    while let Some(input) = model.next_input(&audio) {
        assert_eq!(input.len(), vad::XPAD_LEN);
        model.observe(&audio, probs[i].to_bits());
        i += 1;
    }
    assert_eq!(i, probs.len());
    model.speech_timestamps(&audio, p).iter().map(|s| (s.start, s.end)).collect()
}

fn params(threshold: f32, min_speech: u32, max_s: f32, min_silence: u32, pad: u32) -> VadParams {
    VadParams {
        threshold: threshold.to_bits(),
        min_speech_duration_ms: min_speech,
        max_speech_duration_s: max_s.to_bits(),
        min_silence_duration_ms: min_silence,
        speech_pad_ms: pad,
        ..VadParams::default()
    }
}

/// The same segmentation in floating point, to compare with.
fn float_segments(probs: &[f32], len: usize, p: &VadParams) -> Vec<(usize, usize)> {
    let ms = |v: u32| 16000f64 * v as f64 / 1000.0;
    let (min_speech, pad) = (ms(p.min_speech_duration_ms), ms(p.speech_pad_ms));
    let (min_silence, min_split) =
        (ms(p.min_silence_duration_ms), ms(p.min_silence_at_max_speech));
    let limit = 16000f64 * f32::from_bits(p.max_speech_duration_s) as f64 - 512.0 - 2.0 * pad;
    let threshold = f32::from_bits(p.threshold);
    let low = (threshold - 0.15).max(0.01);
    let mut found: Vec<(usize, usize)> = Vec::new();
    let mut start: Option<usize> = None;
    let (mut pause, mut last_end, mut resumed) = (0usize, 0usize, 0usize);
    let mut pauses: Vec<(usize, f64)> = Vec::new();
    for (i, &prob) in probs.iter().enumerate() {
        let cur = 512 * i;
        let open = start.is_some();
        if prob >= threshold && pause != 0 {
            let quiet = (cur - pause) as f64;
            if quiet > min_split {
                pauses.push((pause, quiet));
            }
            pause = 0;
            if resumed < last_end {
                resumed = cur;
            }
        }
        if prob >= threshold && !open {
            start = Some(cur);
            continue;
        }
        if let Some(s) = start {
            if (cur - s) as f64 > limit {
                let mut hard = false;
                if p.use_max_poss_sil_at_max_speech && !pauses.is_empty() {
                    let mut best = pauses[0];
                    for &q in &pauses {
                        if q.1 >= best.1 {
                            best = q;
                        }
                    }
                    found.push((s, best.0));
                    let next = best.0 + best.1 as usize;
                    start = if (next as f64) < best.0 as f64 + cur as f64 { Some(next) } else { None };
                } else if last_end != 0 {
                    found.push((s, last_end));
                    start = if resumed < last_end { None } else { Some(resumed) };
                } else {
                    found.push((s, cur));
                    start = None;
                    hard = true;
                }
                last_end = 0;
                resumed = 0;
                pause = 0;
                pauses.clear();
                if hard {
                    continue;
                }
            }
        }
        if prob < low {
            if let Some(s) = start {
                if pause == 0 {
                    pause = cur;
                }
                let quiet = (cur - pause) as f64;
                if !p.use_max_poss_sil_at_max_speech && quiet > min_split {
                    last_end = pause;
                }
                if quiet < min_silence {
                    continue;
                }
                if (pause - s) as f64 > min_speech {
                    found.push((s, pause));
                }
                start = None;
                last_end = 0;
                resumed = 0;
                pause = 0;
                pauses.clear();
            }
        }
    }
    if let Some(s) = start {
        if (len - s) as f64 > min_speech {
            found.push((s, len));
        }
    }
    let whole = pad as i64;
    let back = |x: usize, by: i64| (x as i64 - by).max(0) as usize;
    for i in 0..found.len() {
        if i == 0 {
            found[i].0 = back(found[i].0, whole);
        }
        if i + 1 < found.len() {
            let gap = found[i + 1].0 as i64 - found[i].1 as i64;
            if (gap as f64) < 2.0 * pad {
                let half = (gap as f64 / 2.0).floor() as usize;
                found[i].1 += half;
                found[i + 1].0 = back(found[i + 1].0, half as i64);
            } else {
                found[i].1 = (found[i].1 + pad as usize).min(len);
                found[i + 1].0 = back(found[i + 1].0, whole);
            }
        } else {
            found[i].1 = (found[i].1 + pad as usize).min(len);
        }
    }
    found
}

#[test]
fn every_16_bit_number_decodes_to_its_sample() {
    let mut bytes: Vec<u8> = Vec::new();
    for v in i16::MIN..=i16::MAX {
        bytes.extend_from_slice(&v.to_le_bytes());
    }
    let samples = wav::samples_from_s16le(&bytes);
    assert_eq!(samples.len(), 65536);
    for (i, v) in (i16::MIN..=i16::MAX).enumerate() {
        let expected = v as f32 / 32768.0;
        assert_eq!(samples[i], expected.to_bits(), "{v}");
        assert!((-1.0..1.0).contains(&f32::from_bits(samples[i])));
    }
}

#[test]
fn a_trailing_odd_byte_is_dropped() {
    assert_eq!(wav::samples_from_s16le(&[0x00, 0x80, 0xff]), vec![(-1.0f32).to_bits()]);
    assert_eq!(wav::samples_from_s16le(&[0x01]), Vec::<u32>::new());
    assert_eq!(wav::samples_from_s16le(&[]), Vec::<u32>::new());
}

#[test]
fn levels_match_the_machine() {
    let mut all: Vec<u32> = Vec::new();
    for v in i16::MIN..=i16::MAX {
        all.push((v as f32 / 32768.0).to_bits());
        all.push((v as f32 / 32767.0).to_bits());
        all.push(((v as f32 + 0.5) / 32767.0).to_bits());
    }
    let mut x: u32 = 1;
    for _ in 0..200_000 {
        x = x.wrapping_mul(1_664_525).wrapping_add(1_013_904_223);
        all.push(x);
    }
    for bits in all {
        let s = f32::from_bits(bits);
        let expected = (s.clamp(-1.0, 1.0) * 32767.0).round() as i16;
        assert_eq!(wav::pcm16_level(bits), expected, "{bits:x}");
    }
    assert_eq!(wav::pcm16_level(f32::NAN.to_bits()), 0);
    assert_eq!(wav::pcm16_level(f32::INFINITY.to_bits()), 32767);
    assert_eq!(wav::pcm16_level(2.0f32.to_bits()), 32767);
    assert_eq!(wav::pcm16_level((-2.0f32).to_bits()), -32767);
}

#[test]
fn decoding_and_encoding_moves_a_number_by_at_most_one_step() {
    for v in i16::MIN..=i16::MAX {
        let bits = wav::samples_from_s16le(&v.to_le_bytes())[0];
        let back = wav::pcm16_level(bits) as i32;
        let v = v as i32;
        assert!((v - back).abs() <= 1 && back.abs() <= v.abs(), "{v} {back}");
        if v.abs() <= 16384 {
            assert_eq!(back, v);
        }
    }
}

#[test]
fn a_wav_file_has_a_header_and_the_levels() {
    let samples = vec![0.0f32.to_bits(), 1.0f32.to_bits(), (-0.5f32).to_bits()];
    let expected: Vec<u8> = vec![
        b'R', b'I', b'F', b'F', 42, 0, 0, 0, b'W', b'A', b'V', b'E', b'f', b'm', b't', b' ', 16, 0,
        0, 0, 1, 0, 1, 0, 0x80, 0x3e, 0, 0, 0x00, 0x7d, 0, 0, 2, 0, 16, 0, b'd', b'a', b't', b'a',
        6, 0, 0, 0, 0, 0, 0xff, 0x7f, 0x00, 0xc0,
    ];
    assert_eq!(wav::encode_pcm16_mono(&samples, 16_000), expected);
    let file = wav::encode_pcm16_mono(&[], 8_000);
    assert_eq!(file.len(), 44);
    assert_eq!(&file[4..8], &[36, 0, 0, 0]);
    assert_eq!(&file[24..28], &8_000u32.to_le_bytes());
    assert_eq!(&file[28..32], &16_000u32.to_le_bytes());
}

#[test]
fn a_wav_file_reads_back() {
    let samples: Vec<u32> = (0..1000).map(|i| (i as f32 / 1000.0).to_bits()).collect();
    let file = wav::encode_pcm16_mono(&samples, 16_000);
    assert_eq!(file.len(), 44 + 2 * samples.len());
    for (i, &s) in samples.iter().enumerate() {
        let v = i16::from_le_bytes([file[44 + 2 * i], file[45 + 2 * i]]);
        assert_eq!(v, wav::pcm16_level(s));
    }
}

#[test]
fn defaults() {
    let p = VadParams::default();
    assert_eq!(f32::from_bits(p.threshold), 0.5);
    assert_eq!(f32::from_bits(p.max_speech_duration_s), 28.0);
    assert_eq!(p.min_speech_duration_ms, 250);
    assert_eq!(p.min_silence_duration_ms, 300);
    assert_eq!(p.speech_pad_ms, 30);
    assert_eq!(p.min_silence_at_max_speech, 98);
    assert!(p.use_max_poss_sil_at_max_speech);
}

#[test]
fn windows_are_padded_and_reflected() {
    assert_eq!(VadModel::windows(0), 0);
    assert_eq!(VadModel::windows(1), 1);
    assert_eq!(VadModel::windows(512), 1);
    assert_eq!(VadModel::windows(513), 2);
    let audio: Vec<u32> = (1..=700).collect();
    let mut model = VadModel::new();
    let first = model.next_input(&audio).unwrap();
    assert_eq!(first.len(), 640);
    assert!(first[..64].iter().all(|&x| x == 0));
    assert_eq!(first[64..576], audio[..512]);
    for i in 576..640 {
        assert_eq!(first[i], first[2 * 576 - i - 2]);
    }
    model.observe(&audio, 0);
    let second = model.next_input(&audio).unwrap();
    assert_eq!(second[..64], audio[448..512]);
    assert_eq!(second[64..64 + 188], audio[512..]);
    assert!(second[64 + 188..576].iter().all(|&x| x == 0));
    model.observe(&audio, 0);
    assert!(model.next_input(&audio).is_none());
    model.reset();
    assert_eq!(model.next_input(&audio).unwrap(), first);
}

#[test]
fn one_stretch_of_speech_gets_margins() {
    let mut probs = vec![0.0f32; 60];
    for p in probs.iter_mut().take(30).skip(10) {
        *p = 0.9;
    }
    let found = segments(&probs, 60 * 512, &VadParams::default());
    assert_eq!(found, vec![(10 * 512 - 480, 30 * 512 + 480)]);
}

#[test]
fn silence_has_no_segment() {
    assert!(segments(&[0.4; 100], 51_200, &VadParams::default()).is_empty());
    assert!(segments(&[], 0, &VadParams::default()).is_empty());
    assert!(segments(&[f32::NAN; 10], 5_120, &VadParams::default()).is_empty());
}

#[test]
fn short_speech_is_dropped() {
    let mut probs = vec![0.0f32; 60];
    for p in probs.iter_mut().take(17).skip(10) {
        *p = 0.9;
    }
    // 7 windows are 224 ms, 8 windows are 256 ms
    assert!(segments(&probs, 60 * 512, &VadParams::default()).is_empty());
    probs[17] = 0.9;
    assert_eq!(segments(&probs, 60 * 512, &VadParams::default()).len(), 1);
}

#[test]
fn a_short_silence_does_not_part_speech() {
    let mut probs = vec![0.9f32; 60];
    for p in probs.iter_mut().take(29).skip(20) {
        *p = 0.0;
    }
    assert_eq!(segments(&probs, 60 * 512, &VadParams::default()), vec![(0, 60 * 512)]);
    for p in probs.iter_mut().take(35).skip(20) {
        *p = 0.0;
    }
    let found = segments(&probs, 60 * 512, &VadParams::default());
    assert_eq!(found, vec![(0, 20 * 512 + 480), (35 * 512 - 480, 60 * 512)]);
}

#[test]
fn stretches_are_a_silence_and_a_window_apart() {
    // 288 ms are nine windows
    let p = params(0.5, 0, 28.0, 288, 0);
    let mut probs = vec![0.9f32; 30];
    for q in probs.iter_mut().take(19).skip(10) {
        *q = 0.0;
    }
    assert_eq!(segments(&probs, 30 * 512, &p), vec![(0, 30 * 512)]);
    probs[19] = 0.0;
    assert_eq!(segments(&probs, 30 * 512, &p), vec![(0, 10 * 512), (20 * 512, 30 * 512)]);
    assert_eq!(20 * 512 - 10 * 512, 16 * 288 + 512);
}

#[test]
fn a_segment_holds_a_window_of_speech() {
    let p = params(0.5, 0, 28.0, 100, 0);
    let mut probs = vec![0.0f32; 20];
    probs[5] = 0.9;
    probs[19] = 0.9;
    let len = 19 * 512 + 100;
    assert_eq!(segments(&probs, len, &p), vec![(5 * 512, 6 * 512), (19 * 512, len)]);
}

#[test]
fn long_speech_is_split_at_the_longest_silence() {
    // a limit of 2 s: 32000 - 512 - 960 samples
    let p = params(0.5, 250, 2.0, 300, 30);
    let mut probs = vec![0.9f32; 80];
    for q in probs.iter_mut().take(24).skip(20) {
        *q = 0.0;
    }
    for q in probs.iter_mut().take(45).skip(40) {
        *q = 0.0;
    }
    let found = segments(&probs, 80 * 512, &p);
    assert_eq!(found, vec![(0, 40 * 512 + 480), (45 * 512 - 480, 80 * 512)]);
    for (start, end) in found {
        assert!(end - start <= 32_000);
    }
}

#[test]
fn segments_match_floating_point() {
    let mut x: u64 = 3;
    let mut random = move || {
        x = x.wrapping_mul(6_364_136_223_846_793_005).wrapping_add(1_442_695_040_888_963_407);
        (x >> 33) as u32
    };
    for round in 0..400u32 {
        let n = 1 + (random() % 400) as usize;
        let mut probs: Vec<f32> = Vec::new();
        let mut level = 0.0f32;
        for _ in 0..n {
            if random() % 6 == 0 {
                level = (random() % 1000) as f32 / 999.0;
            }
            probs.push(if random() % 50 == 0 { f32::NAN } else { level });
        }
        let len = n * 512 - (random() % 512) as usize;
        let threshold = [0.5f32, 0.3, 0.9, 0.005, 0.0][(random() % 5) as usize];
        let limits = [28.0f32, 1.5, 0.7, 0.01, 3.3, f32::INFINITY, f32::NAN, -1.0, 1e-40, 1e30];
        let max_s = limits[(random() % 10) as usize];
        let mut p = params(threshold, random() % 600, max_s, random() % 700, random() % 200);
        p.min_silence_at_max_speech = random() % 200;
        if round % 40 == 7 {
            p.speech_pad_ms = u32::MAX;
        }
        if round % 40 == 8 {
            p.min_silence_duration_ms = u32::MAX;
        }
        p.use_max_poss_sil_at_max_speech = random() % 2 == 0;
        let expected = float_segments(&probs, len, &p);
        assert_eq!(segments(&probs, len, &p), expected, "round {round}");
        for w in expected.windows(2) {
            assert!(w[0].1 <= w[1].0);
        }
        for s in &expected {
            assert!(s.0 <= s.1 && s.1 <= len);
        }
    }
}

#[test]
fn jobs_are_cut_at_the_end_of_the_recording() {
    let segs = vec![
        Speech { start: 0, end: 10 },
        Speech { start: 10, end: 10 },
        Speech { start: 15, end: 30 },
        Speech { start: 20, end: 25 },
    ];
    let jobs: Vec<(usize, usize, usize)> =
        pipeline::plan(&segs, 20).iter().map(|j| (j.index, j.start, j.end)).collect();
    assert_eq!(jobs, vec![(0, 0, 10), (2, 15, 20)]);
    let samples: Vec<u32> = (0..20).map(|i| (i as f32 / 20.0).to_bits()).collect();
    let bytes = pipeline::job_wav(&samples, &Job { index: 2, start: 15, end: 20 });
    assert_eq!(bytes, wav::encode_pcm16_mono(&samples[15..20], 16_000));
}

#[test]
fn total_speech_in_seconds() {
    let segs = vec![Speech { start: 0, end: 8_000 }, Speech { start: 9_000, end: 33_000 }];
    assert_eq!(pipeline::total_speech(&segs), 2.0f64.to_bits());
    assert_eq!(pipeline::total_speech(&Vec::new()), double::seconds(0));
}

#[test]
fn decoding_nothing_is_an_error() {
    assert_eq!(pipeline::decoded(&[0, 0, 1]).unwrap(), vec![0]);
    let message = "ffmpeg produced 0 samples — input may be corrupt/unreadable or empty";
    assert_eq!(pipeline::decoded(&[7]).unwrap_err(), message);
    assert_eq!(pipeline::decoded(&[]).unwrap_err(), message);
}
