//! The streaming aligner at its edges, and what holds over several calls.

use alass_stream::binary64::Binary64;
use alass_stream::{Config, Error, StreamingAligner, SubtitleFormat, TimeSpan};

fn span(a: i64, b: i64) -> TimeSpan {
    TimeSpan::new(a, b)
}

fn exact_config() -> Config {
    Config {
        split_penalty: Binary64::from_bits(7.0f64.to_bits()),
        speed_optimization: None,
        vad_mode: 0,
    }
}

const SRT: &str = "1\n00:00:01,000 --> 00:00:03,500\nfirst\n\n2\n00:00:05,000 --> 00:00:06,000\nsecond\n\n3\n00:00:09,000 --> 00:00:12,000\nthird\n\n";

const ASS: &str = "[Events]\nFormat: Layer, Start, End, Style, Name, MarginL, MarginR, MarginV, Effect, Text\nDialogue: 0,0:00:01.00,0:00:03.50,Default,,0,0,0,,first\n";

fn loaded() -> StreamingAligner {
    let mut a = StreamingAligner::with_config(exact_config());
    assert_eq!(a.load_subtitle(SRT, SubtitleFormat::SubRip).unwrap(), 3);
    a
}

/// The loaded lines, all moved by the same shift.
fn heard(shift: i64) -> Vec<TimeSpan> {
    vec![
        span(1000 + shift, 3500 + shift),
        span(5000 + shift, 6000 + shift),
        span(9000 + shift, 12000 + shift),
    ]
}

#[test]
fn the_default_configuration() {
    let a = StreamingAligner::default();
    assert_eq!(a.config().split_penalty, Binary64::from_bits(7.0f64.to_bits()));
    assert_eq!(a.config().speed_optimization, Some(Binary64::from_bits(1.0f64.to_bits())));
    assert_eq!(a.config().vad_mode, 0);
    assert_eq!(a.line_count(), 0);
    assert!(a.format().is_none());
    assert!(a.export().is_none());
    assert!(a.corrected_lines().is_empty());
}

#[test]
fn errors_say_what_they_mean() {
    let mut a = StreamingAligner::new();
    let unknown = a.load_subtitle_bytes(b"", None).unwrap_err();
    assert_eq!(unknown.message(), "unknown subtitle format");
    let broken = a.load_subtitle("1\nnot a time\n", SubtitleFormat::SubRip).unwrap_err();
    assert!(broken.message().starts_with("subtitle parse error: "));
    let rate = a.ingest_pcm(&[], 44100, 0).unwrap_err();
    assert!(matches!(rate, Error::InvalidSampleRate(44100)));
    assert_eq!(rate.message(), "unsupported sample rate 44100 (want 8000 or 16000)");
}

#[test]
fn a_failed_load_changes_nothing() {
    let mut a = loaded();
    a.ingest_vad_spans(&heard(2000));
    let (deltas, vad) = (a.current_deltas_ms(), a.vad_evidence().to_vec());
    assert!(a.load_subtitle("1\nnot a time\n", SubtitleFormat::SubRip).is_err());
    assert_eq!(a.current_deltas_ms(), deltas);
    assert_eq!(a.vad_evidence(), vad);
    assert_eq!(a.line_count(), 3);
}

#[test]
fn formats_are_detected() {
    let mut a = StreamingAligner::new();
    for (bytes, hint, format) in [
        (SRT, "srt", SubtitleFormat::SubRip),
        (ASS, "ssa", SubtitleFormat::SubStationAlpha),
        (ASS, "ass", SubtitleFormat::SubStationAlpha),
        ("{0}{25}hello\n", "sub", SubtitleFormat::MicroDVD),
    ] {
        a.load_subtitle_bytes(bytes.as_bytes(), Some(hint)).unwrap();
        assert_eq!(a.format(), Some(format));
    }
    assert!(matches!(
        a.load_subtitle_bytes(SRT.as_bytes(), Some("vtt")),
        Err(Error::UnknownFormat)
    ));
}

#[test]
fn frame_numbers_are_times_at_25_frames_a_second() {
    let mut a = StreamingAligner::new();
    a.load_subtitle("{25}{50}hello\n", SubtitleFormat::MicroDVD).unwrap();
    let line = &a.corrected_lines()[0];
    assert_eq!((line.original_start_ms, line.original_end_ms), (1000, 2000));
    assert_eq!(line.text.as_deref(), Some("hello"));
}

#[test]
fn ends_of_a_line_are_put_in_order() {
    let mut a = StreamingAligner::new();
    let srt = "1\n00:00:09,000 --> 00:00:04,000\nbackward\n\n";
    a.load_subtitle(srt, SubtitleFormat::SubRip).unwrap();
    let line = &a.corrected_lines()[0];
    assert_eq!((line.original_start_ms, line.original_end_ms), (4000, 9000));
    assert!(a.export_text().unwrap().contains("00:00:04,000 --> 00:00:09,000"));
}

#[test]
fn known_evidence_changes_nothing() {
    let mut a = loaded();
    assert_eq!(a.ingest_vad_spans(&heard(2000)).len(), 3);
    let vad = a.vad_evidence().to_vec();
    assert!(a.ingest_vad_spans(&heard(2000)).is_empty());
    assert!(a.ingest_vad_spans(&[span(3100, 3200), span(7000, 7000)]).is_empty());
    assert!(a.ingest_vad_spans(&[]).is_empty());
    assert_eq!(a.vad_evidence(), vad);
    assert_eq!(a.current_deltas_ms(), vec![2000, 2000, 2000]);
}

#[test]
fn the_order_of_evidence_does_not_matter() {
    let all = heard(1500);
    let mut forward = loaded();
    let mut backward = loaded();
    for s in &all {
        forward.ingest_vad_spans(&[*s]);
    }
    for s in all.iter().rev() {
        backward.ingest_vad_spans(&[*s]);
    }
    assert_eq!(forward.vad_evidence(), backward.vad_evidence());
    assert_eq!(forward.current_deltas_ms(), backward.current_deltas_ms());
    assert_eq!(forward.vad_evidence(), all);
}

#[test]
fn after_a_reset_all_starts_from_scratch() {
    let mut used = loaded();
    used.ingest_vad_spans(&heard(4000));
    used.reset();
    for line in used.corrected_lines() {
        assert_eq!(line.start_ms, line.original_start_ms);
        assert_eq!(line.end_ms, line.original_end_ms);
        assert_eq!(line.delta_ms, 0);
    }
    let mut fresh = loaded();
    assert_eq!(used.ingest_vad_spans(&heard(-500)), fresh.ingest_vad_spans(&heard(-500)));
    assert_eq!(used.current_deltas_ms(), fresh.current_deltas_ms());
}

#[test]
fn changes_are_in_order_and_complete() {
    let mut a = loaded();
    let changes = a.ingest_vad_spans(&heard(-1000));
    let deltas = a.current_deltas_ms();
    assert_eq!(deltas, vec![-1000, -1000, -1000]);
    for (i, c) in changes.iter().enumerate() {
        assert_eq!(c.line_index, i);
        assert_eq!(c.delta_change_ms, -1000);
    }
    assert_eq!(changes.len(), 3);
    assert_eq!((changes[1].old_start_ms, changes[1].new_start_ms), (5000, 4000));
    assert_eq!((changes[1].old_end_ms, changes[1].new_end_ms), (6000, 5000));
}

#[test]
fn evidence_without_a_subtitle_is_kept() {
    let mut a = StreamingAligner::new();
    assert!(a.ingest_vad_spans(&[span(10, 20), span(5, 12)]).is_empty());
    assert_eq!(a.vad_evidence(), [span(5, 20)]);
    a.load_subtitle(SRT, SubtitleFormat::SubRip).unwrap();
    assert!(a.vad_evidence().is_empty());
}

#[test]
fn exports_carry_the_corrected_times() {
    let mut a = loaded();
    a.ingest_vad_spans(&heard(2000));
    assert_eq!(
        a.export_text().unwrap(),
        "1\n00:00:03,000 --> 00:00:05,500\nfirst\n\n2\n00:00:07,000 --> 00:00:08,000\nsecond\n\n3\n00:00:11,000 --> 00:00:14,000\nthird\n\n"
    );
    assert_eq!(a.export().unwrap(), a.export_text().unwrap().into_bytes());
    a.load_subtitle(ASS, SubtitleFormat::SubStationAlpha).unwrap();
    assert_eq!(a.export_text().unwrap(), ASS);
}

#[test]
fn a_new_configuration_is_used_at_the_next_ingest() {
    let mut a = loaded();
    let mut config = exact_config();
    config.vad_mode = 3;
    a.set_config(config);
    assert_eq!(a.config().vad_mode, 3);
    assert_eq!(a.line_count(), 3);
}

#[test]
fn silence_is_no_evidence() {
    let mut a = loaded();
    assert!(a.ingest_pcm(&vec![0u8; 32_000], 16_000, 500).unwrap().is_empty());
    assert!(a.vad_evidence().is_empty());
}

#[test]
fn limits_can_be_asked_for() {
    let a = loaded();
    assert!(a.can_ingest_vad_spans(&heard(0)));
    assert!(!a.can_ingest_vad_spans(&[span(0, i64::MAX)]));
    assert!(a.can_ingest_pcm(&[0; 320], 16_000, 0));
    assert!(!a.can_ingest_pcm(&[0; 320], 16_000, i64::MAX - 5));
    assert!(a.can_ingest_pcm(&[0; 320], 44_100, i64::MAX));
    let mut heavy = loaded();
    let mut config = exact_config();
    config.split_penalty = Binary64::from_bits(1e12f64.to_bits());
    heavy.set_config(config);
    assert!(!heavy.can_ingest_vad_spans(&[]));
}

#[test]
fn speed_has_no_limit_but_that_of_arithmetic() {
    let number = |v: f64| Some(Binary64::from_bits(v.to_bits()));
    let config = |speed| Config { speed_optimization: speed, ..exact_config() };
    for (speed, fine) in [
        (number(0.0), true),
        (number(3.0), true),
        (number(1001.0), true),
        (number(1_400_000_000.5), true),
        (number(1_500_000_000.0), false),
        (number(-1_400_000_000.5), true),
        (number(-1_500_000_000.0), false),
        (number(f64::INFINITY), false),
        (number(f64::NAN), true),
        (number(-1.0), true),
    ] {
        let mut a = loaded();
        a.set_config(config(speed));
        assert_eq!(a.can_ingest_vad_spans(&heard(2000)), fine, "{speed:?}");
        if fine {
            a.ingest_vad_spans(&heard(2000));
            assert_eq!(a.current_deltas_ms().len(), 3);
        }
    }
}

#[test]
fn penalties_have_no_limit_but_that_of_arithmetic() {
    for (penalty, fine) in [
        (0.0, true),
        (-0.0, true),
        (1000.0, true),
        (1001.0, true),
        (2_147_483_648.0, true),
        (2_147_483_649.0, false),
        (-1.0, true),
        (-2_147_483_648.0, true),
        (f64::NAN, true),
        (f64::INFINITY, false),
        (f64::NEG_INFINITY, false),
    ] {
        let mut a = loaded();
        let split_penalty = Binary64::from_bits(f64::to_bits(penalty));
        a.set_config(Config { split_penalty, ..exact_config() });
        assert_eq!(a.can_ingest_vad_spans(&heard(2000)), fine, "{penalty}");
        if fine {
            a.ingest_vad_spans(&heard(2000));
            assert_eq!(a.current_deltas_ms(), vec![2000; 3], "{penalty}");
        }
    }
}

#[test]
fn srt_files_are_exported_block_by_block() {
    let mut a = StreamingAligner::with_config(exact_config());
    let content = "-7\n00:00:01,000 --> 01:00:02,000\none\ntwo\n\n\n5\n100:01:02,003 --> 00:00:00,000\n\n";
    a.load_subtitle(content, SubtitleFormat::SubRip).unwrap();
    assert_eq!(
        a.export_text().unwrap(),
        "-7\n00:00:01,000 --> 01:00:02,000\none\ntwo\n\n5\n00:00:00,000 --> 100:01:02,003\n\n\n"
    );
    // of a negative time every part has its sign
    let mut a = StreamingAligner::with_config(exact_config());
    let content = "1\n-0:00:-1,-5 --> 00:00:00,-3723045\nx\n\n";
    a.load_subtitle(content, SubtitleFormat::SubRip).unwrap();
    assert_eq!(a.export_text().unwrap(), "1\n-1:-2:-3,-45 --> 00:00:-1,-05\nx\n\n");
}

#[test]
fn letters_read_back_where_there_are_enough_of_them() {
    for text in ["Füße für fünf Läufer", "привет\nмир", "日本語の字幕", "é\u{200b}é\u{a0}é\ré\u{85}é"] {
        let content = format!("1\n00:00:01,000 --> 00:00:02,000\n{text}\n\n");
        let mut a = StreamingAligner::with_config(exact_config());
        a.load_subtitle(&content, SubtitleFormat::SubRip).unwrap();
        assert_eq!(a.corrected_lines()[0].text.as_deref(), Some(text));
        a.ingest_vad_spans(&[span(4000, 5000)]);
        let mut again = StreamingAligner::new();
        again.load_subtitle_bytes(&a.export().unwrap(), Some("srt")).unwrap();
        assert_eq!(again.corrected_lines()[0].start_ms, 4000);
        assert_eq!(again.corrected_lines()[0].text.as_deref(), Some(text));
    }
    // a single letter of Latin-1 does not come back
    let mut a = StreamingAligner::with_config(exact_config());
    let content = b"1\n00:00:01,000 --> 00:00:02,000\ncaf\xe9 au lait\n\n";
    a.load_subtitle_bytes(content, Some("srt")).unwrap();
    assert_eq!(a.corrected_lines()[0].text.as_deref(), Some("café au lait"));
    let mut again = StreamingAligner::new();
    again.load_subtitle_bytes(&a.export().unwrap(), Some("srt")).unwrap();
    assert_ne!(again.corrected_lines()[0].text.as_deref(), Some("café au lait"));
}

#[test]
fn exported_srt_reads_as_the_corrected_lines() {
    let mut a = loaded();
    a.ingest_vad_spans(&heard(2000));
    let mut again = StreamingAligner::new();
    assert_eq!(again.load_subtitle_bytes(&a.export().unwrap(), Some("srt")).unwrap(), 3);
    for (line, corrected) in again.corrected_lines().iter().zip(a.corrected_lines()) {
        assert_eq!(line.original_start_ms, corrected.start_ms);
        assert_eq!(line.original_end_ms, corrected.end_ms);
        assert_eq!(line.text, corrected.text);
    }
}

#[test]
fn frame_counts_are_exported_with_their_texts() {
    let mut a = StreamingAligner::with_config(exact_config());
    assert_eq!(a.load_subtitle("{25}{50}one|two\n", SubtitleFormat::MicroDVD).unwrap(), 2);
    assert_eq!(a.export_text().unwrap(), "{25}{50}one|two");
}

#[test]
fn simple_texts_read_back_as_they_are() {
    let mut x: u64 = 11;
    let mut next = |n: u64| {
        x = x.wrapping_mul(6364136223846793005).wrapping_add(1442695040888963407);
        (x >> 33) % n
    };
    for _ in 0..300 {
        let mut content = String::new();
        let count = 1 + next(5);
        for i in 0..count {
            let start = next(1 << 40);
            content.push_str(&format!("{}\n", next(1000) as i64 - 500));
            content.push_str(&format!("0:0:0,{start} --> 0:-{}:9,{}\n", next(99), start + i));
            for _ in 0..next(3) {
                let line: String = (0..1 + next(6))
                    .map(|_| char::from(next(128) as u8))
                    .filter(|c| !matches!(c, '\u{1b}' | '\n'))
                    .collect();
                content.push_str(&format!("{line}!\n"));
            }
            content.push('\n');
        }
        let mut a = StreamingAligner::with_config(exact_config());
        let n = a.load_subtitle(&content, SubtitleFormat::SubRip).unwrap();
        assert_eq!(n as u64, count);
        let mut again = StreamingAligner::new();
        assert_eq!(again.load_subtitle_bytes(&a.export().unwrap(), Some("srt")).unwrap(), n);
        for (line, corrected) in again.corrected_lines().iter().zip(a.corrected_lines()) {
            assert_eq!(line.original_start_ms, corrected.start_ms);
            assert_eq!(line.original_end_ms, corrected.end_ms);
            assert_eq!(line.text, corrected.text);
        }
    }
}

#[test]
fn any_speed_gives_every_line_a_shift_in_range() {
    let mut x: u64 = 17;
    let mut next = |n: u64| {
        x = x.wrapping_mul(6364136223846793005).wrapping_add(1442695040888963407);
        ((x >> 33) % n) as i64
    };
    for round in 0..400 {
        let speed = [0.0, 0.5, 1.0, -10.0, 1e3, -1e5, 1e7, 5e7][round % 8];
        let penalty = [7.0, -7.0, 0.0, 2000.0, -1e6, 1e9, 1.0][round % 7];
        let lines = 1 + next(40);
        let mut content = String::new();
        let (mut first, mut last) = (i64::MAX, 0);
        for i in 0..lines {
            let start = next(100_000);
            let end = start + next(4000);
            first = first.min(start);
            last = last.max(end);
            content.push_str(&format!("{}\n0:0:0,{start} --> 0:0:0,{end}\nx\n\n", i + 1));
        }
        let mut a = StreamingAligner::with_config(Config {
            split_penalty: Binary64::from_bits(f64::to_bits(penalty)),
            speed_optimization: Some(Binary64::from_bits(f64::to_bits(speed))),
            ..exact_config()
        });
        a.load_subtitle(&content, SubtitleFormat::SubRip).unwrap();
        let heard: Vec<TimeSpan> = (0..1 + next(40))
            .map(|_| {
                let start = next(100_000);
                span(start, start + next(4000))
            })
            .collect();
        let from = heard.iter().map(|s| s.start).min().unwrap();
        let to = heard.iter().map(|s| s.end).max().unwrap();
        assert!(a.can_ingest_vad_spans(&heard));
        a.ingest_vad_spans(&heard);
        let deltas = a.current_deltas_ms();
        assert_eq!(deltas.len() as i64, lines);
        let reach = (to - from) + (last - first) + 2 * 200_000;
        assert!(deltas.iter().all(|d| d.abs() <= reach), "{deltas:?}");
    }
}
