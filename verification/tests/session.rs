//! Sessions with the engine: what it answers, what it writes, and what holds
//! over several calls.

use alass_stream::binary64::Binary64;
use alass_stream::config::{engine_config_to_proto, proto_config_to_engine};
use alass_stream::conflict::insert_all;
use alass_stream::engine::{AlignmentEngine, Anchor, EngineConfig, ProcessedChunk};
use alass_stream::median::median;
use alass_stream::proto;
use alass_stream::session::can_load;
use alass_stream::vad::{mode_from_u8, run_vad, spans_of_flags, VadMode};
use alass_stream::{pcm_to_spans, TimeSpan};

const SRT: &str = "1\n00:00:01,000 --> 00:00:04,000\nHello\n\n2\n00:00:05,000 --> 00:00:08,000\nWorld\n\n";

const ASS: &str = "[Events]\nFormat: Layer, Start, End, Style, Name, MarginL, MarginR, MarginV, Effect, Text\nDialogue: 0,0:00:01.00,0:00:04.00,Default,,0,0,0,,Hello\nDialogue: 0,0:00:05.00,0:00:08.00,Default,,0,0,0,,World\n";

fn double(v: f64) -> Binary64 {
    Binary64::from_bits(v.to_bits())
}

fn anchor(id: u128, film_position_ms: i64, delta_ms: i64, confidence: f64) -> Anchor {
    Anchor {
        id,
        film_position_ms,
        delta_ms,
        confidence: double(confidence),
        line_start: 0,
        line_end: 1,
        chunk_id: 0,
    }
}

fn chunk(start: i64, end: i64, anchor_ids: Vec<u128>) -> ProcessedChunk {
    ProcessedChunk {
        id: 1,
        film_start_ms: start,
        film_end_ms: end,
        pcm_data: Vec::new(),
        sample_rate: 16000,
        anchor_ids,
    }
}

fn engine(content: &str, format: &str) -> AlignmentEngine {
    let mut eng = AlignmentEngine::new(EngineConfig::default());
    eng.load_subtitle(content, format).unwrap();
    eng
}

/// A tone where somebody speaks, and silence elsewhere.
fn speech(segments: &[(usize, usize)], total_ms: usize) -> Vec<u8> {
    let mut samples = vec![0i16; 16 * total_ms];
    for &(start, end) in segments {
        for i in 16 * start..16 * end {
            let t = i as f64 / 16000.0;
            samples[i] = (10_000.0 * (2.0 * std::f64::consts::PI * 400.0 * t).sin()) as i16;
        }
    }
    samples.iter().flat_map(|s| s.to_le_bytes()).collect()
}

#[test]
fn refusals_have_their_reasons() {
    let mut eng = AlignmentEngine::new(EngineConfig::default());
    assert_eq!(eng.load_subtitle("x", "vtt").unwrap_err(), "unsupported format: vtt");
    let broken = eng.load_subtitle("1\nnot a time\n", "srt").unwrap_err();
    assert!(broken.starts_with("parse error: ") && broken.len() > 13, "{broken}");
    assert_eq!(eng.ingest_chunk(vec![], 16000, 0, 1).unwrap_err(), "no subtitle loaded");
    eng.load_subtitle(SRT, "srt").unwrap();
    assert_eq!(
        eng.ingest_chunk(vec![], 44100, 0, 1).unwrap_err(),
        "sample_rate must be 8000 or 16000"
    );
}

#[test]
fn a_refused_load_changes_nothing() {
    let mut eng = engine(SRT, "srt");
    eng.anchors.push(anchor(5, 1000, 10, 0.5));
    assert!(eng.load_subtitle("x", "vtt").is_err());
    assert!(eng.load_subtitle("1\nnot a time\n", "srt").is_err());
    assert_eq!(eng.anchors.len(), 1);
    assert_eq!(eng.subtitle.as_ref().unwrap().line_texts, vec!["Hello", "World"]);
}

#[test]
fn without_a_subtitle_there_is_nothing_to_write() {
    let eng = AlignmentEngine::new(EngineConfig::default());
    assert!(eng.get_corrected_subtitle().is_none());
    assert!(eng.export_srt().is_none());
    assert_eq!(eng.try_export_srt(), Some(None));
    assert_eq!(eng.try_get_corrected_subtitle(), Some(None));
}

#[test]
fn lines_that_end_before_they_start_are_turned_around() {
    let eng = engine("1\n00:00:04,000 --> 00:00:01,000\nHello\n\n", "srt");
    assert_eq!(eng.subtitle.as_ref().unwrap().original_timespans, vec![(1000, 4000)]);
}

#[test]
fn a_subtitle_is_written_in_its_own_format() {
    let mut eng = engine(ASS, "ssa");
    eng.anchors.push(anchor(1, 0, 2500, 0.9));
    assert_eq!(eng.recompute_all_and_diff().len(), 2);
    let (text, format) = eng.get_corrected_subtitle().unwrap();
    assert_eq!(format, "ssa");
    assert!(text.contains("Dialogue: 0,0:00:03.50,0:00:06.50,Default,,0,0,0,,Hello"), "{text}");
    assert_eq!(eng.try_get_corrected_subtitle(), Some(Some((text, format))));
    let mut eng = engine(SRT, "srt");
    eng.anchors.push(anchor(1, 0, 2500, 0.9));
    eng.recompute_all_and_diff();
    let (text, format) = eng.get_corrected_subtitle().unwrap();
    assert_eq!(format, "srt");
    assert_eq!(
        text,
        "1\n00:00:03,500 --> 00:00:06,500\nHello\n\n2\n00:00:07,500 --> 00:00:10,500\nWorld\n\n"
    );
    assert_eq!(eng.export_srt(), Some(text));
}

#[test]
fn other_formats_are_written_as_subrip_line_by_line() {
    let mut eng = engine(ASS, "ass");
    let sub = eng.subtitle.as_mut().unwrap();
    sub.line_texts[1] = "World\n".to_string();
    sub.corrected_start_ms[0] = -1000;
    let text = "1\n-00:00:01,000 --> 00:00:04,000\nHello\n\n2\n00:00:05,000 --> 00:00:08,000\nWorld\n\n";
    assert_eq!(eng.export_srt().unwrap(), text);
    assert_eq!(eng.try_export_srt(), Some(Some(text.to_string())));
}

#[test]
fn content_that_does_not_fit_the_lines_cannot_be_written() {
    let mut eng = engine(SRT, "srt");
    assert!(eng.is_exportable("srt"));
    eng.subtitle.as_mut().unwrap().raw_content = b"1\n00:00:01,000 --> 00:00:02,000\nx\n\n".to_vec();
    assert!(!eng.is_exportable("srt"));
    assert_eq!(eng.try_export_srt(), None);
    assert_eq!(eng.try_get_corrected_subtitle(), None);
}

#[test]
fn what_cannot_be_read_can_be_told_before() {
    assert!(can_load(SRT, "srt"));
    assert!(can_load("anything\u{1b}", "vtt"));
    assert!(!can_load("a\u{1b}b", "srt"));
    assert!(!can_load("[Events]\n Format: Start\n", "ass"));
}

#[test]
fn a_second_recomputation_changes_nothing() {
    let mut eng = engine(SRT, "srt");
    eng.anchors.push(anchor(1, 1000, 100, 0.25));
    eng.anchors.push(anchor(2, 8000, 800, 0.5));
    let changes = eng.recompute_all_and_diff();
    assert_eq!(changes.len(), 2);
    assert_eq!((changes[0].old_start_ms, changes[0].new_start_ms), (1000, 1100));
    assert_eq!((changes[0].old_end_ms, changes[0].new_end_ms), (4000, 4400));
    assert_eq!(changes[0].delta_change_ms, 250);
    assert_eq!(changes[0].confidence, double(0.25));
    assert_eq!((changes[1].line_index, changes[1].confidence), (1, double(0.5)));
    assert!(eng.recompute_all_and_diff().is_empty());
}

#[test]
fn a_change_of_odd_size_is_halved_toward_zero() {
    let mut eng = engine(SRT, "srt");
    eng.anchors.push(anchor(1, 1000, -1, 0.5));
    eng.anchors.push(anchor(2, 4000, -4, 0.5));
    let changes = eng.recompute_all_and_diff();
    assert_eq!(changes[0].delta_change_ms, -2);
}

#[test]
fn stitched_audio_stands_alone() {
    let mut eng = engine(SRT, "srt");
    eng.chunks = vec![
        chunk(0, 1000, vec![7]),
        chunk(40_000, 50_000, vec![8]),
        ProcessedChunk { sample_rate: 8000, ..chunk(2000, 3000, vec![9]) },
    ];
    eng.anchors = vec![anchor(7, 10, 0, 0.5), anchor(9, 20, 0, 0.5), anchor(8, 30, 0, 0.5)];
    let (pcm, start, end, evicted) = eng.stitch_check(vec![1, 2], 3000, 4000, 16000);
    assert_eq!((start, end, evicted), (0, 4000, true));
    assert_eq!(pcm.len(), 2 * 16 * 2000 + 2);
    assert!(pcm[..64_000].iter().all(|b| *b == 0));
    assert_eq!(pcm[64_000..], [1, 2]);
    assert_eq!(eng.anchors.iter().map(|a| a.id).collect::<Vec<_>>(), vec![9, 8]);
    assert_eq!(eng.chunks.len(), 2);
    let (_, start, end, evicted) = eng.stitch_check(vec![1, 2], 20_000, 30_000, 16000);
    assert_eq!((start, end, evicted), (20_000, 30_000, false));
    assert_eq!(eng.anchors.len(), 2);
}

#[test]
fn new_anchors_come_all_or_none() {
    let mut eng = engine(SRT, "srt");
    eng.anchors = vec![anchor(1, 0, 0, 0.2), anchor(2, 100_000, 0, 0.8)];
    let weak = [anchor(3, 1000, 5, 0.5), anchor(4, 99_000, 5, 0.5)];
    assert!(eng.resolve_conflicts(&weak).is_none());
    let strong = [anchor(3, 1000, 5, 0.9), anchor(4, 99_000, 5, 0.9)];
    let ids = eng.resolve_conflicts(&strong).unwrap();
    assert_eq!(ids.len(), 2);
    assert!(ids.contains(&1) && ids.contains(&2));
    let equal = [anchor(3, 1000, 5, 0.2)];
    assert!(eng.resolve_conflicts(&equal).is_none());
    let same_place = [anchor(3, 0, 5, 0.1)];
    assert!(eng.resolve_conflicts(&same_place).unwrap().is_empty());
}

#[test]
fn only_the_nearest_neighbours_are_rivals() {
    let mut eng = engine(SRT, "srt");
    eng.anchors = vec![anchor(1, 0, 0, 0.9), anchor(2, 500, 0, 0.1), anchor(3, 500, 0, 0.2)];
    let ids = eng.resolve_conflicts(&[anchor(9, 1000, 0, 0.5)]).unwrap();
    assert_eq!(ids.into_iter().collect::<Vec<_>>(), vec![3]);
}

#[test]
fn anchors_are_inserted_in_order() {
    let mut anchors = vec![anchor(1, 10, 0, 0.5), anchor(2, 20, 0, 0.5)];
    insert_all(&mut anchors, &vec![anchor(3, 20, 0, 0.5), anchor(4, 5, 0, 0.5), anchor(5, 30, 0, 0.5)]);
    assert_eq!(anchors.iter().map(|a| a.id).collect::<Vec<_>>(), vec![4, 1, 3, 2, 5]);
}

#[test]
fn a_settled_alignment_leaves_anchors_and_a_chunk() {
    let mut eng = engine(SRT, "srt");
    let changes = eng.settle(&vec![0, 1], &vec![300, 310], double(0.7), 0, 9000, 16000, false);
    assert_eq!(changes.len(), 2);
    assert_eq!(changes[0].new_start_ms, 1310);
    let a = eng.anchors[0];
    assert_eq!((a.film_position_ms, a.delta_ms, a.line_start, a.line_end), (4500, 310, 0, 2));
    assert_eq!(a.confidence, double(0.7));
    assert_eq!(eng.get_anchors()[0].confidence, double(0.7f32 as f64));
    assert_eq!(changes[0].confidence, double(0.7f32 as f64));
    let history = eng.get_chunk_history();
    assert_eq!(history.len(), 1);
    assert_eq!((history[0].film_start_ms, history[0].film_end_ms), (0, 9000));
    let infos = eng.get_anchors();
    assert_eq!(history[0].anchor_ids, vec![infos[0].id.clone()]);
    assert_eq!(infos[0].chunk_id, history[0].id);
    assert_eq!(infos[0].id, uuid::Uuid::from_u128(a.id).to_string());
    assert_eq!(uuid::Uuid::parse_str(&infos[0].id).unwrap().get_version_num(), 4);
    assert!(eng.chunks[0].pcm_data.is_empty());
}

#[test]
fn a_poor_score_is_dropped() {
    let mut eng = engine(SRT, "srt");
    assert!(eng.settle(&vec![0], &vec![300], double(0.01), 0, 9000, 16000, false).is_empty());
    assert!(eng.anchors.is_empty() && eng.chunks.is_empty());
    let sub = eng.subtitle.as_mut().unwrap();
    sub.corrected_start_ms[0] = 1;
    let changes = eng.settle(&vec![0], &vec![300], double(0.01), 0, 9000, 16000, true);
    assert_eq!(changes.len(), 1);
    assert_eq!((changes[0].old_start_ms, changes[0].new_start_ms), (1, 1000));
}

#[test]
fn a_lost_conflict_leaves_the_old_anchors() {
    let mut eng = engine(SRT, "srt");
    eng.anchors.push(anchor(1, 1000, 50, 0.9));
    assert!(eng.settle(&vec![0, 1], &vec![300, 300], double(0.5), 0, 9000, 16000, false).is_empty());
    assert_eq!(eng.anchors.len(), 1);
    assert!(eng.chunks.is_empty());
}

#[test]
fn chunks_that_touch_are_stitched_and_their_anchors_replaced() {
    let mut eng = engine(SRT, "srt");
    let first = speech(&[(2000, 5000), (6000, 9000)], 12_000);
    assert!(eng.can_ingest(&first, 16000, 0, 12_000));
    assert_eq!(eng.ingest_chunk(first.clone(), 16000, 0, 12_000).unwrap().len(), 2);
    assert_eq!(eng.get_chunk_history().len(), 1);
    let ids: Vec<u128> = eng.anchors.iter().map(|a| a.id).collect();
    eng.ingest_chunk(first, 16000, 0, 12_000).unwrap();
    assert_eq!(eng.get_chunk_history().len(), 1);
    assert!(eng.anchors.iter().all(|a| !ids.contains(&a.id)));
    for a in &eng.anchors {
        assert!(eng.chunks.iter().any(|c| c.anchor_ids.contains(&a.id)));
    }
}

#[test]
fn a_subtitle_can_be_written_whatever_happened_to_its_times() {
    let mut eng = engine(SRT, "srt");
    eng.ingest_chunk(speech(&[(2000, 5000), (6000, 9000)], 12_000), 16000, 0, 12_000).unwrap();
    assert!(eng.is_exportable("srt"));
    assert!(eng.try_export_srt().unwrap().unwrap().contains("Hello"));
    eng.reset();
    assert!(eng.try_export_srt().unwrap().unwrap().contains("00:00:01,000 --> 00:00:04,000"));
}

#[test]
fn limits_are_checked_before_audio_is_taken_in() {
    let mut eng = engine(SRT, "srt");
    assert!(eng.can_ingest(&vec![], 16000, 0, 1000));
    assert!(!eng.can_ingest(&vec![], 16000, i64::MIN, 1000));
    assert!(eng.can_ingest(&vec![], 44100, i64::MIN, 1000));
    eng.config.stitch_tolerance_ms = 1 << 40;
    eng.chunks.push(chunk(0, 10, vec![]));
    assert!(eng.can_ingest(&vec![], 16000, 5000, 6000));
    assert!(!eng.can_ingest(&vec![], 16000, 1 << 32, 1 << 33));
    eng.config.split_penalty = double(-1.0);
    assert!(eng.can_ingest(&vec![], 16000, 0, 1000));
    eng.config.split_penalty = double(1e12);
    assert!(!eng.can_ingest(&vec![], 16000, 0, 1000));
}

#[test]
fn medians_are_in_the_upper_middle() {
    assert_eq!(median(&[5, 1, 9], 0, 3), 5);
    assert_eq!(median(&[5, 1, 9, 7], 0, 4), 7);
    assert_eq!(median(&[100, 4, 4, -3], 1, 4), 4);
}

#[test]
fn groups_are_parted_by_jumps() {
    let eng = engine(SRT, "srt");
    let anchors = eng.extract_anchors(&[0, 499, 998, 1498], &[0, 0, 1, 1], double(0.5), 3);
    assert_eq!(anchors.len(), 2);
    assert_eq!((anchors[0].line_start, anchors[0].line_end, anchors[0].delta_ms), (0, 2, 499));
    assert_eq!((anchors[1].line_start, anchors[1].line_end, anchors[1].delta_ms), (1, 2, 1498));
    assert_eq!(anchors[1].film_position_ms, 6500);
    assert!(anchors[0].id != anchors[1].id);
}

#[test]
fn speech_is_found_where_it_is() {
    let pcm = speech(&[(1000, 3000)], 4000);
    let spans = pcm_to_spans(&pcm, 16000, 500, VadMode::Quality);
    assert!(!spans.is_empty());
    assert_eq!(run_vad(&pcm, 16000, 500, 0), spans);
    assert!(spans.iter().all(|s| s.start >= 1400 && s.end <= 3800 && s.start < s.end));
    assert!(run_vad(&pcm, 44100, 0, 0).is_empty());
    let strict = pcm_to_spans(&pcm, 16000, 500, mode_from_u8(9));
    assert_ne!(strict, spans);
}

#[test]
fn runs_of_speech_become_spans() {
    let flags = [true, true, false, true, false, false, true];
    assert_eq!(
        spans_of_flags(&flags, 100),
        vec![TimeSpan::new(100, 120), TimeSpan::new(130, 140), TimeSpan::new(160, 170)]
    );
    assert!(spans_of_flags(&[false; 5], 0).is_empty());
}

#[test]
fn plain_messages_take_zero_for_unset() {
    let zero = proto::PlainEngineConfig {
        quality_threshold: double(0.0),
        split_penalty: 0,
        min_anchor_spacing_ms: 0,
        max_drift_ms: 0,
        split_threshold_ms: 0,
        sweep_step_ms: 0,
        coverage_buffer_ms: 0,
        stitch_tolerance_ms: 0,
    };
    assert_eq!(proto_config_to_engine(zero), EngineConfig::default());
    let set = proto::PlainEngineConfig {
        quality_threshold: double(0.25),
        split_penalty: 9,
        stitch_tolerance_ms: -4,
        ..zero
    };
    let config = proto_config_to_engine(set);
    assert_eq!(config.quality_threshold, double(0.25));
    assert_eq!(config.split_penalty, double(9.0));
    assert_eq!(config.stitch_tolerance_ms, -4);
    assert_eq!(config.max_drift_ms, 30_000);
    let back = engine_config_to_proto(&config);
    assert_eq!((back.split_penalty, back.max_drift_ms), (9, 30_000));
    let mut wide = config;
    wide.max_drift_ms = (1 << 32) + 5;
    wide.split_penalty = double(7.9);
    let back = engine_config_to_proto(&wide);
    assert_eq!((back.split_penalty, back.max_drift_ms), (7, 5));
}

#[test]
fn thresholds_travel_as_single_precision() {
    let config = EngineConfig::default();
    assert_eq!(config.quality_threshold, double(0.05));
    let message = proto::EngineConfig::from(&config);
    assert_eq!(message.quality_threshold, Some(double(0.05f32 as f64)));
    assert_eq!(message.quality_threshold.unwrap().to_bits(), 0x3fa9_9999_a000_0000);
    let back = EngineConfig::from(&message);
    assert_eq!(back.quality_threshold, double(0.05f32 as f64));
    assert_eq!(EngineConfig { quality_threshold: config.quality_threshold, ..back }, config);
    assert_eq!(proto::EngineConfig::from(&back), message);
    let plain = engine_config_to_proto(&config);
    assert_eq!(plain.quality_threshold, double(0.05f32 as f64));
}

#[test]
fn a_penalty_of_minus_zero_comes_back_as_zero() {
    let config = EngineConfig { split_penalty: double(-0.0), ..EngineConfig::default() };
    let back = EngineConfig::from(&proto::EngineConfig::from(&config));
    assert_eq!(back.split_penalty, double(0.0));
    assert_eq!(back.max_drift_ms, config.max_drift_ms);
    let config = EngineConfig { split_penalty: double(-3.0), ..config };
    let back = EngineConfig::from(&proto::EngineConfig::from(&config));
    assert_eq!(back.split_penalty, double(-3.0));
}

#[test]
fn every_anchor_is_owned_by_one_chunk() {
    let content: String = (0..6)
        .map(|i| format!("{}\n00:00:{:02},000 --> 00:00:{:02},000\nx\n\n", i + 1, 5 * i + 1, 5 * i + 3))
        .collect();
    let mut config = EngineConfig::default();
    config.quality_threshold = double(0.0);
    let mut eng = AlignmentEngine::new(config);
    eng.load_subtitle(&content, "srt").unwrap();
    for (start, segments) in [
        (0i64, [(1500usize, 3500usize), (6500, 8500)]),
        (14_000, [(2500, 4500), (7500, 9500)]),
        (60_000, [(500, 1500), (2500, 3500)]),
    ] {
        let pcm = speech(&segments, 10_000);
        let before = eng.chunks.len();
        eng.ingest_chunk(pcm, 16000, start, start + 10_000).unwrap();
        assert!(eng.chunks.len() <= before + 1);
        for c in &eng.chunks {
            assert!(c.pcm_data.is_empty());
        }
        for (i, a) in eng.anchors.iter().enumerate() {
            let owners: Vec<_> = eng.chunks.iter().filter(|c| c.id == a.chunk_id).collect();
            assert_eq!(owners.len(), 1);
            assert!(owners[0].anchor_ids.contains(&a.id));
            let knowing = eng.chunks.iter().filter(|c| c.anchor_ids.contains(&a.id)).count();
            assert_eq!(knowing, 1);
            for b in &eng.anchors[i + 1..] {
                assert_ne!(a.id, b.id);
                assert!(a.film_position_ms <= b.film_position_ms);
            }
        }
    }
    assert!(!eng.anchors.is_empty());
}

#[test]
fn corrected_srt_reads_as_the_corrected_lines() {
    let mut eng = engine(SRT, "srt");
    eng.anchors.push(anchor(7, 1000, 1500, 0.9));
    eng.recompute_all_and_diff();
    let (text, format) = eng.get_corrected_subtitle().unwrap();
    assert_eq!(format, "srt");
    let again = engine(&text, "srt");
    let (sub, corrected) = (again.subtitle.unwrap(), eng.subtitle.unwrap());
    assert_eq!(sub.original_timespans.len(), 2);
    for (i, span) in sub.original_timespans.iter().enumerate() {
        assert_eq!(span.0, corrected.corrected_start_ms[i]);
        assert_eq!(span.1, corrected.corrected_end_ms[i]);
        assert_eq!(sub.line_texts[i], corrected.line_texts[i]);
    }
    assert_eq!(sub.original_timespans[0], (2500, 5500));
}
