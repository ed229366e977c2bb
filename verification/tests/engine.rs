//! The engine: loading, stitching, anchors, corrected times, and whole
//! sessions from audio to export.

use alass_stream::binary64::Binary64;
use alass_stream::engine::{
    format_srt_time, AlignmentEngine, Anchor, EngineConfig, ProcessedChunk,
};
use alass_stream::ids::Id;
use alass_stream::proto;
use alass_stream::time_span::TimeSpan;
use alass_stream::vad::run_vad;

fn new_id() -> Id {
    uuid::Uuid::new_v4().as_u128()
}

fn double(v: f64) -> Binary64 {
    Binary64::from_bits(v.to_bits())
}

const SAMPLE_SRT: &str = "\
1
00:00:01,000 --> 00:00:04,000
Hello world

2
00:00:05,000 --> 00:00:08,000
Second line

3
00:00:10,000 --> 00:00:13,000
Third line

4
00:00:20,000 --> 00:00:23,000
Fourth line

5
00:00:30,000 --> 00:00:33,000
Fifth line
";

fn make_engine() -> AlignmentEngine {
    AlignmentEngine::new(EngineConfig::default())
}

fn load_sample(engine: &mut AlignmentEngine) {
    engine.load_subtitle(SAMPLE_SRT, "srt").unwrap();
}

// -- E2E helpers --------------------------------------------------------

/// Generate synthetic 16-bit LE mono PCM where `speech_segments` contain
/// a 400 Hz sine wave and everything else is silence.  The WebRTC VAD
/// (mode 0) reliably classifies the sine-wave frames as speech.
///
/// `speech_segments` are `(start_ms, end_ms)` **relative to the start of
/// the buffer** (i.e. sample 0 corresponds to ms 0).
fn make_speech_pcm(
    sample_rate: i32,
    speech_segments: &[(i64, i64)],
    total_duration_ms: i64,
) -> Vec<u8> {
    let total_samples = (sample_rate as i64 * total_duration_ms / 1000) as usize;
    let mut samples = vec![0i16; total_samples];

    let freq = 400.0_f64;
    let amplitude = 10_000.0_f64;

    for &(start_ms, end_ms) in speech_segments {
        let start_sample = (sample_rate as i64 * start_ms / 1000) as usize;
        let end_sample = (sample_rate as i64 * end_ms / 1000) as usize;
        let end_sample = end_sample.min(total_samples);
        for i in start_sample..end_sample {
            let t = i as f64 / sample_rate as f64;
            samples[i] =
                (amplitude * (2.0 * std::f64::consts::PI * freq * t).sin()) as i16;
        }
    }

    let mut bytes = Vec::with_capacity(total_samples * 2);
    for s in &samples {
        bytes.extend_from_slice(&s.to_le_bytes());
    }
    bytes
}

/// Build a valid SRT string from `(start_ms, end_ms, text)` tuples.
fn make_srt(segments: &[(i64, i64, &str)]) -> String {
    let mut out = String::new();
    for (i, &(start, end, text)) in segments.iter().enumerate() {
        out.push_str(&format!("{}\n", i + 1));
        out.push_str(&format!(
            "{} --> {}\n",
            format_srt_time(start),
            format_srt_time(end),
        ));
        out.push_str(text);
        out.push_str("\n\n");
    }
    out
}

/// Panics if `|actual - expected| > tolerance`.
fn assert_within(actual: i64, expected: i64, tolerance: i64, label: &str) {
    assert!(
        (actual - expected).abs() <= tolerance,
        "{}: expected ~{} +/- {}, got {}",
        label,
        expected,
        tolerance,
        actual,
    );
}

// -- LoadSubtitle -------------------------------------------------------

#[test]
fn load_subtitle_parses_srt() {
    let mut eng = make_engine();
    let (count, fmt) = eng.load_subtitle(SAMPLE_SRT, "srt").unwrap();
    assert_eq!(count, 5);
    assert_eq!(fmt, "srt");
}

#[test]
fn load_subtitle_stores_timespans() {
    let mut eng = make_engine();
    load_sample(&mut eng);

    let sub = eng.subtitle.as_ref().unwrap();
    assert_eq!(sub.original_timespans[0], (1000, 4000));
    assert_eq!(sub.original_timespans[1], (5000, 8000));
    assert_eq!(sub.original_timespans[4], (30000, 33000));
}

#[test]
fn load_subtitle_rejects_unknown_format() {
    let mut eng = make_engine();
    assert!(eng.load_subtitle("data", "vtt").is_err());
}

#[test]
fn load_subtitle_clears_previous_state() {
    let mut eng = make_engine();
    load_sample(&mut eng);

    // Manually insert an anchor and a chunk
    eng.anchors.push(Anchor {
        id: new_id(),
        film_position_ms: 5000,
        delta_ms: 100,
        confidence: double(0.9),
        line_start: 0,
        line_end: 1,
        chunk_id: new_id(),
    });
    eng.chunks.push(ProcessedChunk {
        id: new_id(),
        film_start_ms: 0,
        film_end_ms: 10000,
        pcm_data: vec![],
        sample_rate: 16000,
        anchor_ids: vec![],
    });

    // Reload — should clear
    load_sample(&mut eng);
    assert!(eng.anchors.is_empty());
    assert!(eng.chunks.is_empty());
}

// -- Reset --------------------------------------------------------------

#[test]
fn reset_restores_original_times() {
    let mut eng = make_engine();
    load_sample(&mut eng);

    // Manually shift corrected times
    let sub = eng.subtitle.as_mut().unwrap();
    sub.corrected_start_ms[0] = 9999;
    sub.corrected_end_ms[0] = 9999;

    eng.anchors.push(Anchor {
        id: new_id(),
        film_position_ms: 5000,
        delta_ms: 100,
        confidence: double(0.9),
        line_start: 0,
        line_end: 1,
        chunk_id: new_id(),
    });

    eng.reset();

    let sub = eng.subtitle.as_ref().unwrap();
    assert_eq!(sub.corrected_start_ms[0], 1000);
    assert_eq!(sub.corrected_end_ms[0], 4000);
    assert!(eng.anchors.is_empty());
}

// -- Warp function (interpolate_delta_for) ------------------------------

#[test]
fn warp_no_anchors_returns_zero() {
    let eng = make_engine();
    assert_eq!(eng.interpolate_delta_for(5000), 0);
}

#[test]
fn warp_single_anchor_flat() {
    let mut eng = make_engine();
    eng.anchors.push(Anchor {
        id: new_id(),
        film_position_ms: 10_000,
        delta_ms: 3000,
        confidence: double(0.8),
        line_start: 0,
        line_end: 1,
        chunk_id: new_id(),
    });

    // Before, at, and after the sole anchor — all get the same delta
    assert_eq!(eng.interpolate_delta_for(0), 3000);
    assert_eq!(eng.interpolate_delta_for(10_000), 3000);
    assert_eq!(eng.interpolate_delta_for(50_000), 3000);
}

#[test]
fn warp_two_anchors_interpolates() {
    let mut eng = make_engine();
    let cid = new_id();
    eng.anchors.push(Anchor {
        id: new_id(),
        film_position_ms: 10_000,
        delta_ms: 1000,
        confidence: double(0.8),
        line_start: 0,
        line_end: 1,
        chunk_id: cid,
    });
    eng.anchors.push(Anchor {
        id: new_id(),
        film_position_ms: 20_000,
        delta_ms: 3000,
        confidence: double(0.8),
        line_start: 1,
        line_end: 2,
        chunk_id: cid,
    });

    // Before first → flat at first delta
    assert_eq!(eng.interpolate_delta_for(0), 1000);
    // At first anchor
    assert_eq!(eng.interpolate_delta_for(10_000), 1000);
    // Midpoint → linear interpolation
    assert_eq!(eng.interpolate_delta_for(15_000), 2000);
    // At second anchor
    assert_eq!(eng.interpolate_delta_for(20_000), 3000);
    // After last → flat at last delta
    assert_eq!(eng.interpolate_delta_for(99_000), 3000);
}

#[test]
fn warp_three_anchors_piecewise() {
    let mut eng = make_engine();
    let cid = new_id();
    // 10s → +1s, 20s → +3s, 40s → +1s
    for (pos, delta) in [(10_000, 1000), (20_000, 3000), (40_000, 1000)] {
        eng.anchors.push(Anchor {
            id: new_id(),
            film_position_ms: pos,
            delta_ms: delta,
            confidence: double(0.8),
            line_start: 0,
            line_end: 1,
            chunk_id: cid,
        });
    }

    // Between anchor 1-2: linear from 1000→3000 over 10s
    assert_eq!(eng.interpolate_delta_for(15_000), 2000);
    // Between anchor 2-3: linear from 3000→1000 over 20s
    assert_eq!(eng.interpolate_delta_for(30_000), 2000);
}

// -- extract_anchors ----------------------------------------------------

#[test]
fn extract_anchors_single_group() {
    let mut eng = make_engine();
    load_sample(&mut eng);

    let deltas = vec![
        500,
        510,
        490,
    ];
    let indices = vec![0, 1, 2];
    let cid = new_id();

    let anchors = eng.extract_anchors(&deltas, &indices, double(0.9), cid);
    // All deltas within split_threshold (500ms default) → one group
    assert_eq!(anchors.len(), 1);
    assert_eq!(anchors[0].line_start, 0);
    assert_eq!(anchors[0].line_end, 3);
    assert_eq!(anchors[0].delta_ms, 500); // median of [490,500,510]
    assert_eq!(anchors[0].chunk_id, cid);
}

#[test]
fn extract_anchors_splits_on_large_delta_jump() {
    let mut eng = make_engine();
    load_sample(&mut eng);

    // Lines 0-1 at ~500ms, lines 2-3 at ~2000ms (jump = 1500 > 500 threshold)
    let deltas = vec![
        500,
        510,
        2000,
        2010,
    ];
    let indices = vec![0, 1, 2, 3];
    let cid = new_id();

    let anchors = eng.extract_anchors(&deltas, &indices, double(0.9), cid);
    assert_eq!(anchors.len(), 2);
    assert_eq!(anchors[0].line_start, 0);
    assert_eq!(anchors[0].line_end, 2);
    assert_eq!(anchors[1].line_start, 2);
    assert_eq!(anchors[1].line_end, 4);
}

#[test]
fn extract_anchors_empty_input() {
    let eng = make_engine();
    let anchors = eng.extract_anchors(&[], &[], double(0.5), new_id());
    assert!(anchors.is_empty());
}

// -- conflict_resolution ------------------------------------------------

#[test]
fn conflict_no_existing_anchors_all_insert() {
    let eng = make_engine();
    let new = vec![
        Anchor {
            id: new_id(),
            film_position_ms: 10_000,
            delta_ms: 500,
            confidence: double(0.8),
            line_start: 0,
            line_end: 1,
            chunk_id: new_id(),
        },
    ];
    let result = eng.resolve_conflicts(&new);
    assert!(result.is_some());
    assert!(result.unwrap().is_empty());
}

#[test]
fn conflict_new_beats_prev() {
    let mut eng = make_engine();
    let old_id = new_id();
    eng.anchors.push(Anchor {
        id: old_id,
        film_position_ms: 15_000,
        delta_ms: 500,
        confidence: double(0.5),
        line_start: 0,
        line_end: 1,
        chunk_id: new_id(),
    });

    let new = vec![Anchor {
        id: new_id(),
        film_position_ms: 20_000, // within 30s spacing of the old one
        delta_ms: 600,
        confidence: double(0.9), // higher
        line_start: 1,
        line_end: 2,
        chunk_id: new_id(),
    }];

    let result = eng.resolve_conflicts(&new).unwrap();
    assert!(result.contains(&old_id));
}

#[test]
fn conflict_new_loses_to_prev() {
    let mut eng = make_engine();
    eng.anchors.push(Anchor {
        id: new_id(),
        film_position_ms: 15_000,
        delta_ms: 500,
        confidence: double(0.9), // higher than new
        line_start: 0,
        line_end: 1,
        chunk_id: new_id(),
    });

    let new = vec![Anchor {
        id: new_id(),
        film_position_ms: 20_000,
        delta_ms: 600,
        confidence: double(0.5), // lower
        line_start: 1,
        line_end: 2,
        chunk_id: new_id(),
    }];

    assert!(eng.resolve_conflicts(&new).is_none());
}

#[test]
fn conflict_new_must_beat_both_neighbours() {
    let mut eng = make_engine();
    let id_prev = new_id();
    let id_next = new_id();

    eng.anchors.push(Anchor {
        id: id_prev,
        film_position_ms: 10_000,
        delta_ms: 500,
        confidence: double(0.4),
        line_start: 0,
        line_end: 1,
        chunk_id: new_id(),
    });
    eng.anchors.push(Anchor {
        id: id_next,
        film_position_ms: 30_000,
        delta_ms: 700,
        confidence: double(0.6),
        line_start: 2,
        line_end: 3,
        chunk_id: new_id(),
    });

    // New anchor between them, beats both
    let new = vec![Anchor {
        id: new_id(),
        film_position_ms: 20_000,
        delta_ms: 600,
        confidence: double(0.9),
        line_start: 1,
        line_end: 2,
        chunk_id: new_id(),
    }];

    let result = eng.resolve_conflicts(&new).unwrap();
    assert!(result.contains(&id_prev));
    assert!(result.contains(&id_next));
}

#[test]
fn conflict_new_fails_if_cannot_beat_next() {
    let mut eng = make_engine();
    eng.anchors.push(Anchor {
        id: new_id(),
        film_position_ms: 10_000,
        delta_ms: 500,
        confidence: double(0.4),
        line_start: 0,
        line_end: 1,
        chunk_id: new_id(),
    });
    eng.anchors.push(Anchor {
        id: new_id(),
        film_position_ms: 30_000,
        delta_ms: 700,
        confidence: double(0.95), // new can't beat this
        line_start: 2,
        line_end: 3,
        chunk_id: new_id(),
    });

    let new = vec![Anchor {
        id: new_id(),
        film_position_ms: 20_000,
        delta_ms: 600,
        confidence: double(0.9),
        line_start: 1,
        line_end: 2,
        chunk_id: new_id(),
    }];

    assert!(eng.resolve_conflicts(&new).is_none());
}

// -- stitch_check -------------------------------------------------------

#[test]
fn stitch_merges_adjacent_after() {
    let mut eng = make_engine();
    load_sample(&mut eng);

    // Pre-existing chunk: 0–5000ms
    eng.chunks.push(ProcessedChunk {
        id: new_id(),
        film_start_ms: 0,
        film_end_ms: 5000,
        pcm_data: vec![1, 2, 3, 4],
        sample_rate: 16000,
        anchor_ids: vec![],
    });

    // New chunk starting at 5000ms (within tolerance)
    let new_pcm = vec![5, 6, 7, 8];
    let (merged, start, end, _) = eng.stitch_check(new_pcm, 5000, 10000, 16000);

    assert_eq!(start, 0);
    assert_eq!(end, 10000);
    assert!(eng.chunks.is_empty()); // old chunk consumed
    // Merged PCM = old + gap(0) + new
    assert!(merged.starts_with(&[1, 2, 3, 4]));
    assert!(merged.ends_with(&[5, 6, 7, 8]));
}

#[test]
fn stitch_merges_adjacent_before() {
    let mut eng = make_engine();
    load_sample(&mut eng);

    // Pre-existing chunk: 10000–20000ms
    eng.chunks.push(ProcessedChunk {
        id: new_id(),
        film_start_ms: 10000,
        film_end_ms: 20000,
        pcm_data: vec![5, 6, 7, 8],
        sample_rate: 16000,
        anchor_ids: vec![],
    });

    // New chunk ending at 10000ms
    let new_pcm = vec![1, 2, 3, 4];
    let (merged, start, end, _) = eng.stitch_check(new_pcm, 0, 10000, 16000);

    assert_eq!(start, 0);
    assert_eq!(end, 20000);
    assert!(merged.starts_with(&[1, 2, 3, 4]));
    assert!(merged.ends_with(&[5, 6, 7, 8]));
}

#[test]
fn stitch_evicts_old_anchors() {
    let mut eng = make_engine();
    load_sample(&mut eng);

    let anchor_id = new_id();
    eng.anchors.push(Anchor {
        id: anchor_id,
        film_position_ms: 3000,
        delta_ms: 100,
        confidence: double(0.8),
        line_start: 0,
        line_end: 1,
        chunk_id: new_id(),
    });

    eng.chunks.push(ProcessedChunk {
        id: new_id(),
        film_start_ms: 0,
        film_end_ms: 5000,
        pcm_data: vec![0; 4],
        sample_rate: 16000,
        anchor_ids: vec![anchor_id],
    });

    let (_, _, _, evicted) = eng.stitch_check(vec![0; 4], 5000, 10000, 16000);
    assert!(evicted, "stitch must report anchor eviction");

    assert!(eng.anchors.is_empty(), "stitched chunk's anchors must be evicted");
}

#[test]
fn stitch_cascades() {
    let mut eng = make_engine();
    load_sample(&mut eng);

    // Two pre-existing chunks: [0–5000] and [10000–15000]
    eng.chunks.push(ProcessedChunk {
        id: new_id(),
        film_start_ms: 0,
        film_end_ms: 5000,
        pcm_data: vec![1, 2],
        sample_rate: 16000,
        anchor_ids: vec![],
    });
    eng.chunks.push(ProcessedChunk {
        id: new_id(),
        film_start_ms: 10000,
        film_end_ms: 15000,
        pcm_data: vec![5, 6],
        sample_rate: 16000,
        anchor_ids: vec![],
    });

    // New chunk fills the gap [5000–10000]
    let (_, start, end, _) = eng.stitch_check(vec![3, 4], 5000, 10000, 16000);

    assert_eq!(start, 0);
    assert_eq!(end, 15000);
    assert!(eng.chunks.is_empty(), "both old chunks consumed via cascade");
}

#[test]
fn stitch_ignores_different_sample_rate() {
    let mut eng = make_engine();
    load_sample(&mut eng);

    eng.chunks.push(ProcessedChunk {
        id: new_id(),
        film_start_ms: 0,
        film_end_ms: 5000,
        pcm_data: vec![1, 2],
        sample_rate: 8000, // different from incoming 16000
        anchor_ids: vec![],
    });

    let (pcm, start, end, evicted) = eng.stitch_check(vec![3, 4], 5000, 10000, 16000);
    assert!(!evicted, "no anchors to evict");
    assert_eq!(start, 5000);
    assert_eq!(end, 10000);
    assert_eq!(pcm, vec![3, 4]);
    assert_eq!(eng.chunks.len(), 1); // old chunk untouched
}

// -- recompute_all_and_diff ---------------------------------------------

#[test]
fn recompute_applies_warp_and_diffs() {
    let mut eng = make_engine();
    load_sample(&mut eng);

    // Insert an anchor that shifts everything by +2000ms
    eng.anchors.push(Anchor {
        id: new_id(),
        film_position_ms: 15_000,
        delta_ms: 2000,
        confidence: double(0.9),
        line_start: 0,
        line_end: 5,
        chunk_id: new_id(),
    });

    let changes = eng.recompute_all_and_diff();

    // All 5 lines should have moved
    assert_eq!(changes.len(), 5);
    for c in &changes {
        assert_eq!(c.delta_change_ms, 2000);
        assert_eq!(c.new_start_ms, c.old_start_ms + 2000);
        assert_eq!(c.new_end_ms, c.old_end_ms + 2000);
    }

    // Calling again with no anchor changes → no diff
    let changes2 = eng.recompute_all_and_diff();
    assert!(changes2.is_empty());
}

// -- export_srt ---------------------------------------------------------

#[test]
fn export_srt_basic() {
    let mut eng = make_engine();
    load_sample(&mut eng);

    let srt = eng.export_srt().unwrap();
    assert!(srt.contains("00:00:01,000 --> 00:00:04,000"));
    assert!(srt.contains("Hello world"));
    assert!(srt.contains("Fifth line"));
}

#[test]
fn export_srt_reflects_corrections() {
    let mut eng = make_engine();
    load_sample(&mut eng);

    eng.anchors.push(Anchor {
        id: new_id(),
        film_position_ms: 15_000,
        delta_ms: 5000,
        confidence: double(0.9),
        line_start: 0,
        line_end: 5,
        chunk_id: new_id(),
    });
    eng.recompute_all_and_diff();

    let srt = eng.export_srt().unwrap();
    // Line 1: was 1000→4000, now 6000→9000
    assert!(srt.contains("00:00:06,000 --> 00:00:09,000"));
}

// -- config round-trip --------------------------------------------------

#[test]
fn config_proto_round_trip() {
    let cfg = EngineConfig::default();
    let proto_cfg = proto::EngineConfig::from(&cfg);
    let back = EngineConfig::from(&proto_cfg);

    assert_eq!(back.split_penalty, cfg.split_penalty);
    assert_eq!(back.min_anchor_spacing_ms, cfg.min_anchor_spacing_ms);
    assert_eq!(back.max_drift_ms, cfg.max_drift_ms);
    assert_eq!(back.split_threshold_ms, cfg.split_threshold_ms);
    assert_eq!(back.sweep_step_ms, cfg.sweep_step_ms);
    assert_eq!(back.coverage_buffer_ms, cfg.coverage_buffer_ms);
    assert_eq!(back.stitch_tolerance_ms, cfg.stitch_tolerance_ms);
    assert_eq!(back.vad_mode, cfg.vad_mode);
}

#[test]
fn config_optional_fields_allow_zero() {
    // With optional proto fields, explicitly setting a value to 0
    // should be distinguishable from "not set" (which gets defaults).
    let proto_cfg = proto::EngineConfig {
        quality_threshold: Some(double(0.0)),
        split_penalty: Some(0),
        min_anchor_spacing_ms: Some(0),
        max_drift_ms: Some(0),
        split_threshold_ms: Some(0),
        sweep_step_ms: Some(0),
        coverage_buffer_ms: Some(0),
        stitch_tolerance_ms: Some(0),
        vad_mode: Some(3),
    };
    let cfg = EngineConfig::from(&proto_cfg);
    assert_eq!(cfg.quality_threshold, double(0.0));
    assert_eq!(cfg.split_penalty, double(0.0));
    assert_eq!(cfg.min_anchor_spacing_ms, 0);
    assert_eq!(cfg.max_drift_ms, 0);
    assert_eq!(cfg.split_threshold_ms, 0);
    assert_eq!(cfg.sweep_step_ms, 0);
    assert_eq!(cfg.coverage_buffer_ms, 0);
    assert_eq!(cfg.stitch_tolerance_ms, 0);
    assert_eq!(cfg.vad_mode, 3);
}

#[test]
fn config_unset_fields_get_defaults() {
    // When no fields are set (all None), defaults should be used.
    let proto_cfg = proto::EngineConfig {
        quality_threshold: None,
        split_penalty: None,
        min_anchor_spacing_ms: None,
        max_drift_ms: None,
        split_threshold_ms: None,
        sweep_step_ms: None,
        coverage_buffer_ms: None,
        stitch_tolerance_ms: None,
        vad_mode: None,
    };
    let cfg = EngineConfig::from(&proto_cfg);
    let d = EngineConfig::default();
    assert_eq!(cfg.quality_threshold, d.quality_threshold);
    assert_eq!(cfg.split_penalty, d.split_penalty);
    assert_eq!(cfg.min_anchor_spacing_ms, d.min_anchor_spacing_ms);
    assert_eq!(cfg.max_drift_ms, d.max_drift_ms);
    assert_eq!(cfg.vad_mode, d.vad_mode);
}

// -- format_srt_time ----------------------------------------------------

#[test]
fn srt_time_formatting() {
    assert_eq!(format_srt_time(0), "00:00:00,000");
    assert_eq!(format_srt_time(1000), "00:00:01,000");
    assert_eq!(format_srt_time(61_500), "00:01:01,500");
    assert_eq!(format_srt_time(3_661_123), "01:01:01,123");
    assert_eq!(format_srt_time(-1000), "-00:00:01,000");
}

// -- coarse_sweep -------------------------------------------------------

#[test]
fn coarse_sweep_finds_correct_offset() {
    let eng = make_engine();

    // VAD spans at absolute film time 10s–11s, 12s–13s
    let vad = vec![
        TimeSpan::new(10_000, 11_000),
        TimeSpan::new(12_000, 13_000),
    ];

    // Subtitle spans that are 5s early (at 5s–6s, 7s–8s)
    // The correct delta to shift subs to match VAD is +5000
    let subs = vec![
        TimeSpan::new(5_000, 6_000),
        TimeSpan::new(7_000, 8_000),
    ];

    let (delta, score) = eng.coarse_sweep(&vad, &subs);
    assert_eq!(delta, 5000);
    assert!(f64::from_bits(score.to_bits()) > 0.0);
}

// -- nearest_anchor_confidence ------------------------------------------

#[test]
fn nearest_confidence_picks_closer_anchor() {
    let mut eng = make_engine();
    let cid = new_id();
    eng.anchors.push(Anchor {
        id: new_id(),
        film_position_ms: 10_000,
        delta_ms: 0,
        confidence: double(0.3),
        line_start: 0,
        line_end: 1,
        chunk_id: cid,
    });
    eng.anchors.push(Anchor {
        id: new_id(),
        film_position_ms: 30_000,
        delta_ms: 0,
        confidence: double(0.9),
        line_start: 1,
        line_end: 2,
        chunk_id: cid,
    });

    assert_eq!(eng.nearest_anchor_confidence_for(12_000), double(0.3)); // closer to 10k
    assert_eq!(eng.nearest_anchor_confidence_for(28_000), double(0.9)); // closer to 30k
}

// -- ingest_chunk pre-conditions ----------------------------------------

#[test]
fn ingest_rejects_without_subtitle() {
    let mut eng = make_engine();
    let res = eng.ingest_chunk(vec![], 16000, 0, 1000);
    assert!(res.is_err());
}

#[test]
fn ingest_rejects_bad_sample_rate() {
    let mut eng = make_engine();
    load_sample(&mut eng);
    let res = eng.ingest_chunk(vec![], 44100, 0, 1000);
    assert!(res.is_err());
}

// -- subtitle_window_with_indices ----------------------------------------

#[test]
fn subtitle_window_filters_by_range() {
    let mut eng = make_engine();
    load_sample(&mut eng);

    // Only lines whose original span overlaps [4000, 9000]
    // Line 0: 1000-4000  (end=4000 >= 4000, start=1000 <= 9000 → included)
    // Line 1: 5000-8000  → included
    // Line 2: 10000-13000 → excluded (start=10000 > 9000)
    let (spans, indices) = eng.subtitle_window_with_indices(4000, 9000);
    assert_eq!(indices, vec![0, 1]);
    assert_eq!(spans.len(), 2);
}

// -- stitch overlap detection (#3) ----------------------------------------

#[test]
fn stitch_merges_overlapping_chunks() {
    let mut eng = make_engine();
    load_sample(&mut eng);

    // Pre-existing chunk: 0–10000ms
    eng.chunks.push(ProcessedChunk {
        id: new_id(),
        film_start_ms: 0,
        film_end_ms: 10000,
        pcm_data: vec![1, 2, 3, 4],
        sample_rate: 16000,
        anchor_ids: vec![],
    });

    // New chunk overlaps: 5000–15000ms
    let new_pcm = vec![5, 6, 7, 8];
    let (_, start, end, _) = eng.stitch_check(new_pcm, 5000, 15000, 16000);

    assert_eq!(start, 0);
    assert_eq!(end, 15000);
    assert!(eng.chunks.is_empty());
}

// -- set_config / config() accessor (#9) ----------------------------------

#[test]
fn set_config_and_config_accessor() {
    let mut eng = make_engine();
    let mut cfg = EngineConfig::default();
    cfg.vad_mode = 3;
    cfg.max_drift_ms = 60_000;
    eng.set_config(cfg.clone());

    assert_eq!(eng.config().vad_mode, 3);
    assert_eq!(eng.config().max_drift_ms, 60_000);
}

// =======================================================================
// E2E tests — full ingest_chunk pipeline
// =======================================================================

#[test]
fn test_make_speech_pcm_produces_vad_spans() {
    let pcm = make_speech_pcm(16000, &[(1000, 4000), (6000, 9000)], 10000);
    let spans = run_vad(&pcm, 16000, 0, 0);

    assert!(
        spans.len() >= 2,
        "expected at least 2 VAD spans, got {}",
        spans.len()
    );

    // First span should cover approximately 1000-4000ms
    let s0_start = spans[0].start;
    let s0_end = spans[0].end;
    assert_within(s0_start, 1000, 200, "span0 start");
    assert_within(s0_end, 4000, 200, "span0 end");

    // Second span should cover approximately 6000-9000ms
    let s1_start = spans[1].start;
    let s1_end = spans[1].end;
    assert_within(s1_start, 6000, 200, "span1 start");
    assert_within(s1_end, 9000, 200, "span1 end");
}

// -- e2e: silence rejected ----------------------------------------------

#[test]
fn e2e_silence_rejected() {
    let mut eng = make_engine();
    load_sample(&mut eng);

    // 40 seconds of silence at 16kHz
    let pcm = vec![0u8; 16000 * 2 * 40];
    let changes = eng.ingest_chunk(pcm, 16000, 0, 40000).unwrap();

    assert!(changes.is_empty(), "silence should produce no changes");
    assert!(eng.get_anchors().is_empty());
    assert!(eng.get_chunk_history().is_empty());

    // Corrected times unchanged
    let sub = eng.subtitle.as_ref().unwrap();
    for i in 0..sub.original_timespans.len() {
        assert_eq!(sub.corrected_start_ms[i], sub.original_timespans[i].0);
        assert_eq!(sub.corrected_end_ms[i], sub.original_timespans[i].1);
    }
}

// -- e2e: constant positive offset --------------------------------------

#[test]
fn e2e_constant_offset_positive() {
    let mut eng = make_engine();
    load_sample(&mut eng);

    // Audio speech occurs 3s AFTER subtitle timings.
    // SAMPLE_SRT lines: 1-4s, 5-8s, 10-13s, 20-23s, 30-33s
    // Shifted +3s:       4-7s, 8-11s, 13-16s, 23-26s, 33-36s
    let pcm = make_speech_pcm(
        16000,
        &[
            (4000, 7000),
            (8000, 11000),
            (13000, 16000),
            (23000, 26000),
            (33000, 36000),
        ],
        40000,
    );

    let changes = eng.ingest_chunk(pcm, 16000, 0, 40000).unwrap();

    assert!(!changes.is_empty(), "should produce changes");

    // All changed lines should have delta approximately +3000
    for c in &changes {
        assert_within(
            c.new_start_ms - c.old_start_ms,
            3000,
            1500,
            &format!("line {} start delta", c.line_index),
        );
    }

    // Anchors exist with positive delta
    let anchors = eng.get_anchors();
    assert!(!anchors.is_empty(), "should have at least 1 anchor");
    for a in &anchors {
        assert_within(a.delta_ms, 3000, 1500, "anchor delta");
    }

    // One chunk in history
    assert_eq!(eng.get_chunk_history().len(), 1);

    // Exported SRT reflects correction
    let srt = eng.export_srt().unwrap();
    // Line 1 original: 00:00:01,000 → should now be ~00:00:04,000
    assert!(
        !srt.contains("00:00:01,000 --> 00:00:04,000"),
        "original timestamps should no longer appear in exported SRT"
    );
}

// -- e2e: constant negative offset --------------------------------------

#[test]
fn e2e_constant_offset_negative() {
    let mut eng = make_engine();

    // Use custom SRT with higher offsets to avoid clipping into negatives
    let srt = make_srt(&[
        (5000, 8000, "Line one"),
        (10000, 13000, "Line two"),
        (20000, 23000, "Line three"),
        (30000, 33000, "Line four"),
        (40000, 43000, "Line five"),
    ]);
    eng.load_subtitle(&srt, "srt").unwrap();

    // Audio speech occurs 3s BEFORE subtitle timings.
    // Shifted -3s: 2-5s, 7-10s, 17-20s, 27-30s, 37-40s
    let pcm = make_speech_pcm(
        16000,
        &[
            (2000, 5000),
            (7000, 10000),
            (17000, 20000),
            (27000, 30000),
            (37000, 40000),
        ],
        50000,
    );

    let changes = eng.ingest_chunk(pcm, 16000, 0, 50000).unwrap();

    assert!(!changes.is_empty(), "should produce changes");

    for c in &changes {
        assert_within(
            c.new_start_ms - c.old_start_ms,
            -3000,
            1500,
            &format!("line {} start delta", c.line_index),
        );
    }

    let anchors = eng.get_anchors();
    assert!(!anchors.is_empty());
    for a in &anchors {
        assert_within(a.delta_ms, -3000, 1500, "anchor delta");
    }
}

// -- e2e: poor match rejected by quality gate ---------------------------

#[test]
fn e2e_poor_match_rejected_by_quality_gate() {
    let mut cfg = EngineConfig::default();
    cfg.quality_threshold = double(0.5); // raised to ensure rejection
    let mut eng = AlignmentEngine::new(cfg);
    load_sample(&mut eng);

    // Single short speech burst that doesn't match subtitle pattern
    let pcm = make_speech_pcm(16000, &[(19000, 19500)], 40000);

    let changes = eng.ingest_chunk(pcm, 16000, 0, 40000).unwrap();

    assert!(
        changes.is_empty(),
        "poor match should be rejected by quality gate"
    );
    assert!(eng.get_anchors().is_empty());
    assert!(eng.get_chunk_history().is_empty());
}

// -- e2e: multi-chunk progressive alignment -----------------------------

#[test]
fn e2e_multi_chunk_progressive() {
    let mut cfg = EngineConfig::default();
    cfg.stitch_tolerance_ms = 0; // prevent stitching
    cfg.min_anchor_spacing_ms = 5000; // allow anchors closer together
    cfg.max_drift_ms = 10000; // narrow window so each chunk sees only its lines
    cfg.coverage_buffer_ms = 5000;
    let mut eng = AlignmentEngine::new(cfg);

    // Two well-separated groups so each chunk's window captures only its lines.
    let srt = make_srt(&[
        (5000, 8000, "Group A line 1"),
        (10000, 13000, "Group A line 2"),
        (15000, 18000, "Group A line 3"),
        (80000, 83000, "Group B line 1"),
        (85000, 88000, "Group B line 2"),
        (90000, 93000, "Group B line 3"),
    ]);
    eng.load_subtitle(&srt, "srt").unwrap();

    // Offset: +2000ms

    // Chunk 1: film 0-25s, covers group A shifted +2s
    // Speech at (7-10s), (12-15s), (17-20s)
    let pcm1 = make_speech_pcm(
        16000,
        &[(7000, 10000), (12000, 15000), (17000, 20000)],
        25000,
    );
    let changes1 = eng.ingest_chunk(pcm1, 16000, 0, 25000).unwrap();
    assert!(!changes1.is_empty(), "chunk 1 should produce changes");
    assert!(
        !eng.get_anchors().is_empty(),
        "chunk 1 should create anchors"
    );

    let anchors_after_c1 = eng.get_anchors().len();

    // Chunk 2: film 75-100s, covers group B shifted +2s
    // Absolute speech: 82-85s, 87-90s, 92-95s
    // Relative to chunk start (75s): 7-10s, 12-15s, 17-20s
    let pcm2 = make_speech_pcm(
        16000,
        &[(7000, 10000), (12000, 15000), (17000, 20000)],
        25000,
    );
    let _changes2 = eng.ingest_chunk(pcm2, 16000, 75000, 100000).unwrap();

    // Chunk 2 should also produce changes or anchors
    // (it may produce changes even if no new anchors, via recompute)
    let anchors_after_c2 = eng.get_anchors().len();
    assert!(
        anchors_after_c2 >= anchors_after_c1,
        "chunk 2 should add anchors (had {}, now {})",
        anchors_after_c1,
        anchors_after_c2,
    );

    // At least one chunk stored
    assert!(
        !eng.get_chunk_history().is_empty(),
        "should have at least 1 chunk stored"
    );

    // All 6 lines should have corrected times ~+2000ms
    let sub = eng.subtitle.as_ref().unwrap();
    for i in 0..6 {
        let orig_start = sub.original_timespans[i].0;
        assert_within(
            sub.corrected_start_ms[i],
            orig_start + 2000,
            1500,
            &format!("line {} corrected start", i),
        );
    }
}

// -- e2e: reset mid-session ---------------------------------------------

#[test]
fn e2e_reset_mid_session() {
    let mut eng = make_engine();
    load_sample(&mut eng);

    // Phase 1: align with +3s offset
    let pcm1 = make_speech_pcm(
        16000,
        &[
            (4000, 7000),
            (8000, 11000),
            (13000, 16000),
            (23000, 26000),
            (33000, 36000),
        ],
        40000,
    );
    let changes1 = eng.ingest_chunk(pcm1, 16000, 0, 40000).unwrap();
    assert!(!changes1.is_empty(), "phase 1 should produce changes");
    assert!(!eng.get_anchors().is_empty(), "phase 1 should have anchors");

    // Phase 2: reset
    eng.reset();
    assert!(eng.get_anchors().is_empty(), "reset should clear anchors");
    assert!(
        eng.get_chunk_history().is_empty(),
        "reset should clear chunks"
    );
    let sub = eng.subtitle.as_ref().unwrap();
    for i in 0..5 {
        assert_eq!(
            sub.corrected_start_ms[i], sub.original_timespans[i].0,
            "reset should restore original start for line {}",
            i
        );
        assert_eq!(
            sub.corrected_end_ms[i], sub.original_timespans[i].1,
            "reset should restore original end for line {}",
            i
        );
    }

    // Phase 3: re-align with +5s offset
    let pcm2 = make_speech_pcm(
        16000,
        &[
            (6000, 9000),
            (10000, 13000),
            (15000, 18000),
            (25000, 28000),
            (35000, 38000),
        ],
        40000,
    );
    let changes2 = eng.ingest_chunk(pcm2, 16000, 0, 40000).unwrap();
    assert!(!changes2.is_empty(), "phase 3 should produce changes");

    // Should reflect +5s, not +3s from phase 1
    for c in &changes2 {
        assert_within(
            c.new_start_ms - c.old_start_ms,
            5000,
            1500,
            &format!("phase 3 line {} delta", c.line_index),
        );
    }

    // Only 1 chunk in history (not 2)
    assert_eq!(eng.get_chunk_history().len(), 1);
}

// -- e2e: split detection -----------------------------------------------

#[test]
fn e2e_split_detection() {
    let mut eng = make_engine();

    // Custom SRT with large gap between groups to make split clear
    let srt = make_srt(&[
        (5000, 8000, "Early A"),
        (10000, 13000, "Early B"),
        (30000, 33000, "Late A"),
        (35000, 38000, "Late B"),
    ]);
    eng.load_subtitle(&srt, "srt").unwrap();

    // Lines 0-1 shifted +2s: speech at 7-10s, 12-15s
    // Lines 2-3 shifted -3s: speech at 27-30s, 32-35s
    let pcm = make_speech_pcm(
        16000,
        &[
            (7000, 10000),
            (12000, 15000),
            (27000, 30000),
            (32000, 35000),
        ],
        50000,
    );

    let changes = eng.ingest_chunk(pcm, 16000, 0, 50000).unwrap();
    assert!(!changes.is_empty(), "should produce changes");

    let anchors = eng.get_anchors();
    assert!(
        anchors.len() >= 2,
        "should have at least 2 anchors for split, got {}",
        anchors.len()
    );

    // Find anchors for each region
    let early_anchor = anchors
        .iter()
        .find(|a| a.film_position_ms < 20000)
        .expect("should have anchor for early region");
    let late_anchor = anchors
        .iter()
        .find(|a| a.film_position_ms > 20000)
        .expect("should have anchor for late region");

    assert_within(early_anchor.delta_ms, 2000, 1500, "early anchor delta");
    assert_within(late_anchor.delta_ms, -3000, 1500, "late anchor delta");

    // Lines 0-1 should be shifted ~+2000
    let sub = eng.subtitle.as_ref().unwrap();
    for i in 0..2 {
        assert_within(
            sub.corrected_start_ms[i] - sub.original_timespans[i].0,
            2000,
            1500,
            &format!("early line {} delta", i),
        );
    }
    // Lines 2-3 should be shifted ~-3000
    for i in 2..4 {
        assert_within(
            sub.corrected_start_ms[i] - sub.original_timespans[i].0,
            -3000,
            1500,
            &format!("late line {} delta", i),
        );
    }
}
