//! The messages that the service exchanges with its clients.
//!
//! Where a message carries a single-precision number, it is held here as the
//! double of the same value; see [`crate::single`].

use crate::binary64::Binary64;
use vstd::prelude::*;

verus! {

/// Engine settings, each of which a client may leave unset.
#[derive(Clone, Copy, Debug, PartialEq, Eq, Structural)]
pub struct EngineConfig {
    pub quality_threshold: Option<Binary64>,
    pub split_penalty: Option<i32>,
    pub min_anchor_spacing_ms: Option<i32>,
    pub max_drift_ms: Option<i32>,
    pub split_threshold_ms: Option<i32>,
    pub sweep_step_ms: Option<i32>,
    pub coverage_buffer_ms: Option<i32>,
    pub stitch_tolerance_ms: Option<i32>,
    pub vad_mode: Option<i32>,
}

/// Engine settings without a way to leave one unset: zero stands for that.
#[derive(Clone, Copy, Debug, PartialEq, Eq, Structural)]
pub struct PlainEngineConfig {
    pub quality_threshold: Binary64,
    pub split_penalty: i32,
    pub min_anchor_spacing_ms: i32,
    pub max_drift_ms: i32,
    pub split_threshold_ms: i32,
    pub sweep_step_ms: i32,
    pub coverage_buffer_ms: i32,
    pub stitch_tolerance_ms: i32,
}

/// How the corrected times of a line changed.
#[derive(Clone, Copy, Debug, PartialEq, Eq, Structural)]
pub struct LineChange {
    pub line_index: i32,
    pub old_start_ms: i64,
    pub old_end_ms: i64,
    pub new_start_ms: i64,
    pub new_end_ms: i64,
    pub delta_change_ms: i64,
    pub confidence: Binary64,
}

/// An anchor of the warp.
#[derive(Clone, Debug)]
pub struct AnchorInfo {
    pub id: String,
    pub film_position_ms: i64,
    pub delta_ms: i64,
    pub confidence: Binary64,
    pub line_start: i32,
    pub line_end: i32,
    pub chunk_id: String,
}

/// A stretch of audio that was aligned.
#[derive(Clone, Debug)]
pub struct ChunkInfo {
    pub id: String,
    pub film_start_ms: i64,
    pub film_end_ms: i64,
    pub anchor_ids: Vec<String>,
}

} // verus!
