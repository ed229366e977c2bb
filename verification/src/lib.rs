//! Streaming subtitle alignment.
//!
//! A subtitle file is loaded once; audio comes in piece by piece, in any order
//! and with gaps; and the times of the lines are corrected to fit what is
//! heard.
//!
//! There are two ways to do this. The [`stream`] module keeps all speech that
//! it has heard and aligns the whole subtitle to it on each ingest. The
//! [`engine`] module aligns each chunk of audio on its own, turns what it
//! finds into anchors, and interpolates between them.
//!
//! Both stand on the same ground:
//!
//! - [`vad`] finds speech in raw audio, [`time_span`] merges spans of it;
//! - [`alignment`] aligns one list of spans to another;
//! - [`subtitle_file`] reads and writes subtitle files; [`readable`], by way of
//!   [`encoding`] and [`scan`], says which bytes can be read at all;
//! - [`binary64`] and [`rounding`] are double-precision numbers and their
//!   arithmetic, exact in every bit, and [`single`] narrows them.
//!
//! The engine is spread over several modules: [`engine`] holds its state and
//! computes corrected times, [`session`] loads and resets, [`ingest`] takes in
//! audio by way of [`stitch`], [`extraction`] and [`conflict`], and [`export`]
//! writes the corrected subtitle.
//!
//! Modules whose names end in `_laws` state what holds of several functions
//! together, over several calls or at all times: [`engine_laws`],
//! [`ownership_laws`] and [`stream_laws`] of the engine and the aligner as a
//! whole; [`ingest_laws`], [`stitch_laws`], [`window_laws`],
//! [`extraction_laws`], [`conflict_laws`], [`warp_laws`] and [`change_laws`] of
//! the steps from audio to corrected lines; [`vad_laws`] of audio and time;
//! [`session_laws`], [`subtitle_laws`] and [`text_laws`] of what is loaded,
//! shown and written; and [`readable_laws`] and [`scan_laws`] of what can be
//! read.

pub mod alignment;
pub mod anchor;
pub mod binary64;
pub mod change_laws;
pub mod config;
pub mod conflict;
pub mod conflict_laws;
pub mod encoding;
pub mod engine;
pub mod engine_laws;
pub mod export;
pub mod extraction;
pub mod extraction_laws;
pub mod ids;
pub mod ingest;
pub mod ingest_laws;
pub mod median;
pub mod ownership_laws;
pub mod proto;
pub mod readable;
pub mod readable_laws;
pub mod reals;
pub mod rounding;
pub mod scan;
pub mod scan_laws;
pub mod session;
pub mod session_laws;
pub mod single;
pub mod stitch;
pub mod stitch_laws;
pub mod stream;
pub mod stream_laws;
pub mod subtitle;
pub mod subtitle_file;
pub mod subtitle_laws;
pub mod text;
pub mod text_laws;
pub mod time_span;
pub mod vad;
pub mod vad_laws;
pub mod warp;
pub mod warp_laws;
pub mod window_laws;

pub use stream::{Config, CorrectedLine, Error, LineChange, StreamingAligner};
pub use subtitle_file::SubtitleFormat;
pub use time_span::TimeSpan;
pub use vad::pcm_to_spans;
