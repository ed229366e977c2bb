//! Streaming subtitle alignment.
//!
//! The caller loads a full subtitle file once, then feeds timestamped audio
//! chunks (as PCM or as pre-computed VAD spans) as they arrive. On each
//! ingest the aligner runs the alignment once against the complete
//! accumulated VAD evidence, returning per-line changes vs. the previous
//! alignment state.
//!
//! The audio stream may be sparse: a handful of minutes of coverage against
//! a two-hour subtitle file is fine, and gaps in the middle of the stream
//! are fine. Alass handles constant shifts and per-group splits on whatever
//! evidence it has; as more evidence arrives the alignment refines.

use crate::alignment::{
    align, alignable, alignment, check_penalty, check_spans, check_speed, is_penalty, is_speed,
    ALIGN_LIMIT_MS, ALIGN_MAX_SPANS, MAX_DELTA_MS,
};
use crate::binary64::Binary64;
use crate::readable::readable;
use crate::subtitle_file::{
    copy_file, detect_format, detected_format, encoding_certain, entries_replaced, entry_numbers,
    entry_views, file_data, file_entries, file_format, has_texts, is_data_of, is_sound,
    lemma_texts_stay, lemma_tidy_is_plain, lemma_written_times, parse_file, parsed_file,
    read_entries, reads_as, replace_entries, str_view, subrip_text, text_view, updated_file,
    write_file, EntryView, SubtitleEntry, SubtitleFormat,
};
use crate::text::{decimal, digits, utf8_text};
use crate::time_span::{covers, is_merged, merge_spans, TimeSpan};
use crate::vad::{
    frame_count, frames_of, law_speech_spans_are_merged, mode_from_u8, mode_of, pcm_to_spans,
    rate_of, speech_in, voice_flags, VadMode,
};
use vstd::prelude::*;
use vstd::utf8::{decode_utf8, encode_utf8, valid_utf8};

verus! {

/// The frame rate by which frame numbers in a file are converted to times.
pub const FRAMES_PER_SECOND: u32 = 25;

/// Tunables for the streaming aligner.
#[derive(Clone, Copy, Debug, PartialEq, Eq, Structural)]
pub struct Config {
    /// Alass split penalty (0-1000, typical 4-20, optimum around 7).
    pub split_penalty: Binary64,
    /// Alass speed-optimization parameter. `None` for maximum accuracy.
    pub speed_optimization: Option<Binary64>,
    /// WebRTC VAD aggressiveness (0 = Quality, 3 = VeryAggressive).
    pub vad_mode: u8,
}

/// A split penalty of 7, a mild speed optimization of 1, which is two to three
/// times faster than none with no loss of accuracy that would matter here,
/// and the least aggressive detector.
pub open spec fn default_config() -> Config {
    Config {
        split_penalty: Binary64 { bits: 0x401c_0000_0000_0000 },
        speed_optimization: Some(Binary64 { bits: 0x3ff0_0000_0000_0000 }),
        vad_mode: 0,
    }
}

impl Config {
    /// Whether the aligner takes the penalty and the speed parameter for `n`
    /// lines.
    pub open spec fn is_valid(self, n: nat) -> bool {
        &&& is_penalty(self.split_penalty, n)
        &&& self.speed_optimization matches Some(s) ==> is_speed(s, n)
    }
}

impl Default for Config {
    fn default() -> (r: Self)
        ensures
            r == default_config(),
    {
        Config {
            split_penalty: Binary64::from_bits(0x401c_0000_0000_0000),
            speed_optimization: Some(Binary64::from_bits(0x3ff0_0000_0000_0000)),
            vad_mode: 0,
        }
    }
}

/// A subtitle line change produced by an ingest call.
#[derive(Clone, Copy, Debug, PartialEq, Eq, Structural)]
pub struct LineChange {
    pub line_index: usize,
    pub old_start_ms: i64,
    pub old_end_ms: i64,
    pub new_start_ms: i64,
    pub new_end_ms: i64,
    /// Change in this line's applied delta since the previous ingest
    /// (`new_delta_ms - old_delta_ms`). Not a re-statement of start/end deltas.
    pub delta_change_ms: i64,
}

/// A corrected subtitle line for read-only inspection.
#[derive(Clone, Debug)]
pub struct CorrectedLine {
    pub index: usize,
    pub original_start_ms: i64,
    pub original_end_ms: i64,
    pub start_ms: i64,
    pub end_ms: i64,
    pub delta_ms: i64,
    pub text: Option<String>,
}

/// Why a subtitle or an audio chunk was refused.
#[derive(Debug)]
pub enum Error {
    UnknownFormat,
    Parse(String),
    InvalidSampleRate(u32),
}

impl Error {
    /// What the error says.
    pub open spec fn text(&self) -> Seq<char> {
        match self {
            Error::UnknownFormat => "unknown subtitle format"@,
            Error::Parse(msg) => "subtitle parse error: "@ + msg@,
            Error::InvalidSampleRate(r) => "unsupported sample rate "@ + digits(
                *r as nat,
            ) + " (want 8000 or 16000)"@,
        }
    }

    /// What the error says.
    pub fn message(&self) -> (s: String)
        ensures
            s@ == self.text(),
    {
        match self {
            Error::UnknownFormat => "unknown subtitle format".to_string(),
            Error::Parse(msg) => {
                let mut s: String = "subtitle parse error: ".to_string();
                s.append(msg.as_str());
                s
            },
            Error::InvalidSampleRate(r) => {
                let mut s: String = "unsupported sample rate ".to_string();
                s.append(decimal(*r as u64).as_str());
                s.append(" (want 8000 or 16000)");
                s
            },
        }
    }
}

/// The subtitle that is loaded.
pub struct Loaded {
    pub format: SubtitleFormat,
    pub file: subparse::SubtitleFile,
    pub original_spans: Vec<TimeSpan>,
    pub original_entries: Vec<SubtitleEntry>,
}

/// Streaming subtitle aligner.
///
/// Lifecycle: `new()` → `load_subtitle(...)` → repeatedly `ingest_*` →
/// `export()` / `corrected_lines()` whenever needed. `reset()` clears all
/// VAD evidence and applied deltas (but keeps the loaded subtitle).
pub struct StreamingAligner {
    pub config: Config,
    pub loaded: Option<Loaded>,
    pub vad: Vec<TimeSpan>,
    pub current_deltas: Vec<i64>,
}

// ---------------------------------------------------------------------------
// Model
// ---------------------------------------------------------------------------

/// The span of an entry, its ends in order.
pub open spec fn entry_span(entry: EntryView) -> TimeSpan {
    if entry.start_ms <= entry.end_ms {
        TimeSpan { start: entry.start_ms, end: entry.end_ms }
    } else {
        TimeSpan { start: entry.end_ms, end: entry.start_ms }
    }
}

/// The spans of all entries.
pub open spec fn entry_spans(entries: Seq<EntryView>) -> Seq<TimeSpan> {
    Seq::new(entries.len(), |i: int| entry_span(entries[i]))
}

/// An entry moved by `delta`, its ends in order, with its own text.
pub open spec fn shifted_entry(entry: EntryView, delta: i64) -> EntryView {
    EntryView {
        start_ms: (entry_span(entry).start + delta) as i64,
        end_ms: (entry_span(entry).end + delta) as i64,
        line: entry.line,
    }
}

/// All entries, each moved by its delta.
pub open spec fn shifted_entries(entries: Seq<EntryView>, deltas: Seq<i64>) -> Seq<EntryView> {
    Seq::new(entries.len(), |i: int| shifted_entry(entries[i], deltas[i]))
}

/// As many zeros.
pub open spec fn no_deltas(n: nat) -> Seq<i64> {
    Seq::new(n, |i: int| 0i64)
}

/// The change of the line with index `i` from one delta to another.
pub open spec fn delta_change(i: int, span: TimeSpan, old_delta: i64, new_delta: i64) -> LineChange {
    LineChange {
        line_index: i as usize,
        old_start_ms: (span.start + old_delta) as i64,
        old_end_ms: (span.end + old_delta) as i64,
        new_start_ms: (span.start + new_delta) as i64,
        new_end_ms: (span.end + new_delta) as i64,
        delta_change_ms: (new_delta - old_delta) as i64,
    }
}

/// The changes of the first `n` lines: one for each line whose delta moved, in
/// the order of the lines.
pub open spec fn delta_changes(
    spans: Seq<TimeSpan>,
    old_deltas: Seq<i64>,
    new_deltas: Seq<i64>,
    n: int,
) -> Seq<LineChange>
    decreases n,
{
    if n <= 0 {
        Seq::empty()
    } else {
        let earlier = delta_changes(spans, old_deltas, new_deltas, n - 1);
        if new_deltas[n - 1] == old_deltas[n - 1] {
            earlier
        } else {
            earlier.push(
                delta_change(n - 1, spans[n - 1], old_deltas[n - 1], new_deltas[n - 1]),
            )
        }
    }
}

/// Whether deltas are small enough that no corrected time overflows: a line
/// that is moved lies within the limits of the aligner, and so does the move.
pub open spec fn deltas_fit(spans: Seq<TimeSpan>, deltas: Seq<i64>) -> bool {
    &&& deltas.len() == spans.len()
    &&& forall|i: int|
        0 <= i < deltas.len() ==> -MAX_DELTA_MS <= #[trigger] deltas[i] <= MAX_DELTA_MS && (deltas[i]
            != 0 ==> spans[i].within(ALIGN_LIMIT_MS as int))
}

impl Loaded {
    /// Whether the entries are those of the file, and the spans those of the
    /// entries.
    pub open spec fn wf(&self) -> bool {
        &&& entry_views(self.original_entries@)
            == file_entries(self.file)
        &&& self.original_spans@ == entry_spans(file_entries(self.file))
        &&& file_format(self.file) == self.format
        &&& is_sound(self.file)
    }
}

impl StreamingAligner {
    /// Whether the evidence is merged and every loaded line has its delta.
    pub open spec fn wf(&self) -> bool {
        &&& is_merged(self.vad@)
        &&& match self.loaded {
            Some(loaded) => loaded.wf() && deltas_fit(
                loaded.original_spans@,
                self.current_deltas@,
            ),
            None => self.current_deltas@.len() == 0,
        }
    }

    /// Whether the loaded lines and the configuration lie within the limits of
    /// the aligner.
    pub open spec fn can_align(&self) -> bool {
        self.loaded matches Some(loaded) ==> {
            &&& alignable(loaded.original_spans@)
            &&& self.config.is_valid(loaded.original_spans@.len())
        }
    }

    /// Whether new evidence can be taken in: the lines, the configuration and
    /// all evidence lie within the limits of the aligner. Without a subtitle
    /// there are no limits.
    pub open spec fn can_take(&self, new_spans: Seq<TimeSpan>) -> bool {
        &&& self.can_align()
        &&& self.loaded is Some ==> alignable(self.vad@ + new_spans)
    }

    /// Whether so many bytes of audio can be taken in, whatever is spoken in
    /// them. Audio that is refused has no limits.
    pub open spec fn can_hear(&self, pcm_len: int, sample_rate: u32, start: i64) -> bool {
        rate_of(sample_rate as int) matches Some(rate) ==> {
            let frames = frame_count(pcm_len, rate);
            &&& self.can_align()
            &&& start + 10 * frames <= i64::MAX
            &&& self.loaded is Some ==> {
                &&& alignable(self.vad@)
                &&& -ALIGN_LIMIT_MS <= start
                &&& start + 10 * frames <= ALIGN_LIMIT_MS
                &&& self.vad@.len() + (frames + 1) / 2 <= ALIGN_MAX_SPANS
            }
        }
    }

    /// Whether there is anything to align, and anything to align it to.
    pub open spec fn has_work(&self, vad: Seq<TimeSpan>) -> bool {
        self.loaded matches Some(loaded) && vad.len() > 0 && loaded.original_spans@.len() > 0
    }

    /// Whether the subtitle is freshly loaded: nothing heard and nothing moved.
    pub open spec fn is_fresh(&self) -> bool {
        &&& self.vad@.len() == 0
        &&& self.current_deltas@ == no_deltas(
            match self.loaded {
                Some(loaded) => loaded.original_spans@.len(),
                None => 0,
            },
        )
    }

    /// Whether `after` has the given file as its subtitle, and is otherwise
    /// fresh.
    pub open spec fn replaced_by(
        &self,
        file: subparse::SubtitleFile,
        format: SubtitleFormat,
        after: &Self,
    ) -> bool {
        &&& after.wf()
        &&& after.is_fresh()
        &&& after.config == self.config
        &&& after.loaded matches Some(loaded) && loaded.file == file && loaded.format == format
    }

    /// What loading does with what was parsed: a file is installed and its
    /// entries counted, an error is passed on and nothing changes.
    pub open spec fn loads(
        &self,
        parsed: Result<subparse::SubtitleFile, Seq<char>>,
        format: SubtitleFormat,
        after: &Self,
        r: Result<usize, Error>,
    ) -> bool {
        match parsed {
            Ok(file) => {
                &&& r matches Ok(n) && n == file_entries(file).len()
                &&& self.replaced_by(file, format, after)
            },
            Err(reason) => {
                &&& r matches Err(Error::Parse(msg)) && msg@ == reason
                &&& *after == *self
            },
        }
    }

    /// What a new alignment to the evidence `vad` does: the subtitle and the
    /// configuration stay, the deltas become those of the alignment, and the
    /// changes say how the lines moved.
    pub open spec fn realigned(
        &self,
        vad: Seq<TimeSpan>,
        after: &Self,
        changes: Seq<LineChange>,
    ) -> bool {
        &&& after.vad@ == vad
        &&& after.loaded == self.loaded
        &&& after.config == self.config
        &&& if self.has_work(vad) {
            let spans = self.loaded->0.original_spans@;
            let new_deltas = alignment(
                vad,
                spans,
                self.config.split_penalty,
                self.config.speed_optimization,
            ).0;
            &&& after.current_deltas@ == new_deltas
            &&& changes == delta_changes(
                spans,
                self.current_deltas@,
                new_deltas,
                spans.len() as int,
            )
        } else {
            &&& after.current_deltas@ == self.current_deltas@
            &&& changes == Seq::<LineChange>::empty()
        }
    }

    /// What taking in new evidence does: it is merged with the old, and the
    /// lines are aligned to all of it.
    pub open spec fn ingests(
        &self,
        new_spans: Seq<TimeSpan>,
        after: &Self,
        changes: Seq<LineChange>,
    ) -> bool {
        &&& is_merged(after.vad@)
        &&& forall|t: int| #[trigger]
            covers(after.vad@, t) <==> covers(self.vad@, t) || covers(new_spans, t)
        &&& self.realigned(after.vad@, after, changes)
    }

    /// What may be exported: the bytes of the loaded file with every entry
    /// moved by its delta, or nothing if there is no file or it cannot be
    /// changed. Those of a SubRip file are its blocks with the moved times.
    pub open spec fn may_export(&self, r: Option<Seq<u8>>) -> bool {
        match self.loaded {
            None => r is None,
            Some(loaded) => match updated_file(
                loaded.file,
                shifted_entries(file_entries(loaded.file), self.current_deltas@),
            ) {
                Err(_) => r is None,
                Ok(file) => {
                    &&& r matches Some(data)
                    &&& is_data_of(file, data)
                    &&& valid_utf8(data)
                    &&& !(loaded.format is MicroDVD) ==> data == file_data(file)
                    &&& loaded.format is SubRip ==> data == encode_utf8(
                        subrip_text(
                            entry_numbers(loaded.file),
                            shifted_entries(file_entries(loaded.file), self.current_deltas@),
                        ),
                    )
                },
            },
        }
    }

    /// Whether the corrected times get into a file that is exported: there is
    /// such a file unless the format is the binary one. It has the texts of
    /// the loaded file and, if it is a SubRip or SubStation Alpha file, every
    /// entry is moved by its delta.
    pub open spec fn carries_corrections(&self) -> bool {
        self.loaded matches Some(loaded) ==> {
            let entries = shifted_entries(file_entries(loaded.file), self.current_deltas@);
            let updated = updated_file(loaded.file, entries);
            &&& updated is Err <==> loaded.format is VobSubSub
            &&& has_texts(loaded.format) ==> entries_replaced(
                loaded.format,
                file_entries(loaded.file),
                entries,
                file_entries(updated->Ok_0),
            )
        }
    }

    /// Whether an exported SubRip file reads as the corrected one: parsing its
    /// bytes gives every entry of the loaded file moved by its delta, with its
    /// own text. This is said where the encoding of what is written is certain.
    pub open spec fn reads_back(&self, r: Option<Seq<u8>>) -> bool {
        self.loaded matches Some(loaded) ==> loaded.format is SubRip ==> loaded.original_spans@.len()
            > 0 ==> encoding_certain(file_entries(loaded.file)) ==> (r matches Some(data) && reads_as(
            data,
            shifted_entries(file_entries(loaded.file), self.current_deltas@),
        ))
    }
}

/// The bytes of a vector that may be missing.
pub open spec fn bytes_view(r: Option<Vec<u8>>) -> Option<Seq<u8>> {
    match r {
        Some(data) => Some(data@),
        None => None,
    }
}

/// The text that exported bytes stand for, where they are UTF-8.
pub open spec fn text_of_bytes(r: Option<Seq<u8>>) -> Option<Seq<char>> {
    match r {
        Some(data) => if valid_utf8(data) {
            Some(decode_utf8(data))
        } else {
            None
        },
        None => None,
    }
}

/// Whether a corrected line is that of the entry with index `i`, moved by
/// `delta`.
pub open spec fn is_corrected(line: CorrectedLine, i: int, entry: EntryView, delta: i64) -> bool {
    &&& line.index == i
    &&& line.original_start_ms == entry_span(entry).start
    &&& line.original_end_ms == entry_span(entry).end
    &&& line.start_ms == entry_span(entry).start + delta
    &&& line.end_ms == entry_span(entry).end + delta
    &&& line.delta_ms == delta
    &&& text_view(line.text) == entry.line
}

impl StreamingAligner {
    pub fn new() -> (r: Self)
        ensures
            r.wf(),
            r.is_fresh(),
            r.loaded is None,
            r.config == default_config(),
    {
        Self::with_config(Config::default())
    }

    pub fn with_config(config: Config) -> (r: Self)
        ensures
            r.wf(),
            r.is_fresh(),
            r.loaded is None,
            r.config == config,
    {
        let r: Self = StreamingAligner {
            config,
            loaded: None,
            vad: Vec::new(),
            current_deltas: Vec::new(),
        };
        assert(r.current_deltas@ =~= no_deltas(0));
        r
    }

    pub fn config(&self) -> (r: &Config)
        ensures
            *r == self.config,
    {
        &self.config
    }

    pub fn set_config(&mut self, config: Config)
        ensures
            final(self).config == config,
            final(self).loaded == old(self).loaded,
            final(self).vad == old(self).vad,
            final(self).current_deltas == old(self).current_deltas,
    {
        self.config = config;
    }

    /// Load or replace the subtitle file. Clears all VAD evidence and
    /// applied deltas so the next ingest starts fresh.
    ///
    /// `format` is hinted explicitly; callers that don't know the format
    /// up-front should use `load_subtitle_bytes`.
    pub fn load_subtitle(&mut self, content: &str, format: SubtitleFormat) -> (r: Result<
        usize,
        Error,
    >)
        requires
            readable(format, encode_utf8(content@)),
        ensures
            old(self).loads(
                parsed_file(format, encode_utf8(content@), FRAMES_PER_SECOND),
                format,
                final(self),
                r,
            ),
    {
        match parse_file(format, content.as_bytes(), FRAMES_PER_SECOND) {
            Ok(file) => self.install(file, format),
            Err(e) => Err(Error::Parse(e)),
        }
    }

    /// Like `load_subtitle`, but detects format from the bytes (and optional
    /// filename-derived hint like `"srt"` / `"ass"`) and handles encoding.
    pub fn load_subtitle_bytes(&mut self, bytes: &[u8], extension_hint: Option<&str>) -> (r: Result<
        usize,
        Error,
    >)
        requires
            detected_format(str_view(extension_hint), bytes@) matches Some(format) ==> readable(
                format,
                bytes@,
            ),
        ensures
            match detected_format(str_view(extension_hint), bytes@) {
                Some(format) => old(self).loads(
                    parsed_file(format, bytes@, FRAMES_PER_SECOND),
                    format,
                    final(self),
                    r,
                ),
                None => r matches Err(Error::UnknownFormat) && *final(self) == *old(self),
            },
    {
        let format: SubtitleFormat = match detect_format(extension_hint, bytes) {
            Some(format) => format,
            None => return Err(Error::UnknownFormat),
        };
        match parse_file(format, bytes, FRAMES_PER_SECOND) {
            Ok(file) => self.install(file, format),
            Err(e) => Err(Error::Parse(e)),
        }
    }

    /// Makes a parsed file the loaded subtitle and starts afresh.
    pub fn install(&mut self, file: subparse::SubtitleFile, format: SubtitleFormat) -> (r: Result<
        usize,
        Error,
    >)
        requires
            file_format(file) == format,
            is_sound(file),
        ensures
            r matches Ok(n) && n == file_entries(file).len(),
            old(self).replaced_by(file, format, final(self)),
    {
        let entries: Vec<SubtitleEntry> = match read_entries(&file) {
            Ok(entries) => entries,
            Err(e) => return Err(Error::Parse(e)),
        };
        let original_spans: Vec<TimeSpan> = spans_of_entries(&entries);
        let count: usize = original_spans.len();
        self.current_deltas = zeros(count);
        self.vad.clear();
        self.loaded = Some(Loaded { format, file, original_spans, original_entries: entries });
        Ok(count)
    }

    /// Ingest a chunk of raw 16-bit signed little-endian mono PCM whose first
    /// sample corresponds to `film_start_ms`. Runs WebRTC VAD, merges the
    /// resulting speech spans into accumulated evidence, and re-runs
    /// the alignment. Returns one `LineChange` per line whose applied
    /// delta moved.
    pub fn ingest_pcm(&mut self, pcm: &[u8], sample_rate: u32, film_start_ms: i64) -> (r: Result<
        Vec<LineChange>,
        Error,
    >)
        requires
            old(self).wf(),
            old(self).can_hear(pcm@.len() as int, sample_rate, film_start_ms),
        ensures
            final(self).wf(),
            match rate_of(sample_rate as int) {
                None => r matches Err(Error::InvalidSampleRate(n)) && n == sample_rate
                    && *final(self) == *old(self),
                Some(rate) => r matches Ok(changes) && old(self).ingests(
                    speech_in(
                        pcm@,
                        rate,
                        mode_of(old(self).config.vad_mode as int),
                        film_start_ms as int,
                    ),
                    final(self),
                    changes@,
                ),
            },
    {
        if sample_rate != 8000 && sample_rate != 16000 {
            return Err(Error::InvalidSampleRate(sample_rate));
        }
        let mode: VadMode = mode_from_u8(self.config.vad_mode);
        let spans: Vec<TimeSpan> = pcm_to_spans(pcm, sample_rate, film_start_ms, mode);
        proof {
            let rate = rate_of(sample_rate as int)->0;
            let flags = voice_flags(rate, mode, frames_of(pcm@, rate));
            law_speech_spans_are_merged(flags, film_start_ms as int);
            if self.loaded is Some {
                let both = self.vad@ + spans@;
                assert forall|i: int| 0 <= i < both.len() implies (#[trigger] both[i]).ordered()
                    && both[i].within(ALIGN_LIMIT_MS as int) by {
                    if i >= self.vad@.len() {
                        assert(both[i] == spans@[i - self.vad@.len()]);
                    } else {
                        assert(both[i] == self.vad@[i]);
                    }
                }
            }
        }
        Ok(self.ingest_vad_spans(spans.as_slice()))
    }

    /// Ingest pre-computed VAD speech spans (absolute film-time, ms-metric).
    /// Useful for tests and for callers that run their own VAD or speech-
    /// activity detector. Spans may be in any order and may overlap with
    /// previously-ingested evidence; they will be merged.
    pub fn ingest_vad_spans(&mut self, new_spans: &[TimeSpan]) -> (changes: Vec<LineChange>)
        requires
            old(self).wf(),
            old(self).can_take(new_spans@),
        ensures
            final(self).wf(),
            old(self).ingests(new_spans@, final(self), changes@),
    {
        let ghost before = self.vad@;
        if new_spans.len() > 0 {
            let mut all: Vec<TimeSpan> = Vec::new();
            std::mem::swap(&mut all, &mut self.vad);
            all.extend_from_slice(new_spans);
            assert(all@ =~= before + new_spans@);
            let merged: Vec<TimeSpan> = merge_spans(all);
            proof {
                assert forall|t: int| covers(merged@, t) <==> covers(before, t) || covers(
                    new_spans@,
                    t,
                ) by {
                    lemma_covers_concat(before, new_spans@, t);
                }
            }
            self.vad = merged;
        } else {
            assert forall|t: int| !covers(new_spans@, t) by {}
            assert(before + new_spans@ =~= before);
        }
        proof {
            if self.loaded is Some {
                assert forall|t: int| covers(self.vad@, t) <==> covers(before + new_spans@, t) by {
                    lemma_covers_concat(before, new_spans@, t);
                }
                lemma_merged_alignable(before + new_spans@, self.vad@);
            }
        }
        self.recompute_alignment()
    }

    /// Whether the loaded lines and the configuration lie within the limits of
    /// the aligner.
    fn check_limits(&self) -> (r: bool)
        ensures
            r == self.can_align(),
    {
        match &self.loaded {
            Some(loaded) => check_spans(loaded.original_spans.as_slice()) && check_penalty(
                self.config.split_penalty,
                loaded.original_spans.len(),
            ) && match self.config.speed_optimization {
                Some(s) => check_speed(s, loaded.original_spans.len()),
                None => true,
            },
            None => true,
        }
    }

    /// Whether `ingest_vad_spans` can be called with these spans.
    pub fn can_ingest_vad_spans(&self, new_spans: &[TimeSpan]) -> (r: bool)
        ensures
            r == self.can_take(new_spans@),
    {
        if !self.check_limits() {
            return false;
        }
        if self.loaded.is_none() {
            return true;
        }
        let known: usize = self.vad.len();
        let count: usize = new_spans.len();
        let ghost both = self.vad@ + new_spans@;
        if !check_spans(self.vad.as_slice()) {
            assert(!alignable(both)) by {
                if alignable(both) {
                    assert forall|i: int| 0 <= i < known implies (#[trigger] self.vad@[i]).ordered()
                        && self.vad@[i].within(ALIGN_LIMIT_MS as int) by {
                        assert(both[i] == self.vad@[i]);
                    }
                }
            }
            return false;
        }
        if !check_spans(new_spans) {
            assert(!alignable(both)) by {
                if alignable(both) {
                    assert forall|i: int| 0 <= i < count implies (
                    #[trigger] new_spans@[i]).ordered() && new_spans@[i].within(
                        ALIGN_LIMIT_MS as int,
                    ) by {
                        assert(both[known + i] == new_spans@[i]);
                    }
                }
            }
            return false;
        }
        proof {
            assert forall|i: int| 0 <= i < both.len() implies (#[trigger] both[i]).ordered()
                && both[i].within(ALIGN_LIMIT_MS as int) by {
                if i < known {
                    assert(both[i] == self.vad@[i]);
                } else {
                    assert(both[i] == new_spans@[i - known]);
                }
            }
        }
        known <= ALIGN_MAX_SPANS - count
    }

    /// Whether `ingest_pcm` can be called with this audio.
    pub fn can_ingest_pcm(&self, pcm: &[u8], sample_rate: u32, film_start_ms: i64) -> (r: bool)
        ensures
            r == self.can_hear(pcm@.len() as int, sample_rate, film_start_ms),
    {
        let length: usize = match sample_rate {
            8000 => 80,
            16000 => 160,
            _ => return true,
        };
        let frames: usize = pcm.len() / 2 / length;
        assert(frames == frame_count(pcm@.len() as int, rate_of(sample_rate as int)->0));
        if !self.check_limits() {
            return false;
        }
        let end: i128 = film_start_ms as i128 + 10 * (frames as i128);
        if self.loaded.is_none() {
            return end <= i64::MAX as i128;
        }
        check_spans(self.vad.as_slice()) && -ALIGN_LIMIT_MS <= film_start_ms && end
            <= ALIGN_LIMIT_MS as i128 && self.vad.len() as u128 + (frames as u128 + 1) / 2
            <= ALIGN_MAX_SPANS as u128
    }

    /// Aligns the lines to the evidence and says how they moved.
    pub fn recompute_alignment(&mut self) -> (changes: Vec<LineChange>)
        requires
            old(self).wf(),
            old(self).can_align(),
            old(self).loaded is Some ==> alignable(old(self).vad@),
        ensures
            final(self).wf(),
            old(self).realigned(old(self).vad@, final(self), changes@),
    {
        let new_deltas: Vec<i64> = match &self.loaded {
            Some(loaded) => {
                if self.vad.len() == 0 || loaded.original_spans.len() == 0 {
                    return Vec::new();
                }
                let (new_deltas, _score): (Vec<i64>, Binary64) = align(
                    &self.vad,
                    &loaded.original_spans,
                    self.config.split_penalty,
                    self.config.speed_optimization,
                );
                new_deltas
            },
            None => return Vec::new(),
        };
        self.apply_deltas(new_deltas)
    }

    /// Moves every line to its new delta and says which lines moved.
    pub fn apply_deltas(&mut self, new_deltas: Vec<i64>) -> (changes: Vec<LineChange>)
        requires
            old(self).wf(),
            old(self).loaded matches Some(loaded) && deltas_fit(
                loaded.original_spans@,
                new_deltas@,
            ),
        ensures
            final(self).wf(),
            final(self).current_deltas@ == new_deltas@,
            final(self).loaded == old(self).loaded,
            final(self).config == old(self).config,
            final(self).vad == old(self).vad,
            changes@ == delta_changes(
                old(self).loaded->0.original_spans@,
                old(self).current_deltas@,
                new_deltas@,
                new_deltas@.len() as int,
            ),
    {
        let mut changes: Vec<LineChange> = Vec::new();
        if let Some(loaded) = &self.loaded {
            let n: usize = new_deltas.len();
            let mut i: usize = 0;
            while i < n
                invariant
                    i <= n,
                    n == new_deltas@.len(),
                    deltas_fit(loaded.original_spans@, new_deltas@),
                    deltas_fit(loaded.original_spans@, self.current_deltas@),
                    changes@ == delta_changes(
                        loaded.original_spans@,
                        self.current_deltas@,
                        new_deltas@,
                        i as int,
                    ),
                decreases n - i,
            {
                let new_delta: i64 = new_deltas[i];
                let old_delta: i64 = self.current_deltas[i];
                if new_delta != old_delta {
                    let orig: TimeSpan = loaded.original_spans[i];
                    changes.push(
                        LineChange {
                            line_index: i,
                            old_start_ms: orig.start + old_delta,
                            old_end_ms: orig.end + old_delta,
                            new_start_ms: orig.start + new_delta,
                            new_end_ms: orig.end + new_delta,
                            delta_change_ms: new_delta - old_delta,
                        },
                    );
                }
                i = i + 1;
            }
        }
        self.current_deltas = new_deltas;
        changes
    }

    /// Clear all VAD evidence and applied deltas, keeping the loaded
    /// subtitle. After reset, the next ingest starts alignment from scratch.
    pub fn reset(&mut self)
        requires
            old(self).wf(),
        ensures
            final(self).wf(),
            final(self).is_fresh(),
            final(self).loaded == old(self).loaded,
            final(self).config == old(self).config,
    {
        self.vad.clear();
        let count: usize = match &self.loaded {
            Some(loaded) => loaded.original_spans.len(),
            None => 0,
        };
        self.current_deltas = zeros(count);
    }

    /// Number of subtitle lines currently loaded.
    pub fn line_count(&self) -> (n: usize)
        ensures
            n == match self.loaded {
                Some(loaded) => loaded.original_spans@.len(),
                None => 0,
            },
    {
        match &self.loaded {
            Some(loaded) => loaded.original_spans.len(),
            None => 0,
        }
    }

    /// Read-only view of the accumulated VAD evidence (merged, sorted).
    pub fn vad_evidence(&self) -> (spans: &[TimeSpan])
        ensures
            spans@ == self.vad@,
    {
        self.vad.as_slice()
    }

    /// Per-line current delta in ms. Zero for lines that have not been moved
    /// from their original timing.
    pub fn current_deltas_ms(&self) -> (deltas: Vec<i64>)
        ensures
            deltas@ == self.current_deltas@,
    {
        let deltas: Vec<i64> = self.current_deltas.clone();
        assert(deltas@ =~= self.current_deltas@);
        deltas
    }

    /// Snapshot the current corrected subtitle timeline.
    pub fn corrected_lines(&self) -> (lines: Vec<CorrectedLine>)
        requires
            self.wf(),
        ensures
            match self.loaded {
                None => lines@.len() == 0,
                Some(loaded) => {
                    &&& lines@.len() == file_entries(loaded.file).len()
                    &&& forall|i: int|
                        0 <= i < lines@.len() ==> is_corrected(
                            #[trigger] lines@[i],
                            i,
                            file_entries(loaded.file)[i],
                            self.current_deltas@[i],
                        )
                },
            },
    {
        let mut lines: Vec<CorrectedLine> = Vec::new();
        let loaded: &Loaded = match &self.loaded {
            Some(loaded) => loaded,
            None => return lines,
        };
        let ghost entries = file_entries(loaded.file);
        let n: usize = loaded.original_spans.len();
        let mut i: usize = 0;
        while i < n
            invariant
                i <= n,
                loaded.wf(),
                entries == file_entries(loaded.file),
                n == loaded.original_spans@.len(),
                deltas_fit(loaded.original_spans@, self.current_deltas@),
                lines@.len() == i,
                forall|k: int|
                    0 <= k < i ==> is_corrected(
                        #[trigger] lines@[k],
                        k,
                        entries[k],
                        self.current_deltas@[k],
                    ),
            decreases n - i,
        {
            let orig: TimeSpan = loaded.original_spans[i];
            let delta: i64 = self.current_deltas[i];
            let entry: &SubtitleEntry = &loaded.original_entries[i];
            assert(entry_views(loaded.original_entries@)[i as int] == entries[i as int]);
            lines.push(
                CorrectedLine {
                    index: i,
                    original_start_ms: orig.start,
                    original_end_ms: orig.end,
                    start_ms: orig.start + delta,
                    end_ms: orig.end + delta,
                    delta_ms: delta,
                    text: copy_line(&entry.line),
                },
            );
            i = i + 1;
        }
        lines
    }

    /// Serialise the corrected subtitle back to its original format (as
    /// produced by subparse). Returns `None` if no subtitle is loaded. A
    /// VobSub index that has an entry has no such export.
    pub fn export(&self) -> (r: Option<Vec<u8>>)
        requires
            self.wf(),
            self.loaded matches Some(loaded) ==> loaded.format is VobSubIdx
                ==> loaded.original_spans@.len() == 0,
        ensures
            self.may_export(bytes_view(r)),
            self.carries_corrections(),
            self.reads_back(bytes_view(r)),
    {
        let loaded: &Loaded = match &self.loaded {
            Some(loaded) => loaded,
            None => return None,
        };
        let mut file: subparse::SubtitleFile = copy_file(&loaded.file);
        let ghost entries = file_entries(loaded.file);
        let n: usize = loaded.original_entries.len();
        let mut updated: Vec<SubtitleEntry> = Vec::with_capacity(n);
        let mut i: usize = 0;
        while i < n
            invariant
                i <= n,
                loaded.wf(),
                entries == file_entries(loaded.file),
                n == loaded.original_entries@.len(),
                deltas_fit(loaded.original_spans@, self.current_deltas@),
                updated@.len() == i,
                forall|k: int|
                    0 <= k < i ==> (#[trigger] updated@[k])@ == shifted_entry(
                        entries[k],
                        self.current_deltas@[k],
                    ),
            decreases n - i,
        {
            let entry: &SubtitleEntry = &loaded.original_entries[i];
            let delta: i64 = self.current_deltas[i];
            assert(entry_views(loaded.original_entries@)[i as int] == entries[i as int]);
            assert(loaded.original_spans@[i as int] == entry_span(entries[i as int]));
            let span: TimeSpan = span_of_entry(entry);
            updated.push(
                SubtitleEntry {
                    start_ms: span.start + delta,
                    end_ms: span.end + delta,
                    line: copy_line(&entry.line),
                },
            );
            i = i + 1;
        }
        proof {
            assert(entry_views(updated@) =~= shifted_entries(entries, self.current_deltas@));
            if loaded.format is SubStationAlpha {
                assert forall|k: int| 0 <= k < updated@.len() implies (#[trigger] entry_views(
                    updated@,
                )[k]).start_ms > i64::MIN && entry_views(updated@)[k].end_ms > i64::MIN by {
                    assert(entries[k].start_ms > i64::MIN);
                    assert(loaded.original_spans@[k] == entry_span(entries[k]));
                }
            }
        }
        match replace_entries(&mut file, &updated) {
            Ok(_) => {},
            Err(_) => return None,
        }
        proof {
            let moved = shifted_entries(entries, self.current_deltas@);
            if loaded.format is SubStationAlpha {
                lemma_written_times(entries, moved, file_entries(file));
            } else if loaded.format is SubRip {
                assert forall|k: int| 0 <= k < entries.len() implies #[trigger] file_entries(file)[k]
                    == moved[k] by {
                    assert(entries[k].line is Some);
                    lemma_tidy_is_plain(entries[k].line->0);
                    assert(moved[k].line == entries[k].line);
                }
                assert(file_entries(file) =~= moved);
                lemma_texts_stay(entries, file_entries(file));
            }
        }
        match write_file(&file) {
            Ok(data) => Some(data),
            Err(_) => None,
        }
    }

    /// Same as `export` but returns UTF-8 text. Returns `None` if there is no
    /// subtitle or it is a binary one; any other is exported as UTF-8.
    pub fn export_text(&self) -> (r: Option<String>)
        requires
            self.wf(),
            self.loaded matches Some(loaded) ==> loaded.format is VobSubIdx
                ==> loaded.original_spans@.len() == 0,
        ensures
            exists|data: Option<Seq<u8>>|
                {
                    &&& text_view(r) == #[trigger] text_of_bytes(data)
                    &&& self.may_export(data)
                    &&& self.reads_back(data)
                },
            self.carries_corrections(),
            r is Some <==> (self.loaded matches Some(loaded) && !(loaded.format is VobSubSub)),
    {
        let r: Option<Vec<u8>> = self.export();
        let ghost written = bytes_view(r);
        let text: Option<String> = match r {
            Some(data) => match utf8_text(data) {
                Ok(text) => Some(text),
                Err(_) => None,
            },
            None => None,
        };
        assert(text_view(text) == text_of_bytes(written));
        text
    }

    /// The loaded subtitle's detected format, if any.
    pub fn format(&self) -> (format: Option<SubtitleFormat>)
        ensures
            format == match self.loaded {
                Some(loaded) => Some(loaded.format),
                None => None,
            },
    {
        match &self.loaded {
            Some(loaded) => Some(loaded.format),
            None => None,
        }
    }
}

/// The moments that two lists cover together.
proof fn lemma_covers_concat(a: Seq<TimeSpan>, b: Seq<TimeSpan>, t: int)
    ensures
        covers(a + b, t) <==> covers(a, t) || covers(b, t),
{
    let both = a + b;
    if covers(a, t) {
        let i = choose|i: int| 0 <= i < a.len() && (#[trigger] a[i]).holds(t);
        assert(both[i].holds(t));
    }
    if covers(b, t) {
        let i = choose|i: int| 0 <= i < b.len() && (#[trigger] b[i]).holds(t);
        assert(both[a.len() + i].holds(t));
    }
    if covers(both, t) {
        let i = choose|i: int| 0 <= i < both.len() && (#[trigger] both[i]).holds(t);
        if i < a.len() {
            assert(a[i].holds(t));
        } else {
            assert(b[i - a.len()].holds(t));
        }
    }
}

/// Merging takes no span beyond the limits of the aligner.
proof fn lemma_merged_alignable(spans: Seq<TimeSpan>, merged: Seq<TimeSpan>)
    requires
        alignable(spans),
        is_merged(merged),
        merged.len() <= spans.len(),
        forall|t: int| covers(merged, t) <==> covers(spans, t),
    ensures
        alignable(merged),
{
    assert forall|i: int| 0 <= i < merged.len() implies (#[trigger] merged[i]).ordered()
        && merged[i].within(ALIGN_LIMIT_MS as int) by {
        let s = merged[i].start as int;
        let e = merged[i].end - 1;
        assert(merged[i].holds(s) && merged[i].holds(e));
        assert(covers(merged, s) && covers(merged, e));
        assert(covers(spans, s) && covers(spans, e));
        let j = choose|j: int| 0 <= j < spans.len() && (#[trigger] spans[j]).holds(s);
        let k = choose|k: int| 0 <= k < spans.len() && (#[trigger] spans[k]).holds(e);
        assert(spans[j].within(ALIGN_LIMIT_MS as int));
        assert(spans[k].within(ALIGN_LIMIT_MS as int));
    }
}

impl Default for StreamingAligner {
    fn default() -> (r: Self)
        ensures
            r.wf(),
            r.is_fresh(),
            r.loaded is None,
            r.config == default_config(),
    {
        Self::new()
    }
}

/// The span of an entry, its ends in order.
fn span_of_entry(entry: &SubtitleEntry) -> (span: TimeSpan)
    ensures
        span == entry_span(entry@),
        span.ordered(),
{
    if entry.start_ms <= entry.end_ms {
        TimeSpan::new(entry.start_ms, entry.end_ms)
    } else {
        TimeSpan::new(entry.end_ms, entry.start_ms)
    }
}

/// The spans of all entries.
pub fn spans_of_entries(entries: &Vec<SubtitleEntry>) -> (spans: Vec<TimeSpan>)
    ensures
        spans@ == entry_spans(entry_views(entries@)),
{
    let mut spans: Vec<TimeSpan> = Vec::with_capacity(entries.len());
    let mut i: usize = 0;
    while i < entries.len()
        invariant
            i <= entries.len(),
            spans@ == entry_spans(entry_views(entries@)).take(i as int),
        decreases entries.len() - i,
    {
        spans.push(span_of_entry(&entries[i]));
        assert(spans@ =~= entry_spans(entry_views(entries@)).take(i + 1));
        i = i + 1;
    }
    assert(spans@ =~= entry_spans(entry_views(entries@)));
    spans
}

/// The same text once more.
fn copy_line(line: &Option<String>) -> (r: Option<String>)
    ensures
        text_view(r) == text_view(*line),
{
    match line {
        Some(text) => Some(text.clone()),
        None => None,
    }
}

/// As many zeros.
fn zeros(n: usize) -> (v: Vec<i64>)
    ensures
        v@ == no_deltas(n as nat),
{
    let v: Vec<i64> = vec![0i64; n];
    assert(v@ =~= no_deltas(n as nat));
    v
}

} // verus!
