//! Loading a subtitle into the engine, starting over, and looking at what the
//! engine holds.

use crate::anchor::Anchor;
use crate::engine::{AlignmentEngine, ProcessedChunk, SubtitleState};
use crate::ids::{id_string, id_text};
use crate::proto::{AnchorInfo, ChunkInfo};
use crate::readable::{is_readable, readable};
use crate::single::narrowed;
use crate::subtitle_file::{
    entry_views, file_entries, parse_file, parsed_file, read_entries, EntryView, SubtitleEntry,
    SubtitleFormat,
};
use crate::text::same_text;
use vstd::prelude::*;
use vstd::utf8::encode_utf8;

verus! {

/// The frame rate by which frame numbers in a file are converted to times.
pub const FRAMES_PER_SECOND: u32 = 30;

/// The format that a name stands for: `srt`, `ass` or `ssa`.
pub open spec fn named_format(name: Seq<char>) -> Option<SubtitleFormat> {
    if name == "srt"@ {
        Some(SubtitleFormat::SubRip)
    } else if name == "ass"@ || name == "ssa"@ {
        Some(SubtitleFormat::SubStationAlpha)
    } else {
        None
    }
}

/// The format that a name stands for.
pub fn format_from_name(name: &str) -> (r: Option<SubtitleFormat>)
    ensures
        r == named_format(name@),
{
    if same_text(name, "srt") {
        Some(SubtitleFormat::SubRip)
    } else if same_text(name, "ass") || same_text(name, "ssa") {
        Some(SubtitleFormat::SubStationAlpha)
    } else {
        None
    }
}

/// Whether a subtitle of this content can be handed to `load_subtitle`.
pub fn can_load(content: &str, format: &str) -> (r: bool)
    ensures
        r == (named_format(format@) matches Some(f) ==> readable(f, encode_utf8(content@))),
{
    match format_from_name(format) {
        Some(f) => is_readable(f, content.as_bytes()),
        None => true,
    }
}

/// The times of an entry, the lesser one first.
pub open spec fn line_times(entry: EntryView) -> (i64, i64) {
    if entry.start_ms <= entry.end_ms {
        (entry.start_ms, entry.end_ms)
    } else {
        (entry.end_ms, entry.start_ms)
    }
}

/// The text of an entry, empty where there is none.
pub open spec fn line_text(entry: EntryView) -> Seq<char> {
    match entry.line {
        Some(text) => text,
        None => Seq::empty(),
    }
}

impl SubtitleState {
    /// Whether no line has been moved.
    pub open spec fn is_uncorrected(&self) -> bool {
        &&& self.corrected_start_ms@.len() == self.original_timespans@.len()
        &&& self.corrected_end_ms@.len() == self.original_timespans@.len()
        &&& forall|i: int|
            0 <= i < self.original_timespans@.len() ==> #[trigger] self.corrected_start_ms@[i]
                == self.original_timespans@[i].0
        &&& forall|i: int|
            0 <= i < self.original_timespans@.len() ==> #[trigger] self.corrected_end_ms@[i]
                == self.original_timespans@[i].1
    }

    /// Whether this is the subtitle of the given format and content with the
    /// given entries, with no line moved.
    pub open spec fn is_of(
        &self,
        format: Seq<char>,
        content: Seq<u8>,
        entries: Seq<EntryView>,
    ) -> bool {
        &&& self.format_str@ == format
        &&& self.raw_content@ == content
        &&& self.original_timespans@.len() == entries.len()
        &&& forall|i: int|
            0 <= i < entries.len() ==> #[trigger] self.original_timespans@[i] == line_times(
                entries[i],
            )
        &&& self.line_texts@.len() == entries.len()
        &&& forall|i: int|
            0 <= i < entries.len() ==> (#[trigger] self.line_texts@[i])@ == line_text(entries[i])
        &&& self.is_uncorrected()
    }

    /// Whether the content is that of a file of the named format which has as
    /// many entries as there are lines.
    pub open spec fn is_of_its_content(&self) -> bool {
        &&& named_format(self.format_str@) matches Some(format) && {
            &&& readable(format, self.raw_content@)
            &&& parsed_file(format, self.raw_content@, FRAMES_PER_SECOND) matches Ok(file)
                && file_entries(file).len() == self.original_timespans@.len()
        }
    }

    /// Whether no corrected time is the least of all, which no SubStation
    /// Alpha file can hold.
    pub open spec fn is_writable(&self) -> bool {
        &&& forall|i: int|
            0 <= i < self.corrected_start_ms@.len() ==> #[trigger] self.corrected_start_ms@[i]
                > i64::MIN
        &&& forall|i: int|
            0 <= i < self.corrected_end_ms@.len() ==> #[trigger] self.corrected_end_ms@[i]
                > i64::MIN
    }
}

/// The subtitle of the given format and content with the given entries.
fn make_subtitle(content: &[u8], format: &str, entries: &Vec<SubtitleEntry>) -> (sub: SubtitleState)
    ensures
        sub.is_of(format@, content@, entry_views(entries@)),
        sub.wf(),
{
    let n: usize = entries.len();
    let ghost views = entry_views(entries@);
    let mut original_timespans: Vec<(i64, i64)> = Vec::with_capacity(n);
    let mut corrected_start_ms: Vec<i64> = Vec::with_capacity(n);
    let mut corrected_end_ms: Vec<i64> = Vec::with_capacity(n);
    let mut line_texts: Vec<String> = Vec::with_capacity(n);
    let mut i: usize = 0;
    while i < n
        invariant
            i <= n,
            n == entries@.len(),
            views == entry_views(entries@),
            original_timespans@.len() == i,
            corrected_start_ms@.len() == i,
            corrected_end_ms@.len() == i,
            line_texts@.len() == i,
            forall|k: int|
                0 <= k < i ==> #[trigger] original_timespans@[k] == line_times(views[k]),
            forall|k: int| 0 <= k < i ==> (#[trigger] line_texts@[k])@ == line_text(views[k]),
            forall|k: int|
                0 <= k < i ==> #[trigger] corrected_start_ms@[k] == original_timespans@[k].0,
            forall|k: int|
                0 <= k < i ==> #[trigger] corrected_end_ms@[k] == original_timespans@[k].1,
        decreases n - i,
    {
        let entry: &SubtitleEntry = &entries[i];
        assert(views[i as int] == entry@);
        let (start, end): (i64, i64) = if entry.start_ms <= entry.end_ms {
            (entry.start_ms, entry.end_ms)
        } else {
            (entry.end_ms, entry.start_ms)
        };
        original_timespans.push((start, end));
        corrected_start_ms.push(start);
        corrected_end_ms.push(end);
        line_texts.push(
            match &entry.line {
                Some(text) => text.clone(),
                None => String::new(),
            },
        );
        i = i + 1;
    }
    let mut raw_content: Vec<u8> = Vec::with_capacity(content.len());
    raw_content.extend_from_slice(content);
    assert(raw_content@ =~= content@);
    SubtitleState {
        format_str: format.to_string(),
        raw_content,
        original_timespans,
        corrected_start_ms,
        corrected_end_ms,
        line_texts,
    }
}

/// What an anchor looks like from outside.
pub open spec fn shows_anchor(info: AnchorInfo, a: Anchor) -> bool {
    &&& info.id@ == id_text(a.id)
    &&& info.film_position_ms == a.film_position_ms
    &&& info.delta_ms == a.delta_ms
    &&& info.confidence == narrowed(a.confidence)
    &&& info.line_start == a.line_start as i32
    &&& info.line_end == a.line_end as i32
    &&& info.chunk_id@ == id_text(a.chunk_id)
}

/// What a chunk looks like from outside.
pub open spec fn shows_chunk(info: ChunkInfo, c: ProcessedChunk) -> bool {
    &&& info.id@ == id_text(c.id)
    &&& info.film_start_ms == c.film_start_ms
    &&& info.film_end_ms == c.film_end_ms
    &&& info.anchor_ids@.len() == c.anchor_ids@.len()
    &&& forall|i: int|
        0 <= i < info.anchor_ids@.len() ==> (#[trigger] info.anchor_ids@[i])@ == id_text(
            c.anchor_ids@[i],
        )
}

impl AlignmentEngine {
    /// Whether nothing has been aligned: there are no anchors and no chunks,
    /// and no line has been moved.
    pub open spec fn is_unaligned(&self) -> bool {
        &&& self.anchors@.len() == 0
        &&& self.chunks@.len() == 0
        &&& self.subtitle matches Some(sub) ==> sub.is_uncorrected()
    }

    /// Whether `after` is the engine with a subtitle of the given format,
    /// content and entries, and nothing aligned.
    pub open spec fn is_loaded_with(
        &self,
        format: Seq<char>,
        content: Seq<u8>,
        entries: Seq<EntryView>,
        after: &Self,
    ) -> bool {
        &&& after.wf()
        &&& after.is_unaligned()
        &&& after.config == self.config
        &&& after.subtitle matches Some(sub) && sub.is_of(format, content, entries)
    }

    /// Makes parsed entries the loaded subtitle and clears the alignment
    /// state. Returns the number of lines and the format.
    pub fn install(&mut self, content: &[u8], format: &str, entries: Vec<SubtitleEntry>) -> (r: (
        i32,
        String,
    ))
        ensures
            old(self).is_loaded_with(format@, content@, entry_views(entries@), final(self)),
            r.0 == entries@.len() as i32,
            r.1@ == format@,
    {
        self.subtitle = Some(make_subtitle(content, format, &entries));
        self.anchors.clear();
        self.chunks.clear();
        (entries.len() as i32, format.to_string())
    }

    /// Loads a subtitle from its text and the name of its format. Returns the
    /// number of lines and the format.
    pub fn load_subtitle(&mut self, content: &str, format: &str) -> (r: Result<
        (i32, String),
        String,
    >)
        requires
            named_format(format@) matches Some(f) ==> readable(f, encode_utf8(content@)),
        ensures
            match named_format(format@) {
                None => r matches Err(e) && e@ == "unsupported format: "@ + format@
                    && *final(self) == *old(self),
                Some(f) => match parsed_file(f, encode_utf8(content@), FRAMES_PER_SECOND) {
                    Err(reason) => r matches Err(e) && e@ == "parse error: "@ + reason
                        && *final(self) == *old(self),
                    Ok(file) => {
                        &&& r matches Ok(loaded)
                        &&& loaded.0 == file_entries(file).len() as i32
                        &&& loaded.1@ == format@
                        &&& old(self).is_loaded_with(
                            format@,
                            encode_utf8(content@),
                            file_entries(file),
                            final(self),
                        )
                        &&& final(self).subtitle->0.is_of_its_content()
                        &&& f is SubStationAlpha ==> final(self).subtitle->0.is_writable()
                    },
                },
            },
    {
        let f: SubtitleFormat = match format_from_name(format) {
            Some(f) => f,
            None => {
                let mut e: String = "unsupported format: ".to_string();
                e.append(format);
                return Err(e);
            },
        };
        let bytes: &[u8] = content.as_bytes();
        let file: subparse::SubtitleFile = match parse_file(f, bytes, FRAMES_PER_SECOND) {
            Ok(file) => file,
            Err(reason) => {
                let mut e: String = "parse error: ".to_string();
                e.append(reason.as_str());
                return Err(e);
            },
        };
        let entries: Vec<SubtitleEntry> = match read_entries(&file) {
            Ok(entries) => entries,
            Err(reason) => {
                let mut e: String = "entry error: ".to_string();
                e.append(reason.as_str());
                return Err(e);
            },
        };
        let ghost views = entry_views(entries@);
        let loaded: (i32, String) = self.install(bytes, format, entries);
        proof {
            if f is SubStationAlpha {
                let sub = self.subtitle->0;
                assert forall|i: int| 0 <= i < sub.corrected_start_ms@.len() implies (
                #[trigger] sub.corrected_start_ms@[i]) > i64::MIN by {
                    assert(views[i].start_ms > i64::MIN && views[i].end_ms > i64::MIN);
                    assert(sub.original_timespans@[i] == line_times(views[i]));
                }
                assert forall|i: int| 0 <= i < sub.corrected_end_ms@.len() implies (
                #[trigger] sub.corrected_end_ms@[i]) > i64::MIN by {
                    assert(views[i].start_ms > i64::MIN && views[i].end_ms > i64::MIN);
                    assert(sub.original_timespans@[i] == line_times(views[i]));
                }
            }
        }
        Ok(loaded)
    }

    /// Takes all corrections back and forgets all anchors and chunks.
    pub fn reset(&mut self)
        requires
            old(self).wf(),
        ensures
            final(self).wf(),
            final(self).is_unaligned(),
            old(self).in_range() ==> final(self).in_range(),
            final(self).config == old(self).config,
            match old(self).subtitle {
                Some(sub) => final(self).subtitle matches Some(after) && after.same_source(&sub),
                None => final(self).subtitle is None,
            },
    {
        let mut taken: Option<SubtitleState> = None;
        std::mem::swap(&mut taken, &mut self.subtitle);
        if let Some(mut sub) = taken {
            restore(&mut sub);
            self.subtitle = Some(sub);
        }
        self.anchors.clear();
        self.chunks.clear();
    }

    /// All anchors, in order.
    pub fn get_anchors(&self) -> (infos: Vec<AnchorInfo>)
        ensures
            infos@.len() == self.anchors@.len(),
            forall|i: int|
                0 <= i < infos@.len() ==> shows_anchor(#[trigger] infos@[i], self.anchors@[i]),
    {
        let mut infos: Vec<AnchorInfo> = Vec::with_capacity(self.anchors.len());
        let mut i: usize = 0;
        while i < self.anchors.len()
            invariant
                i <= self.anchors@.len(),
                infos@.len() == i,
                forall|k: int|
                    0 <= k < i ==> shows_anchor(#[trigger] infos@[k], self.anchors@[k]),
            decreases self.anchors@.len() - i,
        {
            let a: Anchor = self.anchors[i];
            infos.push(
                AnchorInfo {
                    id: id_string(a.id),
                    film_position_ms: a.film_position_ms,
                    delta_ms: a.delta_ms,
                    confidence: a.confidence.narrow(),
                    line_start: a.line_start as i32,
                    line_end: a.line_end as i32,
                    chunk_id: id_string(a.chunk_id),
                },
            );
            i = i + 1;
        }
        infos
    }

    /// All chunks, in the order in which they were taken in.
    pub fn get_chunk_history(&self) -> (infos: Vec<ChunkInfo>)
        ensures
            infos@.len() == self.chunks@.len(),
            forall|i: int|
                0 <= i < infos@.len() ==> shows_chunk(#[trigger] infos@[i], self.chunks@[i]),
    {
        let mut infos: Vec<ChunkInfo> = Vec::with_capacity(self.chunks.len());
        let mut i: usize = 0;
        while i < self.chunks.len()
            invariant
                i <= self.chunks@.len(),
                infos@.len() == i,
                forall|k: int| 0 <= k < i ==> shows_chunk(#[trigger] infos@[k], self.chunks@[k]),
            decreases self.chunks@.len() - i,
        {
            let c: &ProcessedChunk = &self.chunks[i];
            let mut anchor_ids: Vec<String> = Vec::with_capacity(c.anchor_ids.len());
            let mut j: usize = 0;
            while j < c.anchor_ids.len()
                invariant
                    j <= c.anchor_ids@.len(),
                    anchor_ids@.len() == j,
                    forall|k: int|
                        0 <= k < j ==> (#[trigger] anchor_ids@[k])@ == id_text(c.anchor_ids@[k]),
                decreases c.anchor_ids@.len() - j,
            {
                anchor_ids.push(id_string(c.anchor_ids[j]));
                j = j + 1;
            }
            infos.push(
                ChunkInfo {
                    id: id_string(c.id),
                    film_start_ms: c.film_start_ms,
                    film_end_ms: c.film_end_ms,
                    anchor_ids,
                },
            );
            i = i + 1;
        }
        infos
    }
}

/// Takes the corrections of all lines back.
fn restore(sub: &mut SubtitleState)
    requires
        old(sub).wf(),
    ensures
        final(sub).wf(),
        final(sub).is_uncorrected(),
        final(sub).same_source(old(sub)),
        old(sub).in_range() ==> final(sub).in_range(),
{
    let n: usize = sub.original_timespans.len();
    let mut starts: Vec<i64> = Vec::with_capacity(n);
    let mut ends: Vec<i64> = Vec::with_capacity(n);
    let mut i: usize = 0;
    while i < n
        invariant
            i <= n,
            *sub == *old(sub),
            n == sub.original_timespans@.len(),
            starts@.len() == i,
            ends@.len() == i,
            forall|k: int| 0 <= k < i ==> #[trigger] starts@[k] == sub.original_timespans@[k].0,
            forall|k: int| 0 <= k < i ==> #[trigger] ends@[k] == sub.original_timespans@[k].1,
        decreases n - i,
    {
        let (start, end): (i64, i64) = sub.original_timespans[i];
        starts.push(start);
        ends.push(end);
        i = i + 1;
    }
    sub.corrected_start_ms = starts;
    sub.corrected_end_ms = ends;
    proof {
        let lines = sub.original_timespans@;
        assert forall|k: int| 0 <= k < n implies lines[k].0 == #[trigger] starts@[k]
            && lines[k].0 <= lines[k].1 by {}
        assert forall|k: int| 0 <= k < n implies lines[k].1 == #[trigger] ends@[k]
            && lines[k].0 <= lines[k].1 by {}
    }
}

} // verus!
