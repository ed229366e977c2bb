//! Voice activity detection: from raw audio to the spans in which somebody
//! speaks.
//!
//! The detector itself is the WebRTC one of the `webrtc_vad` crate. It hears
//! one frame of 10 ms after the other and decides on each in the light of
//! those before. What the decisions are is left to it; how audio is cut into
//! frames and how decisions become spans is stated and proved here.

use crate::time_span::{covers, is_merged, TimeSpan};
use vstd::prelude::*;

verus! {

/// How readily the detector reports silence.
#[derive(Clone, Copy, Debug, PartialEq, Eq, Structural)]
pub enum VadMode {
    Quality,
    LowBitrate,
    Aggressive,
    VeryAggressive,
}

/// The sample rates that audio may come in.
#[derive(Clone, Copy, Debug, PartialEq, Eq, Structural)]
pub enum SampleRate {
    Rate8kHz,
    Rate16kHz,
}

// ---------------------------------------------------------------------------
// The detector
// ---------------------------------------------------------------------------

#[verifier::external_type_specification]
#[verifier::external_body]
pub struct ExVad(webrtc_vad::Vad);

/// The frames that a detector has heard since it was made, oldest first.
pub uninterp spec fn frames_heard(vad: webrtc_vad::Vad) -> Seq<Seq<i16>>;

/// The sample rate and the mode that a detector works with.
pub uninterp spec fn detector_setting(vad: webrtc_vad::Vad) -> (SampleRate, VadMode);

/// What `webrtc_vad::Vad::is_voice_segment` says of the last of the frames
/// that a detector has heard.
pub uninterp spec fn voice_decision(
    rate: SampleRate,
    mode: VadMode,
    frames: Seq<Seq<i16>>,
) -> Result<bool, ()>;

/// `webrtc_vad::Vad::new_with_rate`: a detector for the given rate that has
/// heard nothing and works in the `Quality` mode.
#[verifier::external_body]
fn new_detector(rate: SampleRate) -> (vad: webrtc_vad::Vad)
    ensures
        frames_heard(vad) == Seq::<Seq<i16>>::empty(),
        detector_setting(vad) == (rate, VadMode::Quality),
{
    webrtc_vad::Vad::new_with_rate(match rate {
        SampleRate::Rate8kHz => webrtc_vad::SampleRate::Rate8kHz,
        SampleRate::Rate16kHz => webrtc_vad::SampleRate::Rate16kHz,
    })
}

/// `webrtc_vad::Vad::set_mode` on a detector that has heard nothing yet: it
/// works in the given mode from now on, and nothing else changes.
#[verifier::external_body]
fn set_detector_mode(vad: &mut webrtc_vad::Vad, mode: VadMode)
    requires
        frames_heard(*old(vad)).len() == 0,
    ensures
        frames_heard(*final(vad)) == frames_heard(*old(vad)),
        detector_setting(*final(vad)) == (detector_setting(*old(vad)).0, mode),
{
    vad.set_mode(match mode {
        VadMode::Quality => webrtc_vad::VadMode::Quality,
        VadMode::LowBitrate => webrtc_vad::VadMode::LowBitrate,
        VadMode::Aggressive => webrtc_vad::VadMode::Aggressive,
        VadMode::VeryAggressive => webrtc_vad::VadMode::VeryAggressive,
    })
}

/// `webrtc_vad::Vad::is_voice_segment`: the detector hears one more frame and
/// decides on it by its setting and all that it has heard. An empty frame, on
/// which the call panics, is left out.
#[verifier::external_body]
fn hear_frame(vad: &mut webrtc_vad::Vad, frame: &[i16]) -> (r: Result<bool, ()>)
    requires
        frame@.len() > 0,
    ensures
        frames_heard(*final(vad)) == frames_heard(*old(vad)).push(frame@),
        detector_setting(*final(vad)) == detector_setting(*old(vad)),
        r == voice_decision(
            detector_setting(*old(vad)).0,
            detector_setting(*old(vad)).1,
            frames_heard(*final(vad)),
        ),
{
    vad.is_voice_segment(frame)
}

// ---------------------------------------------------------------------------
// From bytes to frames
// ---------------------------------------------------------------------------

/// The number of samples in a frame of 10 ms.
pub open spec fn frame_length(rate: SampleRate) -> int {
    match rate {
        SampleRate::Rate8kHz => 80,
        SampleRate::Rate16kHz => 160,
    }
}

/// The sample that two bytes make up, the low one first.
pub open spec fn sample_of(low: u8, high: u8) -> i16 {
    let v = low + 256 * high;
    if v >= 0x8000 {
        (v - 0x1_0000) as i16
    } else {
        v as i16
    }
}

/// The samples that a run of bytes holds. An odd byte at the end is dropped.
pub open spec fn samples_of(pcm: Seq<u8>) -> Seq<i16> {
    Seq::new(pcm.len() / 2, |i: int| sample_of(pcm[2 * i], pcm[2 * i + 1]))
}

/// The number of whole frames in a run of bytes.
pub open spec fn frame_count(pcm_len: int, rate: SampleRate) -> int {
    pcm_len / 2 / frame_length(rate)
}

/// The whole frames of the audio. What does not fill a frame is dropped.
pub open spec fn frames_of(pcm: Seq<u8>, rate: SampleRate) -> Seq<Seq<i16>> {
    Seq::new(
        frame_count(pcm.len() as int, rate) as nat,
        |k: int|
            samples_of(pcm).subrange(k * frame_length(rate), (k + 1) * frame_length(rate)),
    )
}

/// Which of the frames the detector takes for speech.
pub open spec fn voice_flags(rate: SampleRate, mode: VadMode, frames: Seq<Seq<i16>>) -> Seq<bool> {
    Seq::new(
        frames.len(),
        |k: int| voice_decision(rate, mode, frames.take(k + 1)) == Ok::<bool, ()>(true),
    )
}

/// The longest stretches of speech, given which of the frames that begin at
/// `start` are speech: one span for each run of such frames.
pub open spec fn speech_spans(flags: Seq<bool>, start: int) -> Seq<TimeSpan>
    decreases flags.len(),
{
    if flags.len() == 0 {
        Seq::empty()
    } else {
        let n = flags.len();
        let earlier = speech_spans(flags.drop_last(), start);
        if !flags.last() {
            earlier
        } else if n >= 2 && flags[n - 2] {
            earlier.drop_last().push(
                TimeSpan { start: earlier.last().start, end: (start + 10 * n) as i64 },
            )
        } else {
            earlier.push(
                TimeSpan { start: (start + 10 * (n - 1)) as i64, end: (start + 10 * n) as i64 },
            )
        }
    }
}

/// The spans of speech in raw audio that begins at `start`.
pub open spec fn speech_in(pcm: Seq<u8>, rate: SampleRate, mode: VadMode, start: int) -> Seq<
    TimeSpan,
> {
    speech_spans(voice_flags(rate, mode, frames_of(pcm, rate)), start)
}

/// The rate that a number of samples per second stands for.
pub open spec fn rate_of(sample_rate: int) -> Option<SampleRate> {
    if sample_rate == 8000 {
        Some(SampleRate::Rate8kHz)
    } else if sample_rate == 16000 {
        Some(SampleRate::Rate16kHz)
    } else {
        None
    }
}

/// The mode that a number stands for: 0 to 2 in turn, anything else the most
/// aggressive.
pub open spec fn mode_of(mode: int) -> VadMode {
    if mode == 0 {
        VadMode::Quality
    } else if mode == 1 {
        VadMode::LowBitrate
    } else if mode == 2 {
        VadMode::Aggressive
    } else {
        VadMode::VeryAggressive
    }
}

/// The mode for a level of aggressiveness.
pub fn mode_from_u8(mode: u8) -> (r: VadMode)
    ensures
        r == mode_of(mode as int),
{
    match mode {
        0 => VadMode::Quality,
        1 => VadMode::LowBitrate,
        2 => VadMode::Aggressive,
        _ => VadMode::VeryAggressive,
    }
}

/// The samples of 16-bit signed little-endian audio.
fn decode_samples(pcm: &[u8]) -> (samples: Vec<i16>)
    ensures
        samples@ == samples_of(pcm@),
{
    let n: usize = pcm.len() / 2;
    let mut samples: Vec<i16> = Vec::with_capacity(n);
    let mut i: usize = 0;
    while i < n
        invariant
            i <= n,
            n == pcm@.len() / 2,
            pcm@.len() <= usize::MAX,
            samples@ == samples_of(pcm@).take(i as int),
        decreases n - i,
    {
        let v: i32 = pcm[2 * i] as i32 + 256 * (pcm[2 * i + 1] as i32);
        let sample: i16 = if v >= 0x8000 { (v - 0x1_0000) as i16 } else { v as i16 };
        samples.push(sample);
        assert(samples@ =~= samples_of(pcm@).take(i + 1));
        i = i + 1;
    }
    assert(samples_of(pcm@).take(n as int) =~= samples_of(pcm@));
    samples
}

/// Which of the frames of the audio are speech.
fn detect(pcm: &[u8], rate: SampleRate, mode: VadMode) -> (flags: Vec<bool>)
    ensures
        flags@ == voice_flags(rate, mode, frames_of(pcm@, rate)),
        80 * flags@.len() <= usize::MAX,
{
    let length: usize = match rate {
        SampleRate::Rate8kHz => 80,
        SampleRate::Rate16kHz => 160,
    };
    let ghost frames = frames_of(pcm@, rate);
    let mut vad: webrtc_vad::Vad = new_detector(rate);
    set_detector_mode(&mut vad, mode);
    let samples: Vec<i16> = decode_samples(pcm);
    let count: usize = samples.len() / length;
    let mut flags: Vec<bool> = Vec::with_capacity(count);
    let mut k: usize = 0;
    assert(frames.take(0) =~= Seq::<Seq<i16>>::empty());
    while k < count
        invariant
            k <= count,
            length == frame_length(rate),
            0 < length,
            count == samples@.len() / length as nat,
            samples@ == samples_of(pcm@),
            samples@.len() <= usize::MAX,
            frames == frames_of(pcm@, rate),
            frames.len() == count,
            frames_heard(vad) == frames.take(k as int),
            detector_setting(vad) == (rate, mode),
            flags@ == voice_flags(rate, mode, frames).take(k as int),
        decreases count - k,
    {
        assert((k + 1) * length <= samples@.len()) by (nonlinear_arith)
            requires
                k + 1 <= samples@.len() / length as nat,
                0 < length,
        ;
        assert(0 <= k * length <= (k + 1) * length) by (nonlinear_arith)
            requires
                0 <= k,
                0 < length,
        ;
        assert((k + 1) * length == k * length + length) by (nonlinear_arith);
        let frame: &[i16] = vstd::slice::slice_subrange(
            samples.as_slice(),
            k * length,
            (k + 1) * length,
        );
        assert(frame@ == frames[k as int]);
        let is_voice: bool = match hear_frame(&mut vad, frame) {
            Ok(is_voice) => is_voice,
            Err(_) => false,
        };
        assert(frames.take(k as int).push(frame@) =~= frames.take(k + 1));
        flags.push(is_voice);
        assert(flags@ =~= voice_flags(rate, mode, frames).take(k + 1));
        k = k + 1;
    }
    assert(voice_flags(rate, mode, frames).take(count as int) =~= voice_flags(rate, mode, frames));
    flags
}

/// Appends the span from `start_ms` to `end_ms`, unless it is empty.
fn push_span(spans: &mut Vec<TimeSpan>, start_ms: i64, end_ms: i64)
    ensures
        final(spans)@ == if end_ms > start_ms {
            old(spans)@.push(TimeSpan { start: start_ms, end: end_ms })
        } else {
            old(spans)@
        },
{
    if end_ms > start_ms {
        spans.push(TimeSpan::new(start_ms, end_ms));
    }
}

/// The spans of speech, given which of the frames of 10 ms that begin at
/// `film_start_ms` are speech.
pub fn spans_of_flags(flags: &[bool], film_start_ms: i64) -> (spans: Vec<TimeSpan>)
    requires
        10 * flags@.len() <= i64::MAX,
        film_start_ms + 10 * flags@.len() <= i64::MAX,
    ensures
        spans@ == speech_spans(flags@, film_start_ms as int),
{
    let mut spans: Vec<TimeSpan> = Vec::new();
    let mut in_speech: bool = false;
    let mut speech_start_ms: i64 = 0;
    let mut i: usize = 0;
    while i < flags.len()
        invariant
            i <= flags@.len(),
            10 * flags@.len() <= i64::MAX,
            film_start_ms + 10 * flags@.len() <= i64::MAX,
            in_speech <==> i > 0 && flags@[i - 1],
            in_speech ==> film_start_ms <= speech_start_ms < film_start_ms + 10 * i,
            speech_spans(flags@.take(i as int), film_start_ms as int) == if in_speech {
                spans@.push(
                    TimeSpan { start: speech_start_ms, end: (film_start_ms + 10 * i) as i64 },
                )
            } else {
                spans@
            },
        decreases flags@.len() - i,
    {
        let frame_ms: i64 = film_start_ms + (i as i64) * 10;
        let is_voice: bool = flags[i];
        let ghost seen = flags@.take(i as int);
        let ghost next = flags@.take(i + 1);
        assert(next.drop_last() =~= seen);
        assert(next.last() == is_voice);
        assert(i > 0 ==> next[i - 1] == flags@[i - 1]);
        let ghost earlier = speech_spans(seen, film_start_ms as int);
        if is_voice && !in_speech {
            speech_start_ms = frame_ms;
            in_speech = true;
        } else if !is_voice && in_speech {
            push_span(&mut spans, speech_start_ms, frame_ms);
            in_speech = false;
        } else if is_voice {
            assert(earlier.drop_last() =~= spans@);
        }
        i = i + 1;
    }
    assert(flags@.take(i as int) =~= flags@);
    if in_speech {
        let end_ms: i64 = film_start_ms + (flags.len() as i64) * 10;
        push_span(&mut spans, speech_start_ms, end_ms);
    }
    spans
}

/// Run WebRTC VAD on raw PCM bytes and return speech segments as absolute-time
/// spans.
///
/// `pcm_bytes`: 16-bit signed LE mono PCM;
/// `sample_rate`: 8000 or 16000, anything else gives no spans;
/// `film_start_ms`: absolute film position of the first sample;
/// `vad_mode`: level of aggressiveness, 0 to 3.
pub fn run_vad(pcm_bytes: &[u8], sample_rate: i32, film_start_ms: i64, vad_mode: i32) -> (spans:
    Vec<TimeSpan>)
    requires
        rate_of(sample_rate as int) matches Some(rate) ==> film_start_ms + 10 * frame_count(
            pcm_bytes@.len() as int,
            rate,
        ) <= i64::MAX,
    ensures
        spans@ == match rate_of(sample_rate as int) {
            Some(rate) => speech_in(
                pcm_bytes@,
                rate,
                mode_of(vad_mode as int),
                film_start_ms as int,
            ),
            None => Seq::<TimeSpan>::empty(),
        },
{
    let rate: SampleRate = match sample_rate {
        8000 => SampleRate::Rate8kHz,
        16000 => SampleRate::Rate16kHz,
        _ => return Vec::new(),
    };
    let mode: VadMode = match vad_mode {
        0 => VadMode::Quality,
        1 => VadMode::LowBitrate,
        2 => VadMode::Aggressive,
        _ => VadMode::VeryAggressive,
    };
    let flags: Vec<bool> = detect(pcm_bytes, rate, mode);
    spans_of_flags(flags.as_slice(), film_start_ms)
}

/// Run WebRTC VAD over a block of 16-bit signed little-endian mono PCM and
/// return speech segments as absolute-time spans (units: milliseconds).
///
/// `film_start_ms` is the absolute film position of the first sample in `pcm`.
/// A full 10 ms at the tail of `pcm` that doesn't fill a frame is dropped.
pub fn pcm_to_spans(pcm: &[u8], sample_rate: u32, film_start_ms: i64, mode: VadMode) -> (spans: Vec<
    TimeSpan,
>)
    requires
        rate_of(sample_rate as int) matches Some(rate) ==> film_start_ms + 10 * frame_count(
            pcm@.len() as int,
            rate,
        ) <= i64::MAX,
    ensures
        spans@ == match rate_of(sample_rate as int) {
            Some(rate) => speech_in(pcm@, rate, mode, film_start_ms as int),
            None => Seq::<TimeSpan>::empty(),
        },
{
    let rate: SampleRate = match sample_rate {
        8000 => SampleRate::Rate8kHz,
        16000 => SampleRate::Rate16kHz,
        _ => return Vec::new(),
    };
    let flags: Vec<bool> = detect(pcm, rate, mode);
    spans_of_flags(flags.as_slice(), film_start_ms)
}

/// The spans of speech are not empty, in order and apart from each other, lie
/// within the audio, and there are at most half as many as frames, rounded up.
pub proof fn law_speech_spans_are_merged(flags: Seq<bool>, start: int)
    requires
        i64::MIN <= start,
        start + 10 * flags.len() <= i64::MAX,
    ensures
        is_merged(speech_spans(flags, start)),
        2 * speech_spans(flags, start).len() <= flags.len() + 1,
        forall|i: int|
            0 <= i < speech_spans(flags, start).len() ==> start <= (#[trigger] speech_spans(
                flags,
                start,
            )[i]).start && speech_spans(flags, start)[i].end <= start + 10 * flags.len(),
{
    lemma_speech_spans(flags, start);
}

/// The facts of `law_speech_spans_are_merged`, and where the last span ends.
proof fn lemma_speech_spans(flags: Seq<bool>, start: int)
    requires
        i64::MIN <= start,
        start + 10 * flags.len() <= i64::MAX,
    ensures
        ({
            let spans = speech_spans(flags, start);
            let n = flags.len() as int;
            &&& is_merged(spans)
            &&& 2 * spans.len() <= n + 1
            &&& n > 0 && !flags.last() ==> 2 * spans.len() <= n
            &&& n > 0 && flags.last() ==> spans.len() > 0 && spans.last().end == start + 10 * n
            &&& n > 0 && !flags.last() && spans.len() > 0 ==> spans.last().end < start + 10 * n
            &&& forall|i: int|
                0 <= i < spans.len() ==> start <= (#[trigger] spans[i]).start && spans[i].end
                    <= start + 10 * n
        }),
    decreases flags.len(),
{
    if flags.len() > 0 {
        lemma_speech_spans(flags.drop_last(), start);
        let n = flags.len() as int;
        let earlier = speech_spans(flags.drop_last(), start);
        if n >= 2 {
            assert(flags.drop_last().last() == flags[n - 2]);
        }
    }
}

/// A moment of the audio lies in a span of speech exactly when its frame is
/// one of speech, and no moment outside the audio does.
pub proof fn law_speech_spans_cover_voiced_frames(flags: Seq<bool>, start: int, t: int)
    requires
        i64::MIN <= start,
        start + 10 * flags.len() <= i64::MAX,
    ensures
        covers(speech_spans(flags, start), t) <==> start <= t < start + 10 * flags.len()
            && flags[(t - start) / 10],
    decreases flags.len(),
{
    let spans = speech_spans(flags, start);
    let n = flags.len() as int;
    if n > 0 {
        let earlier = speech_spans(flags.drop_last(), start);
        law_speech_spans_cover_voiced_frames(flags.drop_last(), start, t);
        lemma_speech_spans(flags.drop_last(), start);
        let last = TimeSpan { start: (start + 10 * (n - 1)) as i64, end: (start + 10 * n) as i64 };
        if n >= 2 {
            assert(flags.drop_last().last() == flags[n - 2]);
        }
        assert(start <= t < start + 10 * (n - 1) ==> flags.drop_last()[(t - start) / 10]
            == flags[(t - start) / 10]);
        if flags.last() {
            assert(covers(spans, t) <==> covers(earlier, t) || last.holds(t)) by {
                let m = earlier.len() as int;
                if covers(earlier, t) {
                    let i = choose|i: int|
                        0 <= i < earlier.len() && (#[trigger] earlier[i]).holds(t);
                    assert(spans[i].holds(t));
                }
                if last.holds(t) {
                    assert(spans[spans.len() - 1].holds(t));
                }
                if covers(spans, t) {
                    let i = choose|i: int| 0 <= i < spans.len() && (#[trigger] spans[i]).holds(t);
                    if i < m && spans[i] == earlier[i] {
                        assert(earlier[i].holds(t));
                    } else if i < m && !last.holds(t) {
                        assert(earlier[i].holds(t));
                    }
                }
            }
        }
    }
}

} // verus!
