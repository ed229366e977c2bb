//! How audio, frames and film time go together.

use crate::time_span::covers;
use crate::vad::{
    frame_length, frames_of, law_speech_spans_cover_voiced_frames, mode_of, rate_of, sample_of,
    samples_of, speech_in, voice_decision, voice_flags, SampleRate, VadMode,
};
use vstd::arithmetic::div_mod::{lemma_fundamental_div_mod, lemma_mod_bound};
use vstd::arithmetic::mul::{
    lemma_mul_inequality, lemma_mul_is_commutative, lemma_mul_is_distributive_add_other_way,
};
use vstd::prelude::*;

verus! {

/// Two sample rates are known, and a frame is the hundredth part of a second
/// at either.
pub proof fn law_frames_last_ten_ms(sample_rate: int)
    ensures
        rate_of(sample_rate) == Some(SampleRate::Rate8kHz) <==> sample_rate == 8000,
        rate_of(sample_rate) == Some(SampleRate::Rate16kHz) <==> sample_rate == 16000,
        rate_of(sample_rate) matches Some(rate) ==> 100 * frame_length(rate) == sample_rate,
{
}

/// The frames are as many hundredths of a second as the audio has in full.
pub proof fn law_as_many_frames_as_fit(pcm: Seq<u8>, sample_rate: int, rate: SampleRate)
    requires
        rate_of(sample_rate) == Some(rate),
    ensures
        sample_rate * frames_of(pcm, rate).len() <= 100 * (pcm.len() / 2),
        100 * (pcm.len() / 2) < sample_rate * (frames_of(pcm, rate).len() + 1),
{
    let n = (pcm.len() / 2) as int;
    let l = frame_length(rate);
    law_frames_last_ten_ms(sample_rate);
    lemma_fundamental_div_mod(n, l);
    lemma_mod_bound(n, l);
    assert(frames_of(pcm, rate).len() == n / l);
}

/// The frame with index `k` holds the samples of the hundredth of a second
/// that begins `k` hundredths into the audio, each from two bytes, the low one
/// first, and with its sign.
pub proof fn law_frames_hold_their_time(
    pcm: Seq<u8>,
    sample_rate: int,
    rate: SampleRate,
    k: int,
    j: int,
)
    requires
        rate_of(sample_rate) == Some(rate),
        0 <= k < frames_of(pcm, rate).len(),
        0 <= j < frames_of(pcm, rate)[k].len(),
    ensures
        100 * frames_of(pcm, rate)[k].len() == sample_rate,
        ({
            let at = 2 * (k * (sample_rate / 100) + j);
            let sample = frames_of(pcm, rate)[k][j];
            &&& 0 <= at
            &&& at + 1 < pcm.len()
            &&& pcm[at + 1] < 128 ==> sample == pcm[at] + 256 * pcm[at + 1]
            &&& pcm[at + 1] >= 128 ==> sample == pcm[at] + 256 * pcm[at + 1] - 65536
        }),
{
    let l = frame_length(rate);
    let n = (pcm.len() / 2) as int;
    law_frames_last_ten_ms(sample_rate);
    assert(l == sample_rate / 100);
    lemma_fundamental_div_mod(n, l);
    lemma_mod_bound(n, l);
    lemma_mul_inequality(k + 1, n / l, l);
    lemma_mul_is_commutative(n / l, l);
    lemma_mul_is_distributive_add_other_way(l, k, 1);
    lemma_mul_inequality(0, k, l);
    let at = 2 * (k * l + j);
    assert(frames_of(pcm, rate)[k] == samples_of(pcm).subrange(k * l, (k + 1) * l));
    assert(frames_of(pcm, rate)[k][j] == samples_of(pcm)[k * l + j]);
    assert(samples_of(pcm)[k * l + j] == sample_of(pcm[at], pcm[at + 1]));
}

/// What the detector says of a frame once it has heard those before it is
/// what counts; a frame that it refuses is no speech.
pub proof fn law_the_detector_decides(
    rate: SampleRate,
    mode: VadMode,
    frames: Seq<Seq<i16>>,
    k: int,
)
    requires
        0 <= k < frames.len(),
    ensures
        voice_flags(rate, mode, frames).len() == frames.len(),
        voice_decision(rate, mode, frames.take(k + 1)) matches Ok(is_voice) ==> voice_flags(
            rate,
            mode,
            frames,
        )[k] == is_voice,
        voice_decision(rate, mode, frames.take(k + 1)) is Err ==> !voice_flags(
            rate,
            mode,
            frames,
        )[k],
{
}

/// What comes later changes nothing about the frames heard so far.
pub proof fn law_later_frames_change_nothing(
    rate: SampleRate,
    mode: VadMode,
    frames: Seq<Seq<i16>>,
    n: int,
)
    requires
        0 <= n <= frames.len(),
    ensures
        voice_flags(rate, mode, frames.take(n)) == voice_flags(rate, mode, frames).take(n),
{
    assert forall|k: int| 0 <= k < n implies frames.take(n).take(k + 1) == #[trigger] frames.take(
        k + 1,
    ) by {
        assert(frames.take(n).take(k + 1) =~= frames.take(k + 1));
    }
    assert(voice_flags(rate, mode, frames.take(n)) =~= voice_flags(rate, mode, frames).take(n));
}

/// A moment is one of speech exactly when it lies in a hundredth of a second
/// after `start` that the audio has in full and the detector takes for speech.
pub proof fn law_speech_is_where_it_is_heard(
    pcm: Seq<u8>,
    sample_rate: int,
    rate: SampleRate,
    mode: VadMode,
    start: int,
    t: int,
)
    requires
        rate_of(sample_rate) == Some(rate),
        i64::MIN <= start,
        start + 10 * frames_of(pcm, rate).len() <= i64::MAX,
    ensures
        covers(speech_in(pcm, rate, mode, start), t) <==> {
            let k = (t - start) / 10;
            &&& start <= t
            &&& sample_rate * (k + 1) <= 100 * (pcm.len() / 2)
            &&& voice_decision(rate, mode, frames_of(pcm, rate).take(k + 1)) == Ok::<bool, ()>(true)
        },
{
    let frames = frames_of(pcm, rate);
    let flags = voice_flags(rate, mode, frames);
    let k = (t - start) / 10;
    law_speech_spans_cover_voiced_frames(flags, start, t);
    law_as_many_frames_as_fit(pcm, sample_rate, rate);
    let n = frames.len() as int;
    if start <= t {
        if k < n {
            lemma_mul_inequality(k + 1, n, sample_rate);
            lemma_mul_is_commutative(k + 1, sample_rate);
            lemma_mul_is_commutative(n, sample_rate);
        } else {
            lemma_mul_inequality(n + 1, k + 1, sample_rate);
            lemma_mul_is_commutative(k + 1, sample_rate);
            lemma_mul_is_commutative(n + 1, sample_rate);
        }
    }
}

/// Each of the four levels has a mode of its own, from the one that takes the
/// most for speech to the one that takes the least; any other number is taken
/// for the highest level.
pub proof fn law_levels_are_modes(level: int)
    ensures
        mode_of(level) is Quality <==> level == 0,
        mode_of(level) is LowBitrate <==> level == 1,
        mode_of(level) is Aggressive <==> level == 2,
        mode_of(level) is VeryAggressive <==> level < 0 || level > 2,
{
}

} // verus!
