//! The settings of the alignment engine and how they travel in messages.

use crate::binary64::{
    law_i32_round_trip, law_order_is_numeric, lemma_made, lemma_size_nonnegative, Binary64, SIGN,
};
use crate::proto;
use crate::reals::{lemma_times_one, lemma_times_zero};
use crate::rounding::{lemma_two_to_sum, two_to};
use crate::single::{law_narrowing_settles, narrowed};
use vstd::prelude::*;
use vstd::std_specs::convert::FromSpecImpl;

verus! {

/// The settings of the alignment engine.
#[derive(Clone, Copy, Debug, PartialEq, Eq, Structural)]
pub struct EngineConfig {
    pub quality_threshold: Binary64,
    pub split_penalty: Binary64,
    pub min_anchor_spacing_ms: i64,
    pub max_drift_ms: i64,
    pub split_threshold_ms: i64,
    pub sweep_step_ms: i64,
    pub coverage_buffer_ms: i64,
    pub stitch_tolerance_ms: i64,
    pub vad_mode: i32,
}

/// The settings of an engine that was told nothing: a quality threshold of
/// 0.05 and a split penalty of 7.
pub open spec fn default_config() -> EngineConfig {
    EngineConfig {
        quality_threshold: Binary64 { bits: 0x3fa9_9999_9999_999a },
        split_penalty: Binary64 { bits: 0x401c_0000_0000_0000 },
        min_anchor_spacing_ms: 30_000,
        max_drift_ms: 30_000,
        split_threshold_ms: 500,
        sweep_step_ms: 1_000,
        coverage_buffer_ms: 10_000,
        stitch_tolerance_ms: 5_000,
        vad_mode: 0,
    }
}

impl Default for EngineConfig {
    fn default() -> (r: Self)
        ensures
            r == default_config(),
    {
        EngineConfig {
            quality_threshold: Binary64::from_bits(0x3fa9_9999_9999_999a),
            split_penalty: Binary64::from_bits(0x401c_0000_0000_0000),
            min_anchor_spacing_ms: 30_000,
            max_drift_ms: 30_000,
            split_threshold_ms: 500,
            sweep_step_ms: 1_000,
            coverage_buffer_ms: 10_000,
            stitch_tolerance_ms: 5_000,
            vad_mode: 0,
        }
    }
}

/// A setting in milliseconds, or its default where it is unset.
pub open spec fn millis_or(v: Option<i32>, default: i64) -> i64 {
    match v {
        Some(v) => v as i64,
        None => default,
    }
}

/// Whether `x` is the double of an integer, with zero written without a sign.
pub open spec fn is_double_of(x: Binary64, v: i32) -> bool {
    &&& x.is_finite()
    &&& x.value() == v as real
    &&& v == 0 ==> x.bits == 0
}

/// The low 32 bits of a number, read as a signed integer.
pub open spec fn wrapped(v: i64) -> int {
    let low = v as int % 0x1_0000_0000;
    if low >= 0x8000_0000 {
        low - 0x1_0000_0000
    } else {
        low
    }
}

/// `v` as a double.
pub open spec fn double_of(v: i32) -> Binary64 {
    choose|x: Binary64| is_double_of(x, v)
}

/// The engine settings that a message asks for, with defaults for what it
/// leaves unset.
pub open spec fn config_of(p: proto::EngineConfig) -> EngineConfig {
    let d = default_config();
    EngineConfig {
        quality_threshold: match p.quality_threshold {
            Some(v) => v,
            None => d.quality_threshold,
        },
        split_penalty: match p.split_penalty {
            Some(v) => double_of(v),
            None => d.split_penalty,
        },
        min_anchor_spacing_ms: millis_or(p.min_anchor_spacing_ms, d.min_anchor_spacing_ms),
        max_drift_ms: millis_or(p.max_drift_ms, d.max_drift_ms),
        split_threshold_ms: millis_or(p.split_threshold_ms, d.split_threshold_ms),
        sweep_step_ms: millis_or(p.sweep_step_ms, d.sweep_step_ms),
        coverage_buffer_ms: millis_or(p.coverage_buffer_ms, d.coverage_buffer_ms),
        stitch_tolerance_ms: millis_or(p.stitch_tolerance_ms, d.stitch_tolerance_ms),
        vad_mode: match p.vad_mode {
            Some(v) => v,
            None => d.vad_mode,
        },
    }
}

/// The message that carries engine settings.
pub open spec fn message_of(c: EngineConfig) -> proto::EngineConfig {
    proto::EngineConfig {
        quality_threshold: Some(narrowed(c.quality_threshold)),
        split_penalty: Some(c.split_penalty.as_i32() as i32),
        min_anchor_spacing_ms: Some(wrapped(c.min_anchor_spacing_ms) as i32),
        max_drift_ms: Some(wrapped(c.max_drift_ms) as i32),
        split_threshold_ms: Some(wrapped(c.split_threshold_ms) as i32),
        sweep_step_ms: Some(wrapped(c.sweep_step_ms) as i32),
        coverage_buffer_ms: Some(wrapped(c.coverage_buffer_ms) as i32),
        stitch_tolerance_ms: Some(wrapped(c.stitch_tolerance_ms) as i32),
        vad_mode: Some(c.vad_mode),
    }
}

/// A setting in milliseconds, or its default.
fn choose_millis(v: Option<i32>, default: i64) -> (r: i64)
    ensures
        r == millis_or(v, default),
{
    match v {
        Some(v) => v as i64,
        None => default,
    }
}

/// The low 32 bits of a number.
fn wrap(v: i64) -> (r: i32)
    ensures
        r == wrapped(v),
{
    #[verifier::truncate]
    let r: i32 = v as i32;
    assert(r == wrapped(v)) by {
        let low: i64 = v & 0xffff_ffff;
        assert(low == v % 0x1_0000_0000) by (bit_vector)
            requires
                low == v & 0xffff_ffff,
        ;
        assert(r as int == (if low >= 0x8000_0000 { low - 0x1_0000_0000 } else { low as int }))
            by (bit_vector)
            requires
                low == v & 0xffff_ffff,
                r == v as i32,
        ;
    }
    r
}

/// `v` as a double.
fn penalty_from(v: i32) -> (x: Binary64)
    ensures
        x == double_of(v),
        is_double_of(x, v),
{
    let x: Binary64 = Binary64::from_i32(v);
    proof {
        lemma_double_unique(x, double_of(v), v);
    }
    x
}

/// There is only one double of an integer.
proof fn lemma_double_unique(a: Binary64, b: Binary64, v: i32)
    requires
        is_double_of(a, v),
        is_double_of(b, v),
    ensures
        a == b,
{
    law_order_is_numeric(a, b);
    law_order_is_numeric(b, a);
    law_order_is_numeric(a, Binary64 { bits: 0 });
    law_order_is_numeric(Binary64 { bits: 0 }, a);
    lemma_times_zero(two_to(-1074));
}

/// Every integer has a double.
proof fn lemma_double_exists(v: i32)
    ensures
        is_double_of(double_of(v), v),
{
    if v == 0 {
        lemma_times_zero(two_to(-1074));
        assert(is_double_of(Binary64 { bits: 0 }, v));
    } else {
        let size: int = if v < 0 { -v } else { v as int };
        let x = lemma_made(v < 0, size, 0);
        lemma_times_one(size as real);
        assert(is_double_of(x, v));
    }
}

impl From<&proto::EngineConfig> for EngineConfig {
    /// The settings that a message asks for.
    fn from(p: &proto::EngineConfig) -> (c: Self) {
        let d: EngineConfig = EngineConfig::default();
        EngineConfig {
            quality_threshold: match p.quality_threshold {
                Some(v) => v,
                None => d.quality_threshold,
            },
            split_penalty: match p.split_penalty {
                Some(v) => penalty_from(v),
                None => d.split_penalty,
            },
            min_anchor_spacing_ms: choose_millis(p.min_anchor_spacing_ms, d.min_anchor_spacing_ms),
            max_drift_ms: choose_millis(p.max_drift_ms, d.max_drift_ms),
            split_threshold_ms: choose_millis(p.split_threshold_ms, d.split_threshold_ms),
            sweep_step_ms: choose_millis(p.sweep_step_ms, d.sweep_step_ms),
            coverage_buffer_ms: choose_millis(p.coverage_buffer_ms, d.coverage_buffer_ms),
            stitch_tolerance_ms: choose_millis(p.stitch_tolerance_ms, d.stitch_tolerance_ms),
            vad_mode: match p.vad_mode {
                Some(v) => v,
                None => d.vad_mode,
            },
        }
    }
}

impl FromSpecImpl<&proto::EngineConfig> for EngineConfig {
    open spec fn obeys_from_spec() -> bool {
        true
    }

    open spec fn from_spec(p: &proto::EngineConfig) -> Self {
        config_of(*p)
    }
}

impl From<&EngineConfig> for proto::EngineConfig {
    /// The message that carries the settings.
    fn from(c: &EngineConfig) -> (p: Self) {
        proto::EngineConfig {
            quality_threshold: Some(c.quality_threshold.narrow()),
            split_penalty: Some(c.split_penalty.to_i32()),
            min_anchor_spacing_ms: Some(wrap(c.min_anchor_spacing_ms)),
            max_drift_ms: Some(wrap(c.max_drift_ms)),
            split_threshold_ms: Some(wrap(c.split_threshold_ms)),
            sweep_step_ms: Some(wrap(c.sweep_step_ms)),
            coverage_buffer_ms: Some(wrap(c.coverage_buffer_ms)),
            stitch_tolerance_ms: Some(wrap(c.stitch_tolerance_ms)),
            vad_mode: Some(c.vad_mode),
        }
    }
}

impl FromSpecImpl<&EngineConfig> for proto::EngineConfig {
    open spec fn obeys_from_spec() -> bool {
        true
    }

    open spec fn from_spec(c: &EngineConfig) -> Self {
        message_of(*c)
    }
}

/// The engine settings that a plain message asks for, with defaults for what
/// is zero. The message says nothing of the mode of the detector.
pub open spec fn plain_config_of(p: proto::PlainEngineConfig) -> EngineConfig {
    let d = default_config();
    EngineConfig {
        quality_threshold: if p.quality_threshold.rank() != 0 {
            p.quality_threshold
        } else {
            d.quality_threshold
        },
        split_penalty: if p.split_penalty != 0 {
            double_of(p.split_penalty)
        } else {
            d.split_penalty
        },
        min_anchor_spacing_ms: nonzero_or(p.min_anchor_spacing_ms, d.min_anchor_spacing_ms),
        max_drift_ms: nonzero_or(p.max_drift_ms, d.max_drift_ms),
        split_threshold_ms: nonzero_or(p.split_threshold_ms, d.split_threshold_ms),
        sweep_step_ms: nonzero_or(p.sweep_step_ms, d.sweep_step_ms),
        coverage_buffer_ms: nonzero_or(p.coverage_buffer_ms, d.coverage_buffer_ms),
        stitch_tolerance_ms: nonzero_or(p.stitch_tolerance_ms, d.stitch_tolerance_ms),
        vad_mode: d.vad_mode,
    }
}

/// A setting in milliseconds, or its default where it is zero.
pub open spec fn nonzero_or(v: i32, default: i64) -> i64 {
    if v != 0 {
        v as i64
    } else {
        default
    }
}

/// The plain message that carries engine settings, but for the mode of the
/// detector.
pub open spec fn plain_message_of(c: EngineConfig) -> proto::PlainEngineConfig {
    proto::PlainEngineConfig {
        quality_threshold: narrowed(c.quality_threshold),
        split_penalty: c.split_penalty.as_i32() as i32,
        min_anchor_spacing_ms: wrapped(c.min_anchor_spacing_ms) as i32,
        max_drift_ms: wrapped(c.max_drift_ms) as i32,
        split_threshold_ms: wrapped(c.split_threshold_ms) as i32,
        sweep_step_ms: wrapped(c.sweep_step_ms) as i32,
        coverage_buffer_ms: wrapped(c.coverage_buffer_ms) as i32,
        stitch_tolerance_ms: wrapped(c.stitch_tolerance_ms) as i32,
    }
}

/// A setting in milliseconds, or its default where it is zero.
fn choose_nonzero(v: i32, default: i64) -> (r: i64)
    ensures
        r == nonzero_or(v, default),
{
    if v != 0 {
        v as i64
    } else {
        default
    }
}

/// The settings that a plain message asks for.
pub fn proto_config_to_engine(cfg: proto::PlainEngineConfig) -> (c: EngineConfig)
    ensures
        c == plain_config_of(cfg),
{
    let defaults: EngineConfig = EngineConfig::default();
    EngineConfig {
        quality_threshold: if cfg.quality_threshold.bits != 0 && cfg.quality_threshold.bits
            != SIGN {
            cfg.quality_threshold
        } else {
            defaults.quality_threshold
        },
        split_penalty: if cfg.split_penalty != 0 {
            penalty_from(cfg.split_penalty)
        } else {
            defaults.split_penalty
        },
        min_anchor_spacing_ms: choose_nonzero(
            cfg.min_anchor_spacing_ms,
            defaults.min_anchor_spacing_ms,
        ),
        max_drift_ms: choose_nonzero(cfg.max_drift_ms, defaults.max_drift_ms),
        split_threshold_ms: choose_nonzero(cfg.split_threshold_ms, defaults.split_threshold_ms),
        sweep_step_ms: choose_nonzero(cfg.sweep_step_ms, defaults.sweep_step_ms),
        coverage_buffer_ms: choose_nonzero(cfg.coverage_buffer_ms, defaults.coverage_buffer_ms),
        stitch_tolerance_ms: choose_nonzero(
            cfg.stitch_tolerance_ms,
            defaults.stitch_tolerance_ms,
        ),
        vad_mode: defaults.vad_mode,
    }
}

/// The plain message that carries settings.
pub fn engine_config_to_proto(cfg: &EngineConfig) -> (p: proto::PlainEngineConfig)
    ensures
        p == plain_message_of(*cfg),
{
    proto::PlainEngineConfig {
        quality_threshold: cfg.quality_threshold.narrow(),
        split_penalty: cfg.split_penalty.to_i32(),
        min_anchor_spacing_ms: wrap(cfg.min_anchor_spacing_ms),
        max_drift_ms: wrap(cfg.max_drift_ms),
        split_threshold_ms: wrap(cfg.split_threshold_ms),
        sweep_step_ms: wrap(cfg.sweep_step_ms),
        coverage_buffer_ms: wrap(cfg.coverage_buffer_ms),
        stitch_tolerance_ms: wrap(cfg.stitch_tolerance_ms),
    }
}

/// Whether a setting in milliseconds fits a message.
pub open spec fn fits_i32(v: i64) -> bool {
    i32::MIN <= v <= i32::MAX
}

/// Whether a number is this integer.
pub open spec fn is_integer_of(x: Binary64, v: i32) -> bool {
    x.is_finite() && x.value() == v as real
}

/// Whether a message can carry the settings without loss, but for the quality
/// threshold: a penalty that is an integer, and times that fit.
pub open spec fn travels(c: EngineConfig) -> bool {
    &&& exists|v: i32| is_integer_of(c.split_penalty, v)
    &&& fits_i32(c.min_anchor_spacing_ms)
    &&& fits_i32(c.max_drift_ms)
    &&& fits_i32(c.split_threshold_ms)
    &&& fits_i32(c.sweep_step_ms)
    &&& fits_i32(c.coverage_buffer_ms)
    &&& fits_i32(c.stitch_tolerance_ms)
}

/// Settings that a message can carry come back from it as they were, the
/// quality threshold as the nearest single-precision number and a penalty of
/// minus zero as zero, which is the same number. They come back unchanged when
/// they are sent once more.
pub proof fn law_config_round_trip(c: EngineConfig)
    requires
        travels(c),
    ensures
        ({
            let back = config_of(message_of(c));
            &&& back == (EngineConfig {
                quality_threshold: narrowed(c.quality_threshold),
                split_penalty: back.split_penalty,
                ..c
            })
            &&& back.split_penalty.is_finite()
            &&& back.split_penalty.value() == c.split_penalty.value()
            &&& c.split_penalty.bits != SIGN ==> back.split_penalty == c.split_penalty
            &&& config_of(message_of(back)) == back
        }),
{
    let back = config_of(message_of(c));
    lemma_sent_once(c);
    law_narrowing_settles(c.quality_threshold);
    let v = choose|v: i32| is_integer_of(c.split_penalty, v);
    assert(is_integer_of(back.split_penalty, v));
    assert(travels(back));
    lemma_sent_once(back);
}

/// Settings that a message can carry come back from it with the threshold
/// narrowed and the same penalty.
proof fn lemma_sent_once(c: EngineConfig)
    requires
        travels(c),
    ensures
        ({
            let back = config_of(message_of(c));
            &&& back == (EngineConfig {
                quality_threshold: narrowed(c.quality_threshold),
                split_penalty: back.split_penalty,
                ..c
            })
            &&& back.split_penalty.is_finite()
            &&& back.split_penalty.value() == c.split_penalty.value()
            &&& back.split_penalty.bits != SIGN
            &&& c.split_penalty.bits != SIGN ==> back.split_penalty == c.split_penalty
        }),
{
    let v = choose|v: i32| is_integer_of(c.split_penalty, v);
    law_i32_round_trip(v, c.split_penalty);
    lemma_double_exists(v);
    lemma_size_nonnegative(c.split_penalty);
    lemma_size_nonnegative(double_of(v));
    if c.split_penalty.bits != SIGN {
        lemma_double_unique(c.split_penalty, double_of(v), v);
    }
}

/// A message comes back from the settings that it asks for with the defaults
/// filled in: what it sets stays set to the same, zero included, the quality
/// threshold to the nearest single-precision number, which it is where it came
/// in a message.
pub proof fn law_message_round_trip(p: proto::EngineConfig)
    ensures
        ({
            let q = message_of(config_of(p));
            &&& p.quality_threshold matches Some(v) ==> q.quality_threshold == Some(narrowed(v))
            &&& p.split_penalty is Some ==> q.split_penalty == p.split_penalty
            &&& p.min_anchor_spacing_ms is Some ==> q.min_anchor_spacing_ms
                == p.min_anchor_spacing_ms
            &&& p.max_drift_ms is Some ==> q.max_drift_ms == p.max_drift_ms
            &&& p.split_threshold_ms is Some ==> q.split_threshold_ms == p.split_threshold_ms
            &&& p.sweep_step_ms is Some ==> q.sweep_step_ms == p.sweep_step_ms
            &&& p.coverage_buffer_ms is Some ==> q.coverage_buffer_ms == p.coverage_buffer_ms
            &&& p.stitch_tolerance_ms is Some ==> q.stitch_tolerance_ms == p.stitch_tolerance_ms
            &&& p.vad_mode is Some ==> q.vad_mode == p.vad_mode
        }),
{
    if let Some(v) = p.split_penalty {
        lemma_double_exists(v);
        law_i32_round_trip(v, double_of(v));
    }
}

/// Only the low 32 bits of a number travel: what arrives differs from it by a
/// whole multiple of `2^32`, and is the number itself where that fits.
pub proof fn law_low_bits_travel(v: i64)
    ensures
        i32::MIN <= wrapped(v) <= i32::MAX,
        (v - wrapped(v)) % 0x1_0000_0000 == 0,
        i32::MIN <= v <= i32::MAX ==> wrapped(v) == v,
{
}

/// A message sets everything, each setting to that of the same name as far as
/// 32 bits carry it.
pub proof fn law_messages_carry_each_setting(c: EngineConfig)
    ensures
        ({
            let p = message_of(c);
            &&& p.quality_threshold == Some(narrowed(c.quality_threshold))
            &&& p.split_penalty matches Some(v) && v == c.split_penalty.as_i32()
            &&& p.min_anchor_spacing_ms matches Some(v) && (c.min_anchor_spacing_ms - v)
                % 0x1_0000_0000 == 0
            &&& p.max_drift_ms matches Some(v) && (c.max_drift_ms - v) % 0x1_0000_0000 == 0
            &&& p.split_threshold_ms matches Some(v) && (c.split_threshold_ms - v) % 0x1_0000_0000
                == 0
            &&& p.sweep_step_ms matches Some(v) && (c.sweep_step_ms - v) % 0x1_0000_0000 == 0
            &&& p.coverage_buffer_ms matches Some(v) && (c.coverage_buffer_ms - v) % 0x1_0000_0000
                == 0
            &&& p.stitch_tolerance_ms matches Some(v) && (c.stitch_tolerance_ms - v)
                % 0x1_0000_0000 == 0
            &&& p.vad_mode == Some(c.vad_mode)
        }),
{
}

/// Each setting of a message becomes the setting of the same name; what is
/// unset becomes what an engine has that was told nothing.
pub proof fn law_messages_set_what_they_name(p: proto::EngineConfig)
    ensures
        ({
            let c = config_of(p);
            let d = default_config();
            &&& c.quality_threshold == p.quality_threshold.unwrap_or(d.quality_threshold)
            &&& p.split_penalty matches Some(v) ==> c.split_penalty.is_finite()
                && c.split_penalty.value() == v as real
            &&& p.split_penalty is None ==> c.split_penalty == d.split_penalty
            &&& p.min_anchor_spacing_ms matches Some(v) ==> c.min_anchor_spacing_ms == v
            &&& p.min_anchor_spacing_ms is None ==> c.min_anchor_spacing_ms
                == d.min_anchor_spacing_ms
            &&& p.max_drift_ms matches Some(v) ==> c.max_drift_ms == v
            &&& p.max_drift_ms is None ==> c.max_drift_ms == d.max_drift_ms
            &&& p.split_threshold_ms matches Some(v) ==> c.split_threshold_ms == v
            &&& p.split_threshold_ms is None ==> c.split_threshold_ms == d.split_threshold_ms
            &&& p.sweep_step_ms matches Some(v) ==> c.sweep_step_ms == v
            &&& p.sweep_step_ms is None ==> c.sweep_step_ms == d.sweep_step_ms
            &&& p.coverage_buffer_ms matches Some(v) ==> c.coverage_buffer_ms == v
            &&& p.coverage_buffer_ms is None ==> c.coverage_buffer_ms == d.coverage_buffer_ms
            &&& p.stitch_tolerance_ms matches Some(v) ==> c.stitch_tolerance_ms == v
            &&& p.stitch_tolerance_ms is None ==> c.stitch_tolerance_ms == d.stitch_tolerance_ms
            &&& c.vad_mode == p.vad_mode.unwrap_or(d.vad_mode)
        }),
{
    if let Some(v) = p.split_penalty {
        lemma_double_exists(v);
    }
}

/// A plain message that asks for nothing but zeros asks for nothing. One whose
/// settings are not zero asks for what a message does that sets all of them
/// but the mode of the detector.
pub proof fn law_plain_messages_set_what_is_not_zero(
    p: proto::PlainEngineConfig,
    full: proto::EngineConfig,
)
    requires
        full.quality_threshold == (if p.quality_threshold.unsigned() != 0 {
            Some(p.quality_threshold)
        } else {
            None
        }),
        full.split_penalty == (if p.split_penalty != 0 {
            Some(p.split_penalty)
        } else {
            None
        }),
        full.min_anchor_spacing_ms == (if p.min_anchor_spacing_ms != 0 {
            Some(p.min_anchor_spacing_ms)
        } else {
            None
        }),
        full.max_drift_ms == (if p.max_drift_ms != 0 {
            Some(p.max_drift_ms)
        } else {
            None
        }),
        full.split_threshold_ms == (if p.split_threshold_ms != 0 {
            Some(p.split_threshold_ms)
        } else {
            None
        }),
        full.sweep_step_ms == (if p.sweep_step_ms != 0 {
            Some(p.sweep_step_ms)
        } else {
            None
        }),
        full.coverage_buffer_ms == (if p.coverage_buffer_ms != 0 {
            Some(p.coverage_buffer_ms)
        } else {
            None
        }),
        full.stitch_tolerance_ms == (if p.stitch_tolerance_ms != 0 {
            Some(p.stitch_tolerance_ms)
        } else {
            None
        }),
        full.vad_mode is None,
    ensures
        plain_config_of(p) == config_of(full),
{
}

/// A plain message carries what a message does, but for the mode of the
/// detector.
pub proof fn law_plain_messages_carry_the_same(c: EngineConfig)
    ensures
        ({
            let (plain, full) = (plain_message_of(c), message_of(c));
            &&& full.quality_threshold == Some(plain.quality_threshold)
            &&& full.split_penalty == Some(plain.split_penalty)
            &&& full.min_anchor_spacing_ms == Some(plain.min_anchor_spacing_ms)
            &&& full.max_drift_ms == Some(plain.max_drift_ms)
            &&& full.split_threshold_ms == Some(plain.split_threshold_ms)
            &&& full.sweep_step_ms == Some(plain.sweep_step_ms)
            &&& full.coverage_buffer_ms == Some(plain.coverage_buffer_ms)
            &&& full.stitch_tolerance_ms == Some(plain.stitch_tolerance_ms)
            &&& full.vad_mode == Some(c.vad_mode)
        }),
{
}

/// An engine that was told nothing has a split penalty of seven, and a quality
/// threshold that is a twentieth to one part in `2^53`. It keeps anchors half a
/// minute apart, looks half a minute around in steps of a second, and ten seconds
/// more for lines, parts lines by half a second, and joins what is five seconds
/// apart.
pub proof fn law_settings_of_an_engine_told_nothing()
    ensures
        ({
            let d = default_config();
            let (one, fine) = (1 as real, 0x20_0000_0000_0000int as real);
            let twenty_times = (20 as real) * d.quality_threshold.value();
            &&& d.split_penalty.is_finite() && d.split_penalty.value() == 7 as real
            &&& d.quality_threshold.is_finite()
            &&& (twenty_times - one) * fine <= one && (one - twenty_times) * fine <= one
            &&& d.min_anchor_spacing_ms == 30_000
            &&& d.max_drift_ms == 30_000
            &&& d.coverage_buffer_ms == 10_000
            &&& d.sweep_step_ms == 1_000
            &&& d.split_threshold_ms == 500
            &&& d.stitch_tolerance_ms == 5_000
            &&& d.vad_mode == 0
        }),
{
    let d = default_config();
    let (p, q) = (d.split_penalty, d.quality_threshold);
    let (u, v) = (two_to(-50), two_to(-57));
    lemma_two_to_sum(-50, 50);
    lemma_two_to_sum(-57, 57);
    assert(two_to(50) == 0x4_0000_0000_0000int as real) by {
        reveal_with_fuel(two_to, 51);
    }
    assert(two_to(57) == 0x200_0000_0000_0000int as real) by {
        reveal_with_fuel(two_to, 58);
    }
    assert(u * (0x4_0000_0000_0000int as real) == 1 as real);
    assert(v * (0x200_0000_0000_0000int as real) == 1 as real);
    assert(p.unit() == -50 && p.significand() == 0x1c_0000_0000_0000);
    assert(q.unit() == -57 && q.significand() == 0x19_9999_9999_999a);
    assert(p.size() == (0x1c_0000_0000_0000int as real) * u);
    assert(q.size() == (0x19_9999_9999_999aint as real) * v);
}

} // verus!
