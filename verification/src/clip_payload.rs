//! The clipboard payload shared by the piano roll and the arrangement view,
//! and the arithmetic that places pasted notes: PPQN resampling, tick and
//! key clamping.
//!
//! The payload holds, field by field, what a clipboard text carries; turning
//! text into a payload (and back) happens outside the library.

use crate::note::NoteEvent;
use vstd::prelude::*;

verus! {

/// The `type` field of a clipboard payload.
#[derive(Clone, Copy, PartialEq, Eq, Debug, Structural)]
pub enum ClipKind {
    /// No `type` field (piano-roll payloads), or one that is not a string.
    Missing,
    /// `"notes"`: an explicit piano-roll payload.
    Notes,
    /// `"arrangement"`: an arrangement payload with per-note visual track offsets.
    Arrangement,
    /// Any other string: not a note payload.
    Other,
}

/// One note of a clipboard payload, relative to the payload's origin.
/// A field is `None` when the payload lacks it (or holds a value of another kind).
#[derive(Clone, Copy, PartialEq, Eq, Debug, Structural)]
pub struct ClipNote {
    /// Tick offset from the origin tick.
    pub tick: Option<i64>,
    /// Length in ticks.
    pub length: Option<i64>,
    /// Key offset from the origin key.
    pub key: Option<u64>,
    /// Velocity (100 when missing).
    pub velocity: Option<u64>,
    /// MIDI channel (0 when missing).
    pub channel: Option<u64>,
    /// Visual track offset from the anchor track (0 when missing).
    pub track: Option<i64>,
}

/// A clipboard payload.
pub struct ClipboardPayload {
    /// Sub-format of the payload.
    pub kind: ClipKind,
    /// Source document track (piano-roll payloads).
    pub track: Option<u64>,
    /// Lowest start tick of the copied notes.
    pub origin_tick: Option<i64>,
    /// Lowest key of the copied notes.
    pub origin_key: Option<u64>,
    /// Lowest visual track of the copied notes (arrangement payloads).
    pub origin_track: Option<u64>,
    /// PPQN of the source document.
    pub division: Option<u64>,
    /// The copied notes.
    pub notes: Option<Vec<ClipNote>>,
}

/// `x` ticks at `src` PPQN expressed at `target` PPQN, rounded half away from
/// zero; unchanged when `src` is 0 or equals `target`.
pub open spec fn resample(x: int, src: u16, target: u16) -> int {
    if src == 0 || src == target {
        x
    } else if x >= 0 {
        (2 * (x * target) + src) / (2 * src as int)
    } else {
        -((2 * ((-x) * target) + src) / (2 * src as int))
    }
}

/// `x` clamped to the tick range.
pub open spec fn clamp_tick(x: int) -> u32 {
    if x < 0 {
        0
    } else if x > u32::MAX {
        u32::MAX
    } else {
        x as u32
    }
}

/// Key of a pasted note: origin key plus offset (saturating), capped at `max_key`.
pub open spec fn paste_key(origin_key: u16, offset: u16, max_key: u8) -> u8 {
    let k: int = if origin_key + offset > u16::MAX { u16::MAX as int } else { origin_key + offset };
    if k > max_key {
        max_key
    } else {
        k as u8
    }
}

/// A pasted note: it starts `off` ticks after `anchor` and lasts `len` ticks,
/// both ends clamped to the tick range.
pub open spec fn pasted_note(anchor: u32, off: int, len: int, key: u8, velocity: u8, channel: u8) -> NoteEvent {
    let start = clamp_tick(anchor + off);
    NoteEvent { start_tick: start, end_tick: clamp_tick(start + len), key, velocity, channel }
}

/// Whether a clipboard note carries its tick, length and key.
pub open spec fn note_complete(n: ClipNote) -> bool {
    n.tick is Some && n.length is Some && n.key is Some
}

/// Velocity of a clipboard note (100 when missing; truncated to a byte).
pub open spec fn velocity_of(n: ClipNote) -> u8 {
    match n.velocity {
        Some(v) => v as u8,
        None => 100,
    }
}

/// Channel of a clipboard note (0 when missing; truncated to a byte).
pub open spec fn channel_of(n: ClipNote) -> u8 {
    match n.channel {
        Some(c) => c as u8,
        None => 0,
    }
}

/// Source PPQN of a payload (0, meaning "no resampling", when missing).
pub open spec fn source_division(p: &ClipboardPayload) -> u16 {
    match p.division {
        Some(d) => d as u16,
        None => 0,
    }
}

/// Length of a note in ticks (0 for a note that ends before it starts).
pub open spec fn span(n: NoteEvent) -> u32 {
    if n.end_tick >= n.start_tick {
        (n.end_tick - n.start_tick) as u32
    } else {
        0
    }
}

/// Length of a note in ticks (0 for a note that ends before it starts).
pub fn span_of(n: &NoteEvent) -> (len: u32)
    ensures
        len == span(*n),
{
    if n.end_tick >= n.start_tick {
        n.end_tick - n.start_tick
    } else {
        0
    }
}

/// Resamples `x` ticks from `src` to `target` PPQN.
pub fn resample_ticks(x: i64, src: u16, target: u16) -> (r: i128)
    ensures
        r == resample(x as int, src, target),
{
    if src == 0 || src == target {
        return x as i128;
    }
    let neg = x < 0;
    let a: i128 = if neg { -(x as i128) } else { x as i128 };
    let t: i128 = target as i128;
    let s: i128 = src as i128;
    assert(0 <= a * t <= 0x8000_0000_0000_0000 * 0x1_0000) by (nonlinear_arith)
        requires
            0 <= a <= 0x8000_0000_0000_0000,
            0 <= t <= 0xffff,
    ;
    let p: i128 = a * t;
    let q: i128 = (2 * p + s) / (2 * s);
    if neg {
        -q
    } else {
        q
    }
}

/// `x` clamped to the tick range.
pub fn clamp_ticks(x: i128) -> (t: u32)
    ensures
        t == clamp_tick(x as int),
{
    if x < 0 {
        0
    } else if x > u32::MAX as i128 {
        u32::MAX
    } else {
        x as u32
    }
}

/// Key of a pasted note: origin key plus offset (saturating), capped at `max_key`.
pub fn pasted_key(origin_key: u16, offset: u16, max_key: u8) -> (k: u8)
    ensures
        k == paste_key(origin_key, offset, max_key),
{
    let sum: u16 = origin_key.saturating_add(offset);
    if sum > max_key as u16 {
        max_key
    } else {
        sum as u8
    }
}

/// A note pasted `off` ticks after `anchor`, lasting `len` ticks.
pub fn make_pasted_note(anchor: u32, off: i128, len: i128, key: u8, velocity: u8, channel: u8) -> (n: NoteEvent)
    requires
        -0x1_0000_0000_0000_0000_0000_0000 <= off <= 0x1_0000_0000_0000_0000_0000_0000,
        -0x1_0000_0000_0000_0000_0000_0000 <= len <= 0x1_0000_0000_0000_0000_0000_0000,
    ensures
        n == pasted_note(anchor, off as int, len as int, key, velocity, channel),
{
    let start = clamp_ticks(anchor as i128 + off);
    let end = clamp_ticks(start as i128 + len);
    NoteEvent { start_tick: start, end_tick: end, key, velocity, channel }
}

/// Resampled magnitudes stay far inside `i128`.
pub proof fn lemma_resample_bound(x: i64, src: u16, target: u16)
    ensures
        -0x1_0000_0000_0000_0000_0000_0000 <= resample(x as int, src, target) <= 0x1_0000_0000_0000_0000_0000_0000,
{
    if src != 0 && src != target {
        let a: int = if x >= 0 { x as int } else { -(x as int) };
        assert(0 <= a * target <= 0x8000_0000_0000_0000 * 0x1_0000) by (nonlinear_arith)
            requires
                0 <= a <= 0x8000_0000_0000_0000,
                0 <= target <= 0xffff,
        ;
        assert((2 * (a * target) + src) / (2 * src as int) <= 2 * (a * target) + src) by (nonlinear_arith)
            requires
                0 <= a * target,
                1 <= src,
        ;
    }
}

} // verus!
