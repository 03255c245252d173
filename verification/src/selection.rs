//! The arrangement selection: cross-track rectangles plus a frozen exact set.
//!
//! Tracks are addressed by **visual** position (sidebar order), not by document index.

use vstd::prelude::*;

verus! {

/// A selection rectangle: `(tick_start, tick_end, key_low, key_high, track_low, track_high)`.
/// Ticks are half open, keys and visual tracks are inclusive.
pub type SelRect = (u32, u32, u8, u8, u16, u16);

/// An exact selection entry: `(visual_track, start_tick, end_tick, key)`.
pub type FrozenEntry = (u16, u32, u32, u8);

/// Whether rectangle `r` covers a note at `visual`, `tick`, `key`.
pub open spec fn rect_hit(r: SelRect, visual: u16, tick: u32, key: u8) -> bool {
    &&& r.0 <= tick < r.1
    &&& r.2 <= key <= r.3
    &&& r.4 <= visual <= r.5
}

/// Whether the frozen entry `e` designates a note at `visual`, `tick`, `key`.
pub open spec fn frozen_hit(e: FrozenEntry, visual: u16, tick: u32, key: u8) -> bool {
    e.0 == visual && e.1 == tick && e.3 == key
}

/// `t` moved by `delta`, clamped to the tick range.
pub open spec fn shift_tick(t: u32, delta: i64) -> u32 {
    let v = t + delta;
    if v < 0 {
        0
    } else if v > u32::MAX {
        u32::MAX
    } else {
        v as u32
    }
}

/// Selection of the arrangement view: union of the rectangles and of the frozen entries.
pub struct ArrangeSelection {
    pub rects: Vec<SelRect>,
    pub frozen: Vec<FrozenEntry>,
}

impl ArrangeSelection {
    /// Whether the selection covers a note starting at `tick` with `key` on visual track `visual`.
    pub open spec fn spec_contains(&self, visual: u16, tick: u32, key: u8) -> bool {
        ||| exists|i: int| 0 <= i < self.rects@.len() && rect_hit(#[trigger] self.rects@[i], visual, tick, key)
        ||| exists|i: int|
            0 <= i < self.frozen@.len() && frozen_hit(#[trigger] self.frozen@[i], visual, tick, key)
    }

    /// Whether the selection holds neither rectangles nor frozen entries.
    pub open spec fn spec_is_empty(&self) -> bool {
        self.rects@.len() == 0 && self.frozen@.len() == 0
    }

    /// An empty selection.
    pub fn new() -> (s: Self)
        ensures
            s.rects@ == Seq::<SelRect>::empty(),
            s.frozen@ == Seq::<FrozenEntry>::empty(),
    {
        ArrangeSelection { rects: Vec::new(), frozen: Vec::new() }
    }

    /// Whether nothing is selected.
    pub fn is_empty(&self) -> (b: bool)
        ensures
            b == self.spec_is_empty(),
    {
        self.rects.len() == 0 && self.frozen.len() == 0
    }

    /// Drops every rectangle and frozen entry.
    pub fn clear(&mut self)
        ensures
            final(self).rects@ == Seq::<SelRect>::empty(),
            final(self).frozen@ == Seq::<FrozenEntry>::empty(),
    {
        self.rects.clear();
        self.frozen.clear();
    }

    /// Adds a rectangle (union); an empty tick range is ignored.
    pub fn add_rect_track(&mut self, tick_start: u32, tick_end: u32, key_low: u8, key_high: u8, track_low: u16, track_high: u16)
        ensures
            final(self).frozen@ == old(self).frozen@,
            final(self).rects@ == (if tick_start < tick_end {
                old(self).rects@.push((tick_start, tick_end, key_low, key_high, track_low, track_high))
            } else {
                old(self).rects@
            }),
    {
        if tick_start < tick_end {
            self.rects.push((tick_start, tick_end, key_low, key_high, track_low, track_high));
        }
    }

    /// Replaces the selection by exactly the given notes.
    pub fn freeze(&mut self, entries: Vec<FrozenEntry>)
        ensures
            final(self).rects@ == Seq::<SelRect>::empty(),
            final(self).frozen@ == entries@,
    {
        self.rects.clear();
        self.frozen = entries;
    }

    /// Whether the selection covers a note starting at `tick` with `key` on visual track `visual`.
    pub fn contains(&self, visual: u16, tick: u32, key: u8) -> (b: bool)
        ensures
            b == self.spec_contains(visual, tick, key),
    {
        let mut i: usize = 0;
        while i < self.rects.len()
            invariant
                i <= self.rects@.len(),
                forall|j: int| 0 <= j < i ==> !rect_hit(#[trigger] self.rects@[j], visual, tick, key),
            decreases self.rects@.len() - i,
        {
            let r = self.rects[i];
            if r.0 <= tick && tick < r.1 && r.2 <= key && key <= r.3 && r.4 <= visual && visual <= r.5 {
                assert(rect_hit(self.rects@[i as int], visual, tick, key));
                return true;
            }
            i = i + 1;
        }
        let mut k: usize = 0;
        while k < self.frozen.len()
            invariant
                k <= self.frozen@.len(),
                forall|j: int| 0 <= j < self.rects@.len() ==> !rect_hit(#[trigger] self.rects@[j], visual, tick, key),
                forall|j: int| 0 <= j < k ==> !frozen_hit(#[trigger] self.frozen@[j], visual, tick, key),
            decreases self.frozen@.len() - k,
        {
            let e = self.frozen[k];
            if e.0 == visual && e.1 == tick && e.3 == key {
                assert(frozen_hit(self.frozen@[k as int], visual, tick, key));
                return true;
            }
            k = k + 1;
        }
        false
    }

    /// Moves every rectangle and frozen entry by `delta` ticks (clamped to the tick range).
    pub fn offset_ticks(&mut self, delta: i64)
        ensures
            final(self).rects@.len() == old(self).rects@.len(),
            final(self).frozen@.len() == old(self).frozen@.len(),
            forall|i: int| 0 <= i < old(self).rects@.len() ==> {
                let r = #[trigger] old(self).rects@[i];
                final(self).rects@[i] == (shift_tick(r.0, delta), shift_tick(r.1, delta), r.2, r.3, r.4, r.5)
            },
            forall|i: int| 0 <= i < old(self).frozen@.len() ==> {
                let e = #[trigger] old(self).frozen@[i];
                final(self).frozen@[i] == (e.0, shift_tick(e.1, delta), shift_tick(e.2, delta), e.3)
            },
    {
        let mut rects: Vec<SelRect> = Vec::new();
        let mut i: usize = 0;
        while i < self.rects.len()
            invariant
                i <= self.rects@.len(),
                rects@.len() == i,
                forall|j: int| 0 <= j < i ==> {
                    let r = #[trigger] self.rects@[j];
                    rects@[j] == (shift_tick(r.0, delta), shift_tick(r.1, delta), r.2, r.3, r.4, r.5)
                },
            decreases self.rects@.len() - i,
        {
            let r = self.rects[i];
            rects.push((shift(r.0, delta), shift(r.1, delta), r.2, r.3, r.4, r.5));
            i = i + 1;
        }
        let mut frozen: Vec<FrozenEntry> = Vec::new();
        let mut k: usize = 0;
        while k < self.frozen.len()
            invariant
                k <= self.frozen@.len(),
                frozen@.len() == k,
                forall|j: int| 0 <= j < k ==> {
                    let e = #[trigger] self.frozen@[j];
                    frozen@[j] == (e.0, shift_tick(e.1, delta), shift_tick(e.2, delta), e.3)
                },
            decreases self.frozen@.len() - k,
        {
            let e = self.frozen[k];
            frozen.push((e.0, shift(e.1, delta), shift(e.2, delta), e.3));
            k = k + 1;
        }
        self.rects = rects;
        self.frozen = frozen;
    }
}

/// `t` moved by `delta`, clamped to the tick range.
fn shift(t: u32, delta: i64) -> (r: u32)
    ensures
        r == shift_tick(t, delta),
{
    let v: i128 = t as i128 + delta as i128;
    if v < 0 {
        0
    } else if v > u32::MAX as i128 {
        u32::MAX
    } else {
        v as u32
    }
}

} // verus!
