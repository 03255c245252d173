//! Arrangement selection queries: paste anchor, select-all, notes hit by the
//! selection, and the view-independent resolution of the selected notes.

use crate::document::max_end_tracks;
use crate::edit_view::{groups_view, EditView, SelectionSnapshot};
use crate::editor::Editor;
use crate::note::NoteEvent;
use crate::selection::{ArrangeSelection, SelRect};
use vstd::prelude::*;

verus! {

/// Smallest lower visual track over the rectangles (`None` without rectangles).
pub open spec fn min_rect_visual(rects: Seq<SelRect>) -> Option<u16>
    decreases rects.len(),
{
    if rects.len() == 0 {
        None
    } else {
        let v = rects.last().4;
        match min_rect_visual(rects.drop_last()) {
            None => Some(v),
            Some(m) => Some(if v < m { v } else { m }),
        }
    }
}

/// Whether the selection covers note `n` shown on visual row `visual`.
pub open spec fn hit_pred(sel: ArrangeSelection, visual: u16) -> spec_fn(NoteEvent) -> bool {
    |n: NoteEvent| sel.spec_contains(visual, n.start_tick, n.key)
}

/// Last visual row among the first `i` rows that shows document track `t`.
pub open spec fn last_row_below(order: Seq<usize>, t: usize, i: int) -> Option<usize>
    decreases i,
{
    if i <= 0 {
        None
    } else if order[i - 1] == t {
        Some((i - 1) as usize)
    } else {
        last_row_below(order, t, i - 1)
    }
}

/// A row found among the first `i` rows is below `i`.
pub proof fn lemma_last_row_below_bound(order: Seq<usize>, t: usize, i: int)
    requires
        i <= order.len(),
    ensures
        last_row_below(order, t, i) matches Some(v) ==> v < i,
    decreases i,
{
    if i > 0 && order[i - 1] != t {
        lemma_last_row_below_bound(order, t, i - 1);
    }
}

/// Notes of `track` at the in-range positions of `idx`, in the order of `idx`.
pub open spec fn indexed_values(track: Seq<NoteEvent>, idx: Seq<usize>) -> Seq<NoteEvent>
    decreases idx.len(),
{
    if idx.len() == 0 {
        Seq::empty()
    } else {
        let prev = indexed_values(track, idx.drop_last());
        if idx.last() < track.len() {
            prev.push(track[idx.last() as int])
        } else {
            prev
        }
    }
}

/// Flat hit entry: `(start_tick, end_tick, visual_row, key)`.
pub type FlatHit = (u32, u32, usize, u8);

/// Notes hit by the arrangement selection, in two shapes from one scan.
pub struct ArrangeSelectionHits {
    /// Hit notes grouped by document track (non-empty groups only).
    pub by_track: Vec<(usize, Vec<NoteEvent>)>,
    /// Flat hit list for ghost previews.
    pub flat: Vec<FlatHit>,
}

impl ArrangeSelectionHits {
    /// Hit notes grouped by document track.
    pub fn by_track(&self) -> (g: &Vec<(usize, Vec<NoteEvent>)>)
        ensures
            g == &self.by_track,
    {
        &self.by_track
    }

    /// Whether no note is hit.
    pub fn is_empty(&self) -> (b: bool)
        ensures
            b == (self.by_track@.len() == 0),
    {
        self.by_track.len() == 0
    }

    /// Flat hit list.
    pub fn flat(&self) -> (f: &Vec<FlatHit>)
        ensures
            f == &self.flat,
    {
        &self.flat
    }
}

impl Editor {
    /// Visual row used by the selection scan for document track `t`: the last
    /// row listing it, or `t` itself.
    pub open spec fn scan_visual(&self, t: usize) -> usize {
        match last_row_below(self.track_visual_order@, t, self.track_visual_order@.len() as int) {
            Some(v) => v,
            None => t,
        }
    }

    /// Notes of document track `t` hit by the arrangement selection.
    pub open spec fn track_hits(&self, t: int) -> Seq<NoteEvent> {
        self.track_of(t).filter(hit_pred(self.arrange_selection, self.scan_visual(t as usize) as u16))
    }

    /// Hit groups of the first `k` tracks.
    pub open spec fn hit_groups_upto(&self, k: int) -> Seq<(usize, Seq<NoteEvent>)>
        decreases k,
    {
        if k <= 0 {
            Seq::empty()
        } else {
            let prev = self.hit_groups_upto(k - 1);
            let h = self.track_hits(k - 1);
            if h.len() > 0 {
                prev.push(((k - 1) as usize, h))
            } else {
                prev
            }
        }
    }

    /// Flat hits of the first `k` tracks.
    pub open spec fn hit_flat_upto(&self, k: int) -> Seq<FlatHit>
        decreases k,
    {
        if k <= 0 {
            Seq::empty()
        } else {
            let v = self.scan_visual((k - 1) as usize);
            self.hit_flat_upto(k - 1) + self.track_hits(k - 1).map_values(
                |n: NoteEvent| (n.start_tick, n.end_tick, v, n.key),
            )
        }
    }

    /// Hit groups of the whole document (none without a document or selection).
    pub open spec fn spec_hit_groups(&self) -> Seq<(usize, Seq<NoteEvent>)> {
        if self.document is None || self.arrange_selection.spec_is_empty() {
            Seq::empty()
        } else {
            self.hit_groups_upto(self.doc_tracks().len() as int)
        }
    }

    /// Flat hits of the whole document (none without a document or selection).
    pub open spec fn spec_hit_flat(&self) -> Seq<FlatHit> {
        if self.document is None || self.arrange_selection.spec_is_empty() {
            Seq::empty()
        } else {
            self.hit_flat_upto(self.doc_tracks().len() as int)
        }
    }

    /// Visual row of the paste anchor: the lowest visual track of the selection
    /// rectangles, else the current track's row.
    pub open spec fn spec_anchor_visual(&self) -> usize {
        if self.arrange_selection.spec_is_empty() {
            self.visual(self.current_track)
        } else {
            match min_rect_visual(self.arrange_selection.rects@) {
                None => self.visual(self.current_track),
                Some(v) => v as usize,
            }
        }
    }

    /// Paste anchor (visual row): the lowest visual track of the selection
    /// rectangles, else the current track's visual row.
    pub fn compute_anchor_visual(&self) -> (v: usize)
        ensures
            v == self.spec_anchor_visual(),
    {
        let selection = &self.arrange_selection;
        if selection.is_empty() {
            return self.visual_pos(self.current_track);
        }
        let mut min_visual: Option<u16> = None;
        let mut i: usize = 0;
        while i < selection.rects.len()
            invariant
                i <= selection.rects@.len(),
                min_visual == min_rect_visual(selection.rects@.take(i as int)),
            decreases selection.rects@.len() - i,
        {
            assert(selection.rects@.take(i + 1).drop_last() =~= selection.rects@.take(i as int));
            let v = selection.rects[i].4;
            min_visual = match min_visual {
                None => Some(v),
                Some(m) => Some(if v < m { v } else { m }),
            };
            i = i + 1;
        }
        assert(selection.rects@.take(i as int) =~= selection.rects@);
        match min_visual {
            None => self.visual_pos(self.current_track),
            Some(m) => m as usize,
        }
    }

    /// What selecting everything in the arrangement view does: `post` is the
    /// editor after it, `done` its result. With a document holding tracks, the
    /// selection becomes one rectangle over every tick up to the largest end
    /// tick (at least 1), every key of the MIDI range and every visual row.
    pub open spec fn arrange_select_all_notes_result(&self, post: Editor, done: bool) -> bool {
        &&& done == (self.document is Some && self.doc_tracks().len() > 0)
        &&& done ==> post.arrange_selection.frozen@ == Seq::<(u16, u32, u32, u8)>::empty()
            && post.arrange_selection.rects@ == seq![(
                0u32,
                if max_end_tracks(self.doc_tracks()) > 1 { max_end_tracks(self.doc_tracks()) } else { 1u32 },
                0u8,
                127u8,
                0u16,
                (if self.doc_tracks().len() - 1 < u16::MAX { self.doc_tracks().len() - 1 } else { u16::MAX as int }) as u16,
            )]
        &&& !done ==> post.arrange_selection == self.arrange_selection
        &&& post == (Editor { arrange_selection: post.arrange_selection, ..*self })
    }

    /// Selects every tick of every track (rectangle mode); `false` without a
    /// document or without tracks.
    pub fn arrange_select_all_notes(&mut self) -> (done: bool)
        ensures
            old(self).arrange_select_all_notes_result(*final(self), done),
    {
        let (track_count, max_end) = match &self.document {
            None => return false,
            Some(doc) => (doc.track_count(), doc.tracks_max_end_tick()),
        };
        if track_count == 0 {
            return false;
        }
        let max_tick = if max_end > 1 { max_end } else { 1 };
        let last = track_count - 1;
        let high: u16 = if last < u16::MAX as usize { last as u16 } else { u16::MAX };
        self.arrange_selection.clear();
        self.arrange_selection.add_rect_track(0, max_tick, 0, 127, 0, high);
        assert(self.arrange_selection.rects@ =~= seq![(0u32, max_tick, 0u8, 127u8, 0u16, high)]);
        true
    }

    /// Visual row of each document track as seen by the selection scan: the
    /// last row listing it, `usize::MAX` when none does.
    fn visual_table(&self, track_count: usize) -> (table: Vec<usize>)
        ensures
            table@.len() == track_count,
            forall|t: int| 0 <= t < track_count ==> (#[trigger] table@[t]) == match last_row_below(
                self.track_visual_order@,
                t as usize,
                self.track_visual_order@.len() as int,
            ) {
                Some(v) => v,
                None => usize::MAX,
            },
            forall|t: int| 0 <= t < track_count ==> (table@[t] == usize::MAX <==> last_row_below(
                self.track_visual_order@,
                t as usize,
                self.track_visual_order@.len() as int,
            ) is None),
    {
        let ghost order = self.track_visual_order@;
        let mut table: Vec<usize> = Vec::new();
        let mut k: usize = 0;
        while k < track_count
            invariant
                k <= track_count,
                table@.len() == k,
                forall|t: int| 0 <= t < k ==> table@[t] == usize::MAX,
            decreases track_count - k,
        {
            table.push(usize::MAX);
            k = k + 1;
        }
        let mut i: usize = 0;
        while i < self.track_visual_order.len()
            invariant
                i <= order.len(),
                order == self.track_visual_order@,
                table@.len() == track_count,
                forall|t: int| 0 <= t < track_count ==> (#[trigger] table@[t]) == match last_row_below(order, t as usize, i as int) {
                    Some(v) => v,
                    None => usize::MAX,
                },
            decreases order.len() - i,
        {
            let d = self.track_visual_order[i];
            if d < track_count {
                table.set(d, i);
            }
            i = i + 1;
        }
        assert forall|t: int| 0 <= t < track_count implies (table@[t] == usize::MAX <==> last_row_below(
            order,
            t as usize,
            order.len() as int,
        ) is None) by {
            lemma_last_row_below_bound(order, t as usize, order.len() as int);
        }
        table
    }

    /// Notes hit by the arrangement selection, grouped by document track and flat.
    pub fn arrangement_selection_hits(&self) -> (h: ArrangeSelectionHits)
        ensures
            groups_view(h.by_track@) == self.spec_hit_groups(),
            h.flat@ == self.spec_hit_flat(),
    {
        let empty = ArrangeSelectionHits { by_track: Vec::new(), flat: Vec::new() };
        proof {
            assert(groups_view(empty.by_track@) =~= Seq::<(usize, Seq<NoteEvent>)>::empty());
        }
        let doc = match &self.document {
            None => return empty,
            Some(d) => d,
        };
        if self.arrange_selection.is_empty() {
            return empty;
        }
        let track_count = doc.track_count();
        let table = self.visual_table(track_count);
        let tracks = doc.tracks();
        let mut by_track: Vec<(usize, Vec<NoteEvent>)> = Vec::new();
        let mut flat: Vec<FlatHit> = Vec::new();
        let mut t: usize = 0;
        while t < track_count
            invariant
                t <= track_count,
                track_count == self.doc_tracks().len(),
                self.document == Some(*doc),
                table@.len() == track_count,
                forall|k: int| 0 <= k < track_count ==> (#[trigger] table@[k]) == match last_row_below(
                    self.track_visual_order@,
                    k as usize,
                    self.track_visual_order@.len() as int,
                ) {
                    Some(v) => v,
                    None => usize::MAX,
                },
                forall|k: int| 0 <= k < track_count ==> (table@[k] == usize::MAX <==> last_row_below(
                    self.track_visual_order@,
                    k as usize,
                    self.track_visual_order@.len() as int,
                ) is None),
                tracks@.len() == doc@.len(),
                forall|k: int| 0 <= k < doc@.len() ==> (#[trigger] tracks@[k])@ == doc@[k],
                groups_view(by_track@) == self.hit_groups_upto(t as int),
                flat@ == self.hit_flat_upto(t as int),
            decreases track_count - t,
        {
            let visual = if table[t] == usize::MAX { t } else { table[t] };
            assert(visual == self.scan_visual(t));
            let notes = &tracks[t];
            assert(notes@ == self.track_of(t as int));
            let ghost pred = hit_pred(self.arrange_selection, visual as u16);
            let ghost f = |n: NoteEvent| (n.start_tick, n.end_tick, visual, n.key);
            let ghost flat0 = flat@;
            let mut selected: Vec<NoteEvent> = Vec::new();
            let mut i: usize = 0;
            while i < notes.len()
                invariant
                    i <= notes@.len(),
                    pred == hit_pred(self.arrange_selection, visual as u16),
                    f == (|n: NoteEvent| (n.start_tick, n.end_tick, visual, n.key)),
                    selected@ == notes@.take(i as int).filter(pred),
                    flat@ == flat0 + selected@.map_values(f),
                decreases notes@.len() - i,
            {
                let n = notes[i];
                proof {
                    assert(notes@.take(i + 1) =~= notes@.take(i as int).push(n));
                    notes@.take(i as int).lemma_filter_push(n, pred);
                }
                if self.arrange_selection.contains(visual as u16, n.start_tick, n.key) {
                    let ghost before = selected@;
                    selected.push(n);
                    flat.push((n.start_tick, n.end_tick, visual, n.key));
                    assert(selected@.map_values(f) =~= before.map_values(f).push(f(n)));
                }
                i = i + 1;
            }
            assert(notes@.take(notes@.len() as int) =~= notes@);
            assert(selected@ == self.track_hits(t as int));
            if selected.len() > 0 {
                let ghost before = by_track@;
                by_track.push((t, selected));
                assert(groups_view(by_track@) =~= groups_view(before).push((t, self.track_hits(t as int))));
            }
            t = t + 1;
        }
        ArrangeSelectionHits { by_track, flat }
    }

    /// Whether the arrangement selection hits any note.
    pub fn arrangement_has_selected_notes(&self) -> (b: bool)
        ensures
            b == (self.spec_hit_groups().len() > 0),
    {
        let hits = self.arrangement_selection_hits();
        !hits.is_empty()
    }

    /// Flat list `(start_tick, end_tick, visual_row, key)` of the notes hit by the
    /// arrangement selection (ghost preview while dragging a selection).
    pub fn arrangement_selected_notes(&self) -> (f: Vec<FlatHit>)
        ensures
            f@ == self.spec_hit_flat(),
    {
        self.arrangement_selection_hits().flat
    }

    /// Piano-roll selection as groups: the selected notes of the current track
    /// (no group when none of the selected indices is a note).
    pub open spec fn spec_roll_groups(&self) -> Seq<(usize, Seq<NoteEvent>)> {
        let v = indexed_values(self.track_of(self.current_track as int), self.selected_notes@);
        if self.selected_notes@.len() == 0 || v.len() == 0 {
            Seq::empty()
        } else {
            seq![(self.current_track, v)]
        }
    }

    /// Notes of `track` at the positions listed in `idx` (out-of-range positions skipped).
    pub fn notes_at_indices(notes: &Vec<NoteEvent>, idx: &Vec<usize>) -> (v: Vec<NoteEvent>)
        ensures
            v@ == indexed_values(notes@, idx@),
    {
        let mut out: Vec<NoteEvent> = Vec::new();
        let mut k: usize = 0;
        while k < idx.len()
            invariant
                k <= idx@.len(),
                out@ == indexed_values(notes@, idx@.take(k as int)),
            decreases idx@.len() - k,
        {
            assert(idx@.take(k + 1).drop_last() =~= idx@.take(k as int));
            let i = idx[k];
            if i < notes.len() {
                out.push(notes[i]);
            }
            k = k + 1;
        }
        assert(idx@.take(k as int) =~= idx@);
        out
    }

    /// Selected notes of the piano roll, grouped (single group: the current track).
    fn collect_roll_selected_notes(&self) -> (g: Vec<(usize, Vec<NoteEvent>)>)
        ensures
            groups_view(g@) == self.spec_roll_groups(),
    {
        let mut out: Vec<(usize, Vec<NoteEvent>)> = Vec::new();
        if !self.has_selection() {
            assert(groups_view(out@) =~= self.spec_roll_groups());
            return out;
        }
        let track = self.current_track;
        let notes = self.track_notes(track);
        let selected = Self::notes_at_indices(&notes, &self.selected_notes);
        if selected.len() > 0 {
            out.push((track, selected));
        }
        assert(groups_view(out@) =~= self.spec_roll_groups());
        out
    }

    /// Hit groups of the arrangement selection.
    fn collect_arrangement_selected_notes(&self) -> (g: Vec<(usize, Vec<NoteEvent>)>)
        ensures
            groups_view(g@) == self.spec_hit_groups(),
    {
        self.arrangement_selection_hits().by_track
    }

    /// Selected notes of `view`, falling back to the other view's selection when
    /// the view's own selection hits nothing.
    pub open spec fn spec_resolved(&self, view: EditView) -> Seq<(usize, Seq<NoteEvent>)> {
        match view {
            EditView::Arrangement => if self.spec_hit_groups().len() == 0 {
                self.spec_roll_groups()
            } else {
                self.spec_hit_groups()
            },
            EditView::PianoRoll => if self.spec_roll_groups().len() == 0 {
                self.spec_hit_groups()
            } else {
                self.spec_roll_groups()
            },
        }
    }

    /// Resolves the selected notes of `view` into a view-independent snapshot
    /// (the other view's selection is used when this one hits nothing).
    pub fn resolve_selection(&self, view: EditView) -> (s: SelectionSnapshot)
        ensures
            s.spec_view() == view,
            s.groups() == self.spec_resolved(view),
    {
        let resolved = match view {
            EditView::Arrangement => {
                let arranged = self.collect_arrangement_selected_notes();
                if arranged.len() == 0 {
                    self.collect_roll_selected_notes()
                } else {
                    arranged
                }
            },
            EditView::PianoRoll => {
                let roll = self.collect_roll_selected_notes();
                if roll.len() == 0 {
                    self.collect_arrangement_selected_notes()
                } else {
                    roll
                }
            },
        };
        SelectionSnapshot::new(view, resolved)
    }

    /// Whether `view` (or, failing it, the other view) has selected notes to act on.
    pub fn has_active_selection(&self, view: EditView) -> (b: bool)
        ensures
            b == (self.spec_resolved(view).len() > 0),
            b == (self.spec_hit_groups().len() > 0 || self.spec_roll_groups().len() > 0),
    {
        match view {
            EditView::Arrangement => {
                if self.arrangement_selection_hits().is_empty() {
                    self.collect_roll_selected_notes().len() > 0
                } else {
                    true
                }
            },
            EditView::PianoRoll => {
                if self.collect_roll_selected_notes().len() == 0 {
                    !self.arrangement_selection_hits().is_empty()
                } else {
                    true
                }
            },
        }
    }
}

/// FNV offset basis of the visual-order fingerprint.
pub const FNV_OFFSET: u64 = 0xcbf2_9ce4_8422_2325;

/// FNV prime of the visual-order fingerprint.
pub const FNV_PRIME: u64 = 0x0000_0100_0000_01b3;

/// Multiplier that mixes the length into the visual-order fingerprint.
pub const LENGTH_MIX: u64 = 0x9e37_79b9_7f4a_7c15;

/// FNV-1a state after the first `k` entries of `order`.
pub open spec fn fnv_upto(order: Seq<usize>, k: int) -> u64
    decreases k,
{
    if k <= 0 {
        FNV_OFFSET
    } else {
        let h = fnv_upto(order, k - 1) ^ (order[k - 1] as u64);
        ((h as nat * FNV_PRIME as nat) % 0x1_0000_0000_0000_0000) as u64
    }
}

/// Change fingerprint of a visual track order: FNV-1a over the entries, with
/// the length mixed in (so that the length of the order counts too).
pub open spec fn fingerprint(order: Seq<usize>) -> u64 {
    fnv_upto(order, order.len() as int) ^ (((order.len() as u64) as nat * LENGTH_MIX as nat) % 0x1_0000_0000_0000_0000) as u64
}

/// Change fingerprint of the visual track order (see `fingerprint`), meant
/// as a cache key for values derived from the order, such as the
/// arrangement selection hits.
pub fn visual_order_fingerprint(order: &Vec<usize>) -> (h: u64)
    ensures
        h == fingerprint(order@),
{
    let mut h: u64 = FNV_OFFSET;
    let mut i: usize = 0;
    while i < order.len()
        invariant
            i <= order@.len(),
            h == fnv_upto(order@, i as int),
        decreases order@.len() - i,
    {
        h = h ^ (order[i] as u64);
        h = h.wrapping_mul(FNV_PRIME);
        i = i + 1;
    }
    h ^ (order.len() as u64).wrapping_mul(LENGTH_MIX)
}

} // verus!
