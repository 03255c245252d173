//! Arrangement-view clipboard: the payload of a copy (notes covered by the
//! selection rectangles, relative to their lowest tick, key and visual row),
//! cut, and paste with per-note visual track routing and PPQN resampling.

use crate::arrange_edit::{insert_entries, insert_entries_into};
use crate::clip_payload::{
    channel_of, lemma_resample_bound, make_pasted_note, note_complete, paste_key, pasted_key,
    pasted_note, resample, resample_ticks, source_division, span, span_of, velocity_of, ClipKind,
    ClipNote, ClipboardPayload,
};
use crate::document::total_notes;
use crate::editor::Editor;
use crate::history::state_of;
use crate::note::NoteEvent;
use crate::selection::{FrozenEntry, SelRect};
use vstd::prelude::*;

verus! {

/// `acc` extended with the notes among the first `k` of `notes` (document
/// track `t`) that rectangle `r` covers and that it does not hold yet.
pub open spec fn collect_track(
    acc: Seq<(usize, NoteEvent)>,
    r: SelRect,
    t: usize,
    notes: Seq<NoteEvent>,
    k: int,
) -> Seq<(usize, NoteEvent)>
    decreases k,
{
    if k <= 0 {
        acc
    } else {
        let prev = collect_track(acc, r, t, notes, k - 1);
        let n = notes[k - 1];
        if r.2 <= n.key <= r.3 && r.0 <= n.start_tick < r.1 && !prev.contains((t, n)) {
            prev.push((t, n))
        } else {
            prev
        }
    }
}

/// Lowest start tick of the notes of `e` (`u32::MAX` when empty).
pub open spec fn min_start(e: Seq<(usize, NoteEvent)>) -> u32
    decreases e.len(),
{
    if e.len() == 0 {
        u32::MAX
    } else {
        let m = min_start(e.drop_last());
        if e.last().1.start_tick < m {
            e.last().1.start_tick
        } else {
            m
        }
    }
}

/// Lowest key of the notes of `e` (`u8::MAX` when empty).
pub open spec fn min_key(e: Seq<(usize, NoteEvent)>) -> u8
    decreases e.len(),
{
    if e.len() == 0 {
        u8::MAX
    } else {
        let m = min_key(e.drop_last());
        if e.last().1.key < m {
            e.last().1.key
        } else {
            m
        }
    }
}

/// `min_start` and `min_key` are lower bounds.
pub proof fn lemma_min_start_key(e: Seq<(usize, NoteEvent)>)
    ensures
        forall|i: int| 0 <= i < e.len() ==> min_start(e) <= (#[trigger] e[i]).1.start_tick && min_key(e) <= e[i].1.key,
    decreases e.len(),
{
    if e.len() > 0 {
        lemma_min_start_key(e.drop_last());
        assert forall|i: int| 0 <= i < e.len() implies min_start(e) <= (#[trigger] e[i]).1.start_tick && min_key(e) <= e[i].1.key by {
            if i < e.len() - 1 {
                assert(e[i] == e.drop_last()[i]);
            }
        }
    }
}

/// Whether `acc` holds `(t, n)`.
fn holds_entry(acc: &Vec<(usize, NoteEvent)>, t: usize, n: NoteEvent) -> (b: bool)
    ensures
        b == acc@.contains((t, n)),
{
    let mut i: usize = 0;
    while i < acc.len()
        invariant
            i <= acc@.len(),
            forall|j: int| 0 <= j < i ==> acc@[j] != (t, n),
        decreases acc@.len() - i,
    {
        if acc[i].0 == t && acc[i].1 == n {
            assert(acc@[i as int] == (t, n));
            return true;
        }
        i = i + 1;
    }
    false
}

/// Lowest start tick and lowest key of the notes of `e`.
pub(crate) fn start_key_origin(e: &Vec<(usize, NoteEvent)>) -> (r: (u32, u8))
    ensures
        r.0 == min_start(e@),
        r.1 == min_key(e@),
{
    let mut ot: u32 = u32::MAX;
    let mut ok: u8 = u8::MAX;
    let mut i: usize = 0;
    while i < e.len()
        invariant
            i <= e@.len(),
            ot == min_start(e@.take(i as int)),
            ok == min_key(e@.take(i as int)),
        decreases e@.len() - i,
    {
        assert(e@.take(i + 1).drop_last() =~= e@.take(i as int));
        let x = e[i];
        if x.1.start_tick < ot {
            ot = x.1.start_tick;
        }
        if x.1.key < ok {
            ok = x.1.key;
        }
        i = i + 1;
    }
    assert(e@.take(e@.len() as int) =~= e@);
    (ot, ok)
}

impl Editor {
    /// `acc` extended with the covered notes of the visual rows `r.4 .. v` of rectangle `r`.
    pub open spec fn collect_rows(&self, acc: Seq<(usize, NoteEvent)>, r: SelRect, v: int) -> Seq<(usize, NoteEvent)>
        decreases v - r.4,
    {
        if v <= r.4 {
            acc
        } else {
            let prev = self.collect_rows(acc, r, v - 1);
            let t = self.doc_track((v - 1) as usize);
            collect_track(prev, r, t, self.track_of(t as int), self.track_of(t as int).len() as int)
        }
    }

    /// Covered notes of the first `k` selection rectangles, each kept once.
    pub open spec fn collect_rects(&self, k: int) -> Seq<(usize, NoteEvent)>
        decreases k,
    {
        if k <= 0 {
            Seq::empty()
        } else {
            let r = self.arrange_selection.rects@[k - 1];
            self.collect_rows(self.collect_rects(k - 1), r, r.5 + 1)
        }
    }

    /// The notes an arrangement copy takes, with their document tracks: the
    /// notes of each visual row of each selection rectangle that start inside
    /// its tick range with a key inside its key range, in rectangle, row and
    /// track order, each `(track, note)` once.
    pub open spec fn arrange_clip_notes(&self) -> Seq<(usize, NoteEvent)> {
        if self.document is None {
            Seq::empty()
        } else {
            self.collect_rects(self.arrange_selection.rects@.len() as int)
        }
    }

    /// Lowest visual row of the tracks of `e` (`usize::MAX` when empty).
    pub open spec fn min_visual(&self, e: Seq<(usize, NoteEvent)>) -> usize
        decreases e.len(),
    {
        if e.len() == 0 {
            usize::MAX
        } else {
            let m = self.min_visual(e.drop_last());
            let v = self.visual(e.last().0);
            if v < m {
                v
            } else {
                m
            }
        }
    }

    /// `min_visual` is a lower bound.
    pub proof fn lemma_min_visual(&self, e: Seq<(usize, NoteEvent)>)
        ensures
            forall|i: int| 0 <= i < e.len() ==> self.min_visual(e) <= self.visual((#[trigger] e[i]).0),
        decreases e.len(),
    {
        if e.len() > 0 {
            self.lemma_min_visual(e.drop_last());
            assert forall|i: int| 0 <= i < e.len() implies self.min_visual(e) <= self.visual((#[trigger] e[i]).0) by {
                if i < e.len() - 1 {
                    assert(e[i] == e.drop_last()[i]);
                }
            }
        }
    }

    /// Lowest visual row of the tracks of `e`.
    pub(crate) fn visual_origin(&self, e: &Vec<(usize, NoteEvent)>) -> (v: usize)
        ensures
            v == self.min_visual(e@),
    {
        let mut ov: usize = usize::MAX;
        let mut i: usize = 0;
        while i < e.len()
            invariant
                i <= e@.len(),
                ov == self.min_visual(e@.take(i as int)),
            decreases e@.len() - i,
        {
            assert(e@.take(i + 1).drop_last() =~= e@.take(i as int));
            let v = self.visual_pos(e[i].0);
            if v < ov {
                ov = v;
            }
            i = i + 1;
        }
        assert(e@.take(e@.len() as int) =~= e@);
        ov
    }

    /// Clipboard form of a copied note of track `x.0`, relative to the origin
    /// tick `ot`, key `ok` and visual row `ov`.
    pub open spec fn arrange_clip_note(&self, x: (usize, NoteEvent), ot: u32, ok: u8, ov: usize) -> ClipNote {
        ClipNote {
            tick: Some((x.1.start_tick - ot) as i64),
            length: Some(span(x.1) as i64),
            key: Some((x.1.key - ok) as u64),
            velocity: Some(x.1.velocity as u64),
            channel: Some(x.1.channel as u64),
            track: Some((self.visual(x.0) - ov) as i64),
        }
    }

    /// The notes an arrangement copy takes (see `arrange_clip_notes`).
    pub(crate) fn collect_selected_notes_for_clipboard(&self) -> (e: Vec<(usize, NoteEvent)>)
        ensures
            e@ == self.arrange_clip_notes(),
    {
        let mut acc: Vec<(usize, NoteEvent)> = Vec::new();
        if self.document.is_none() {
            return acc;
        }
        let rects = &self.arrange_selection.rects;
        let mut i: usize = 0;
        while i < rects.len()
            invariant
                i <= rects@.len(),
                rects == &self.arrange_selection.rects,
                self.document is Some,
                acc@ == self.collect_rects(i as int),
            decreases rects@.len() - i,
        {
            let r = rects[i];
            let ghost base = acc@;
            let mut v: u32 = r.4 as u32;
            while v <= r.5 as u32
                invariant
                    r.4 <= v,
                    v <= r.5 + 1 || v == r.4,
                    acc@ == self.collect_rows(base, r, v as int),
                decreases r.5 + 1 - v,
            {
                let t = self.document_track_at(v as usize);
                let notes = self.track_notes(t);
                let ghost row = acc@;
                let mut k: usize = 0;
                while k < notes.len()
                    invariant
                        k <= notes@.len(),
                        notes@ == self.track_of(t as int),
                        acc@ == collect_track(row, r, t, notes@, k as int),
                    decreases notes@.len() - k,
                {
                    let n = notes[k];
                    if r.2 <= n.key && n.key <= r.3 && r.0 <= n.start_tick && n.start_tick < r.1 {
                        if !holds_entry(&acc, t, n) {
                            acc.push((t, n));
                        }
                    }
                    k = k + 1;
                }
                v = v + 1;
            }
            i = i + 1;
        }
        acc
    }

    /// Whether `q` is the payload of an arrangement copy from this editor:
    /// the copied notes (`arrange_clip_notes`) relative to their lowest start
    /// tick, key and visual row, with the document's PPQN.
    pub open spec fn arrange_copy_of(&self, q: ClipboardPayload) -> bool {
        let e = self.arrange_clip_notes();
        let ot = min_start(e);
        let ok = min_key(e);
        let ov = self.min_visual(e);
        &&& q.kind == ClipKind::Arrangement
        &&& q.track is None
        &&& q.origin_tick == Some(ot as i64)
        &&& q.origin_key == Some(ok as u64)
        &&& q.origin_track == Some(ov as u64)
        &&& q.division == Some(self.spec_division() as u64)
        &&& q.notes is Some
        &&& q.notes->0@ == e.map_values(|x: (usize, NoteEvent)| self.arrange_clip_note(x, ot, ok, ov))
    }

    /// Copies the notes covered by the arrangement selection: the payload
    /// holds each note relative to the lowest start tick, key and visual row of
    /// the copied notes, with the document's PPQN. `None` when the selection is
    /// empty or covers no note.
    pub fn arrange_copy_selected_notes(&self) -> (p: Option<ClipboardPayload>)
        ensures
            p is None <==> (self.arrange_selection.spec_is_empty() || self.arrange_clip_notes().len() == 0),
            p matches Some(q) ==> self.arrange_copy_of(q),
    {
        if self.arrange_selection.is_empty() {
            return None;
        }
        let e = self.collect_selected_notes_for_clipboard();
        if e.len() == 0 {
            return None;
        }
        let (ot, ok) = start_key_origin(&e);
        let ov = self.visual_origin(&e);
        proof {
            lemma_min_start_key(e@);
            self.lemma_min_visual(e@);
        }
        let ghost f = |x: (usize, NoteEvent)| self.arrange_clip_note(x, ot, ok, ov);
        let mut notes: Vec<ClipNote> = Vec::new();
        let mut j: usize = 0;
        while j < e.len()
            invariant
                j <= e@.len(),
                notes@.len() == j,
                forall|q: int| 0 <= q < e@.len() ==> min_start(e@) <= (#[trigger] e@[q]).1.start_tick && min_key(e@) <= e@[q].1.key,
                forall|q: int| 0 <= q < e@.len() ==> self.min_visual(e@) <= self.visual((#[trigger] e@[q]).0),
                ot == min_start(e@),
                ok == min_key(e@),
                ov == self.min_visual(e@),
                f == (|x: (usize, NoteEvent)| self.arrange_clip_note(x, ot, ok, ov)),
                forall|q: int| 0 <= q < j ==> notes@[q] == f(#[trigger] e@[q]),
            decreases e@.len() - j,
        {
            let x = e[j];
            let v = self.visual_pos(x.0);
            assert(ov <= v);
            let len = span_of(&x.1);
            notes.push(ClipNote {
                tick: Some((x.1.start_tick - ot) as i64),
                length: Some(len as i64),
                key: Some((x.1.key - ok) as u64),
                velocity: Some(x.1.velocity as u64),
                channel: Some(x.1.channel as u64),
                track: Some((v - ov) as i64),
            });
            j = j + 1;
        }
        assert(notes@ =~= e@.map_values(f));
        Some(ClipboardPayload {
            kind: ClipKind::Arrangement,
            track: None,
            origin_tick: Some(ot as i64),
            origin_key: Some(ok as u64),
            origin_track: Some(ov as u64),
            division: Some(self.division() as u64),
            notes: Some(notes),
        })
    }

    /// Cut in the arrangement view: once the copy has reached the clipboard
    /// (`copied`), the covered notes are deleted; returns how many.
    pub fn arrange_cut_selected_notes(&mut self, copied: bool) -> (deleted: usize)
        requires
            old(self).wf(),
            total_notes(old(self).doc_tracks()) <= usize::MAX,
        ensures
            final(self).wf(),
            !copied ==> deleted == 0 && *final(self) == *old(self),
            copied ==> old(self).delete_result(*final(self), deleted),
    {
        if !copied {
            return 0;
        }
        self.arrange_delete_selected_notes()
    }
}

impl Editor {
    /// Destination document track and note of clipboard note `n` pasted in
    /// the arrangement view: the note lands on visual row `anchor + track`
    /// (at least 0), at the playback tick plus its resampled offset; `None`
    /// when that row is past the last track.
    pub open spec fn arrange_paste_entry(&self, n: ClipNote, origin_key: u16, src: u16) -> Option<(usize, NoteEvent)> {
        let max_visual: int = if self.doc_tracks().len() == 0 { 1 } else { self.doc_tracks().len() as int };
        let tr: int = match n.track {
            Some(t) => t as int,
            None => 0,
        };
        let dv0: int = self.spec_anchor_visual() + tr;
        let dv: int = if dv0 < 0 { 0 } else { dv0 };
        if dv >= max_visual {
            None
        } else {
            let target = self.spec_division();
            Some((
                self.doc_track(dv as usize),
                pasted_note(
                    self.playback_tick,
                    resample(n.tick->0 as int, src, target),
                    resample(n.length->0 as int, src, target),
                    paste_key(origin_key, (n.key->0) as u16, self.max_key),
                    velocity_of(n),
                    channel_of(n),
                ),
            ))
        }
    }

    /// Destinations and notes of the clipboard notes `notes` pasted in the
    /// arrangement view, in order, skipping those past the last track.
    pub open spec fn arrange_paste_entries(&self, notes: Seq<ClipNote>, origin_key: u16, src: u16) -> Seq<(usize, NoteEvent)>
        decreases notes.len(),
    {
        if notes.len() == 0 {
            Seq::empty()
        } else {
            let prev = self.arrange_paste_entries(notes.drop_last(), origin_key, src);
            match self.arrange_paste_entry(notes.last(), origin_key, src) {
                Some(x) => prev.push(x),
                None => prev,
            }
        }
    }

    /// What an arrangement paste of `p` would insert: `None` when the payload
    /// is not a note payload, lacks its origin key or notes, or holds a note
    /// without tick, length or key.
    pub open spec fn arrange_paste_plan(&self, p: &ClipboardPayload) -> Option<Seq<(usize, NoteEvent)>> {
        if p.kind == ClipKind::Other || p.origin_key is None || p.notes is None
            || exists|i: int| 0 <= i < p.notes->0@.len() && !note_complete(#[trigger] p.notes->0@[i]) {
            None
        } else {
            Some(self.arrange_paste_entries(p.notes->0@, (p.origin_key->0) as u16, source_division(p)))
        }
    }

    /// Selection entries of the pasted notes that land on an existing track.
    pub open spec fn paste_frozen(&self, e: Seq<(usize, NoteEvent)>) -> Seq<FrozenEntry>
        decreases e.len(),
    {
        if e.len() == 0 {
            Seq::empty()
        } else {
            let prev = self.paste_frozen(e.drop_last());
            let x = e.last();
            if x.0 < self.doc_tracks().len() {
                prev.push((self.visual(x.0) as u16, x.1.start_tick, x.1.end_tick, x.1.key))
            } else {
                prev
            }
        }
    }

    /// Selection entries of the pasted notes that land on an existing track.
    fn paste_frozen_of(&self, e: &Vec<(usize, NoteEvent)>) -> (f: Vec<FrozenEntry>)
        ensures
            f@ == self.paste_frozen(e@),
            f@.len() > 0 ==> self.doc_tracks().len() > 0,
    {
        let n_tracks = self.track_count();
        let mut f: Vec<FrozenEntry> = Vec::new();
        let mut i: usize = 0;
        while i < e.len()
            invariant
                i <= e@.len(),
                n_tracks == self.doc_tracks().len(),
                f@ == self.paste_frozen(e@.take(i as int)),
                f@.len() > 0 ==> n_tracks > 0,
            decreases e@.len() - i,
        {
            assert(e@.take(i + 1).drop_last() =~= e@.take(i as int));
            let x = e[i];
            if x.0 < n_tracks {
                let v = self.visual_pos(x.0);
                f.push((v as u16, x.1.start_tick, x.1.end_tick, x.1.key));
            }
            i = i + 1;
        }
        assert(e@.take(e@.len() as int) =~= e@);
        f
    }

    /// Pastes `p` in the arrangement view: each note lands on visual row
    /// "anchor + its track offset" (anchor: the lowest row of the selection
    /// rectangles, else the current track's row), at the playback tick plus
    /// its offset, with ticks resampled when the source PPQN differs; keys keep
    /// their origin. One undo point; the selection becomes the pasted notes.
    /// Returns whether a note was pasted.
    pub fn arrange_paste_payload(&mut self, p: &ClipboardPayload) -> (pasted: bool)
        requires
            old(self).wf(),
        ensures
            final(self).wf(),
            match old(self).arrange_paste_plan(p) {
                None => !pasted && *final(self) == *old(self),
                Some(e) => old(self).paste_apply_result(*final(self), e, pasted),
            },
    {
        let origin_key: u16 = match p.origin_key {
            None => return false,
            Some(k) => k as u16,
        };
        let notes = match &p.notes {
            None => return false,
            Some(v) => v,
        };
        match p.kind {
            ClipKind::Other => return false,
            _ => {},
        }
        let src: u16 = match p.division {
            Some(d) => d as u16,
            None => 0,
        };
        let target = self.division();
        let anchor_visual = self.compute_anchor_visual();
        let n_tracks = self.track_count();
        let max_visual: usize = if n_tracks == 0 { 1 } else { n_tracks };
        let mut entries: Vec<(usize, NoteEvent)> = Vec::new();
        let mut i: usize = 0;
        while i < notes.len()
            invariant
                i <= notes@.len(),
                p.notes == Some(*notes),
                origin_key == (p.origin_key->0) as u16,
                src == source_division(p),
                target == old(self).spec_division(),
                anchor_visual == old(self).spec_anchor_visual(),
                n_tracks == old(self).doc_tracks().len(),
                max_visual == (if n_tracks == 0 { 1 } else { n_tracks }),
                *self == *old(self),
                old(self).wf(),
                forall|j: int| 0 <= j < i ==> note_complete(#[trigger] notes@[j]),
                entries@ == self.arrange_paste_entries(notes@.take(i as int), origin_key, src),
            decreases notes@.len() - i,
        {
            assert(notes@.take(i + 1).drop_last() =~= notes@.take(i as int));
            let n = notes[i];
            let (tick, length, key) = match (n.tick, n.length, n.key) {
                (Some(a), Some(b), Some(c)) => (a, b, c),
                _ => {
                    assert(!note_complete(notes@[i as int]));
                    return false;
                },
            };
            let tr: i64 = match n.track {
                Some(t) => t,
                None => 0,
            };
            let dv0: i128 = anchor_visual as i128 + tr as i128;
            let dv: i128 = if dv0 < 0 { 0 } else { dv0 };
            if dv < max_visual as i128 {
                let dest = self.document_track_at(dv as usize);
                let off = resample_ticks(tick, src, target);
                let len = resample_ticks(length, src, target);
                proof {
                    lemma_resample_bound(tick, src, target);
                    lemma_resample_bound(length, src, target);
                }
                let k = pasted_key(origin_key, key as u16, self.max_key);
                let vel: u8 = match n.velocity {
                    Some(v) => v as u8,
                    None => 100,
                };
                let ch: u8 = match n.channel {
                    Some(c) => c as u8,
                    None => 0,
                };
                entries.push((dest, make_pasted_note(self.playback_tick, off, len, k, vel, ch)));
            }
            i = i + 1;
        }
        assert(notes@.take(notes@.len() as int) =~= notes@);
        self.apply_paste_internal(entries)
    }

    /// What pasting the entries `e` in the arrangement view does: `post` is
    /// the editor after it, `pasted` its result. The entries' notes are
    /// inserted into their tracks (one undo point; entries for missing tracks
    /// are dropped) and the selection becomes the inserted notes.
    pub open spec fn paste_apply_result(&self, post: Editor, e: Seq<(usize, NoteEvent)>, pasted: bool) -> bool {
        if e.len() == 0 {
            !pasted && post == *self
        } else if self.paste_frozen(e).len() == 0 {
            &&& !pasted
            &&& self.history.redo_dropped(post.history)
            &&& post == (Editor { history: post.history, ..*self })
        } else {
            let touched = self.current_track < self.doc_tracks().len()
                && exists|j: int| 0 <= j < e.len() && (#[trigger] e[j]).0 == self.current_track;
            &&& pasted
            &&& post.doc_tracks().len() == self.doc_tracks().len()
            &&& forall|t: int| 0 <= t < self.doc_tracks().len() ==> (#[trigger] post.doc_tracks()[t])
                == insert_entries(self.doc_tracks()[t], e, t as usize)
            &&& post.spec_division() == self.spec_division()
            &&& self.history.pushed(post.history, self.document)
            &&& post.arrange_selection.rects@.len() == 0
            &&& post.arrange_selection.frozen@ == self.paste_frozen(e)
            &&& post.notes_changed == (self.notes_changed || touched)
            &&& post.note_index_dirty == (self.note_index_dirty || touched)
            &&& post == (Editor {
                document: post.document,
                history: post.history,
                arrange_selection: post.arrange_selection,
                notes_changed: post.notes_changed,
                note_index_dirty: post.note_index_dirty,
                ..*self
            })
        }
    }

    /// Inserts the pasted entries into their tracks with one undo point (dropped
    /// again when no entry lands on an existing track) and makes the inserted
    /// notes the selection. Returns whether a note was inserted.
    pub fn apply_paste_internal(&mut self, entries: Vec<(usize, NoteEvent)>) -> (pasted: bool)
        requires
            old(self).wf(),
        ensures
            final(self).wf(),
            old(self).paste_apply_result(*final(self), entries@, pasted),
    {
        if entries.len() == 0 {
            return false;
        }
        let n_tracks = self.track_count();
        let frozen = self.paste_frozen_of(&entries);
        self.push_history();
        if frozen.len() == 0 {
            self.discard_last_history();
            assert(self.history.undo_states() =~= old(self).history.undo_states());
            assert(self.history.undo_moves() =~= old(self).history.undo_moves());
            return false;
        }
        let current = self.current_track;
        let mut doc = self.document.take().unwrap();
        let addressed = insert_entries_into(&mut doc, &entries, current);
        self.document = Some(doc);
        if addressed && current < n_tracks {
            self.mark_notes_changed();
        }
        self.arrange_selection.freeze(frozen);
        true
    }
}

} // verus!
