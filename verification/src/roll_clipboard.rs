//! Piano-roll clipboard: the payload of a copy (selected notes of the current
//! track, relative to their lowest tick and key), cut, and paste into the
//! current track (or, for arrangement payloads, routed over the tracks).

use crate::arrange_clipboard::{lemma_min_start_key, min_key, min_start, start_key_origin};
use crate::arrange_edit::{insert_entries, insert_entries_into, lemma_insert_entries_other};
use crate::arrange_query::indexed_values;
use crate::clip_payload::{
    channel_of, lemma_resample_bound, make_pasted_note, note_complete, paste_key,
    pasted_key, pasted_note, resample, resample_ticks, source_division, span, span_of,
    velocity_of, ClipKind, ClipNote, ClipboardPayload,
};
use crate::commit::{
    add_announcement_list, add_announcements, append_events, entry_add_announcement_list, entry_add_announcements,
    matching_indices, select_matching,
};
use crate::document::{keep_where, strictly_increasing_below};
use crate::editor::{CollabEvent, Editor};
use crate::history::state_of;
use crate::note::NoteEvent;
use vstd::prelude::*;

verus! {

/// Positions below `k` that `sel` lists, ascending, each once.
pub open spec fn listed_upto(sel: Seq<usize>, k: int) -> Seq<usize>
    decreases k,
{
    if k <= 0 {
        Seq::empty()
    } else {
        let prev = listed_upto(sel, k - 1);
        if sel.contains((k - 1) as usize) {
            prev.push((k - 1) as usize)
        } else {
            prev
        }
    }
}

/// The notes of `s`, each addressed to track `t`.
pub open spec fn on_track(s: Seq<NoteEvent>, t: usize) -> Seq<(usize, NoteEvent)> {
    s.map_values(|n: NoteEvent| (t, n))
}

/// Positions below `len` that `sel` lists, ascending, each once.
pub fn listed_positions(len: usize, sel: &Vec<usize>) -> (idx: Vec<usize>)
    ensures
        idx@ == listed_upto(sel@, len as int),
        strictly_increasing_below(idx@, len as int),
        forall|i: int|
            #![trigger idx@.contains(i as usize)]
            #![trigger sel@.contains(i as usize)]
            0 <= i < len ==> (idx@.contains(i as usize) <==> sel@.contains(i as usize)),
{
    let mut idx: Vec<usize> = Vec::new();
    let mut i: usize = 0;
    while i < len
        invariant
            i <= len,
            idx@ == listed_upto(sel@, i as int),
            strictly_increasing_below(idx@, i as int),
            forall|j: int|
                #![trigger idx@.contains(j as usize)]
                #![trigger sel@.contains(j as usize)]
                0 <= j < i ==> (idx@.contains(j as usize) <==> sel@.contains(j as usize)),
        decreases len - i,
    {
        let mut listed = false;
        let mut k: usize = 0;
        while k < sel.len()
            invariant
                k <= sel@.len(),
                listed == exists|q: int| 0 <= q < k && sel@[q] == i,
            decreases sel@.len() - k,
        {
            if sel[k] == i {
                listed = true;
            }
            k = k + 1;
        }
        proof {
            if listed {
                let q = choose|q: int| 0 <= q < k && sel@[q] == i;
                assert(sel@.contains(i));
            } else {
                assert(!sel@.contains(i)) by {
                    if sel@.contains(i) {
                        let q = choose|q: int| 0 <= q < sel@.len() && sel@[q] == i;
                        assert(sel@[q] == i);
                    }
                }
            }
        }
        let ghost before = idx@;
        if listed {
            idx.push(i);
        }
        proof {
            assert forall|j: int|
                #![trigger idx@.contains(j as usize)]
                #![trigger sel@.contains(j as usize)]
                0 <= j <= i implies (idx@.contains(j as usize) <==> sel@.contains(j as usize)) by {
                if j < i {
                    if idx@.contains(j as usize) {
                        let q = choose|q: int| 0 <= q < idx@.len() && idx@[q] == j as usize;
                        if q < before.len() {
                            assert(before[q] == j as usize);
                            assert(before.contains(j as usize));
                        }
                    }
                    if before.contains(j as usize) {
                        let q = choose|q: int| 0 <= q < before.len() && before[q] == j as usize;
                        assert(idx@[q] == j as usize);
                    }
                } else if listed {
                    assert(idx@[before.len() as int] == i);
                } else {
                    assert(!idx@.contains(i)) by {
                        if idx@.contains(i) {
                            let q = choose|q: int| 0 <= q < idx@.len() && idx@[q] == i;
                        }
                    }
                }
            }
        }
        i = i + 1;
    }
    idx
}

/// The notes of `s`, each addressed to track `t`.
pub(crate) fn entries_on(s: &Vec<NoteEvent>, t: usize) -> (e: Vec<(usize, NoteEvent)>)
    ensures
        e@ == on_track(s@, t),
{
    let mut e: Vec<(usize, NoteEvent)> = Vec::new();
    let mut i: usize = 0;
    while i < s.len()
        invariant
            i <= s@.len(),
            e@.len() == i,
            forall|j: int| 0 <= j < i ==> e@[j] == (t, #[trigger] s@[j]),
        decreases s@.len() - i,
    {
        e.push((t, s[i]));
        i = i + 1;
    }
    assert(e@ =~= on_track(s@, t));
    e
}

/// Clipboard form of a copied piano-roll note, relative to the origin tick
/// `ot` and key `ok`.
pub open spec fn roll_clip_note(n: NoteEvent, ot: u32, ok: u8) -> ClipNote {
    ClipNote {
        tick: Some((n.start_tick - ot) as i64),
        length: Some(span(n) as i64),
        key: Some((n.key - ok) as u64),
        velocity: Some(n.velocity as u64),
        channel: Some(n.channel as u64),
        track: None,
    }
}

impl Editor {
    /// Positions of the selected notes of the current track, ascending.
    pub open spec fn selected_positions(&self) -> Seq<usize> {
        listed_upto(self.selected_notes@, self.current_notes().len() as int)
    }

    /// The selected notes of the current track, in track order.
    pub open spec fn roll_selected(&self) -> Seq<NoteEvent> {
        indexed_values(self.current_notes(), self.selected_positions())
    }

    /// Selected notes of the current track, in track order.
    pub(crate) fn selected_notes_in_order(&self) -> (s: Vec<NoteEvent>)
        ensures
            s@ == self.roll_selected(),
    {
        let notes = self.track_notes(self.current_track);
        let idx = listed_positions(notes.len(), &self.selected_notes);
        Self::notes_at_indices(&notes, &idx)
    }

    /// Whether `q` is the payload of a piano-roll copy from this editor: the
    /// selected notes of the current track relative to their lowest start
    /// tick and key, naming source `track` and PPQN `division`.
    pub open spec fn roll_copy_of(&self, q: ClipboardPayload, track: usize, division: u16) -> bool {
        let s = self.roll_selected();
        let ot = min_start(on_track(s, self.current_track));
        let ok = min_key(on_track(s, self.current_track));
        &&& q.kind == ClipKind::Missing
        &&& q.track == Some(track as u64)
        &&& q.origin_tick == Some(ot as i64)
        &&& q.origin_key == Some(ok as u64)
        &&& q.origin_track is None
        &&& q.division == Some(division as u64)
        &&& q.notes is Some
        &&& q.notes->0@ == s.map_values(|n: NoteEvent| roll_clip_note(n, ot, ok))
    }

    /// Copies the selected notes of the current track: the payload holds each
    /// note relative to the lowest start tick and key of the selection, with
    /// the given source `track` and PPQN. `None` when no note is selected.
    pub fn build_clipboard_payload(&self, track: usize, division: u16) -> (p: Option<ClipboardPayload>)
        ensures
            p is None <==> self.roll_selected().len() == 0,
            p matches Some(q) ==> self.roll_copy_of(q, track, division),
    {
        let s = self.selected_notes_in_order();
        if s.len() == 0 {
            return None;
        }
        let e = entries_on(&s, self.current_track);
        let ghost es = e@;
        let (ot, ok) = start_key_origin(&e);
        proof {
            lemma_min_start_key(e@);
        }
        let ghost f = |n: NoteEvent| roll_clip_note(n, ot, ok);
        let mut notes: Vec<ClipNote> = Vec::new();
        let mut j: usize = 0;
        while j < s.len()
            invariant
                j <= s@.len(),
                e@ == on_track(s@, self.current_track),
                notes@.len() == j,
                forall|q: int| 0 <= q < e@.len() ==> min_start(e@) <= (#[trigger] e@[q]).1.start_tick && min_key(e@) <= e@[q].1.key,
                ot == min_start(e@),
                ok == min_key(e@),
                f == (|n: NoteEvent| roll_clip_note(n, ot, ok)),
                forall|q: int| 0 <= q < j ==> notes@[q] == f(#[trigger] s@[q]),
            decreases s@.len() - j,
        {
            let n = s[j];
            assert(e@[j as int].1 == n);
            let len = span_of(&n);
            notes.push(ClipNote {
                tick: Some((n.start_tick - ot) as i64),
                length: Some(len as i64),
                key: Some((n.key - ok) as u64),
                velocity: Some(n.velocity as u64),
                channel: Some(n.channel as u64),
                track: None,
            });
            j = j + 1;
        }
        assert(notes@ =~= s@.map_values(f));
        Some(ClipboardPayload {
            kind: ClipKind::Missing,
            track: Some(track as u64),
            origin_tick: Some(ot as i64),
            origin_key: Some(ok as u64),
            origin_track: None,
            division: Some(division as u64),
            notes: Some(notes),
        })
    }

    /// Copy in the piano roll: the payload of the selected notes of the current
    /// track, with the current track and the document's PPQN. `None` when
    /// nothing is selected.
    pub fn copy_selected_notes_payload(&self) -> (p: Option<ClipboardPayload>)
        ensures
            p is None <==> self.roll_selected().len() == 0,
            p matches Some(q) ==> self.roll_copy_of(q, self.current_track, self.spec_division()),
    {
        if !self.has_selection() {
            assert(self.selected_positions() =~= Seq::<usize>::empty()) by {
                self.lemma_listed_empty(self.current_notes().len() as int);
            }
            return None;
        }
        self.build_clipboard_payload(self.current_track, self.division())
    }

    /// Nothing is listed by an empty selection.
    proof fn lemma_listed_empty(&self, k: int)
        requires
            self.selected_notes@.len() == 0,
        ensures
            listed_upto(self.selected_notes@, k) == Seq::<usize>::empty(),
        decreases k,
    {
        if k > 0 {
            self.lemma_listed_empty(k - 1);
        }
    }

    /// What deleting the selected notes of the current track does: `post` is
    /// the editor after it, `deleted` its result. The selected notes leave the
    /// track (one undo point) and the selection is cleared; nothing changes
    /// when no note is selected.
    pub open spec fn roll_delete_result(&self, post: Editor, deleted: usize) -> bool {
        &&& deleted == self.selected_positions().len()
        &&& deleted == 0 ==> post == *self
        &&& deleted > 0 ==> {
            &&& self.current_track < self.doc_tracks().len()
            &&& post.doc_tracks() == self.doc_tracks().update(
                self.current_track as int,
                keep_where(self.current_notes(), |i: int| !self.selected_notes@.contains(i as usize)),
            )
            &&& post.spec_division() == self.spec_division()
            &&& self.history.pushed(post.history, self.document)
            &&& post.selected_notes@.len() == 0
            &&& post == (Editor {
                document: post.document,
                history: post.history,
                selected_notes: post.selected_notes,
                notes_changed: true,
                note_index_dirty: true,
                ..*self
            })
        }
    }

    /// Deletes the selected notes of the current track (one undo point) and
    /// clears the selection; returns how many were deleted.
    pub fn delete_selected_notes(&mut self) -> (deleted: usize)
        requires
            old(self).wf(),
        ensures
            final(self).wf(),
            old(self).roll_delete_result(*final(self), deleted),
    {
        let track = self.current_track;
        let notes = self.track_notes(track);
        let idx = listed_positions(notes.len(), &self.selected_notes);
        if idx.len() == 0 {
            return 0;
        }
        proof {
            if track >= old(self).doc_tracks().len() {
                assert(notes@.len() == 0);
                assert(idx@[0] < 0);
            }
        }
        self.push_history();
        let mut doc = self.document.take().unwrap();
        proof {
            crate::commit::lemma_keep_where_same(
                notes@,
                |i: int| !idx@.contains(i as usize),
                |i: int| !old(self).selected_notes@.contains(i as usize),
            );
        }
        let removed = doc.remove_notes_merged(track, &idx);
        self.document = Some(doc);
        self.selection_clear();
        self.mark_notes_changed();
        removed
    }

    /// Cut in the piano roll: once the copy has reached the clipboard
    /// (`copied`), the selected notes are deleted; returns how many.
    pub fn cut_selected_notes(&mut self, copied: bool) -> (deleted: usize)
        requires
            old(self).wf(),
        ensures
            final(self).wf(),
            !copied ==> deleted == 0 && *final(self) == *old(self),
            copied ==> old(self).roll_delete_result(*final(self), deleted),
    {
        if !copied {
            return 0;
        }
        self.delete_selected_notes()
    }

    /// What committing pasted notes does: `post` is the editor after it. The
    /// notes go into the current track (one undo point) and become the selection.
    pub open spec fn pasted_commit_result(&self, post: Editor, pasted: Seq<NoteEvent>) -> bool {
        let ct = self.current_track;
        &&& post.doc_tracks() == (if ct < self.doc_tracks().len() {
            self.doc_tracks().update(ct as int, insert_entries(self.current_notes(), on_track(pasted, ct), ct))
        } else {
            self.doc_tracks()
        })
        &&& post.spec_division() == self.spec_division()
        &&& self.history.pushed(post.history, self.document)
        &&& post.selected_notes@ == matching_indices(post.current_notes(), pasted, post.current_notes().len() as int)
        &&& post.collab_outbox@ == self.collab_outbox@ + (if ct < self.doc_tracks().len() {
            add_announcements(pasted, ct)
        } else {
            Seq::empty()
        })
        &&& post == (Editor {
            document: post.document,
            history: post.history,
            selected_notes: post.selected_notes,
            collab_outbox: post.collab_outbox,
            notes_changed: true,
            note_index_dirty: true,
            ..*self
        })
    }

    /// Inserts pasted notes into the current track (one undo point), selects
    /// every note of the track equal to one of them, and announces the added
    /// notes to collaborators when the track exists.
    pub fn commit_pasted_notes(&mut self, pasted: Vec<NoteEvent>)
        requires
            old(self).wf(),
        ensures
            final(self).wf(),
            old(self).pasted_commit_result(*final(self), pasted@),
    {
        self.push_history();
        self.selection_clear();
        let track = self.current_track;
        let entries = entries_on(&pasted, track);
        if self.document.is_some() {
            let mut doc = self.document.take().unwrap();
            let ghost d0 = doc@;
            let _ = insert_entries_into(&mut doc, &entries, track);
            proof {
                if track < d0.len() {
                    assert(doc@ =~= d0.update(track as int, insert_entries(d0[track as int], on_track(pasted@, track), track)))
                        by {
                        assert forall|t: int| 0 <= t < d0.len() && t != track implies doc@[t] == d0[t] by {
                            lemma_insert_entries_other(d0[t], entries@, t as usize, track);
                        }
                    }
                } else {
                    assert(doc@ =~= d0) by {
                        assert forall|t: int| 0 <= t < d0.len() implies doc@[t] == d0[t] by {
                            lemma_insert_entries_other(d0[t], entries@, t as usize, track);
                        }
                    }
                }
            }
            self.document = Some(doc);
        }
        let now = self.track_notes(track);
        self.selected_notes = select_matching(&now, &pasted);
        self.mark_notes_changed();
        if track < self.track_count() {
            let announced = add_announcement_list(&pasted, track);
            append_events(&mut self.collab_outbox, &announced);
        } else {
            assert(self.collab_outbox@ =~= old(self).collab_outbox@ + Seq::<CollabEvent>::empty());
        }
    }
}

impl Editor {
    /// A clipboard note pasted in the piano roll: at the playback tick plus its
    /// resampled offset, key at the origin key plus its offset (capped).
    pub open spec fn roll_paste_note(&self, n: ClipNote, origin_key: u16, src: u16) -> NoteEvent {
        pasted_note(
            self.playback_tick,
            resample(n.tick->0 as int, src, self.spec_division()),
            resample(n.length->0 as int, src, self.spec_division()),
            paste_key(origin_key, (n.key->0) as u16, self.max_key),
            velocity_of(n),
            channel_of(n),
        )
    }

    /// The complete clipboard notes of `notes` pasted in the piano roll, in order.
    pub open spec fn roll_paste_notes(&self, notes: Seq<ClipNote>, origin_key: u16, src: u16) -> Seq<NoteEvent>
        decreases notes.len(),
    {
        if notes.len() == 0 {
            Seq::empty()
        } else {
            let prev = self.roll_paste_notes(notes.drop_last(), origin_key, src);
            if note_complete(notes.last()) {
                prev.push(self.roll_paste_note(notes.last(), origin_key, src))
            } else {
                prev
            }
        }
    }

    /// Visual row that clipboard note `n` of an arrangement payload lands on
    /// when pasted in the piano roll: the current track's row plus its
    /// (non-negative) track offset.
    pub open spec fn roll_route_visual(&self, n: ClipNote) -> int {
        let off: int = match n.track {
            Some(t) => if t < 0 { 0 } else { t as int },
            None => 0,
        };
        self.visual(self.current_track) + off
    }

    /// Destinations and notes of the complete clipboard notes of an
    /// arrangement payload pasted in the piano roll, in order, skipping those
    /// past the last track.
    pub open spec fn roll_route_entries(&self, notes: Seq<ClipNote>, origin_key: u16, src: u16) -> Seq<(usize, NoteEvent)>
        decreases notes.len(),
    {
        if notes.len() == 0 {
            Seq::empty()
        } else {
            let prev = self.roll_route_entries(notes.drop_last(), origin_key, src);
            let n = notes.last();
            if note_complete(n) && self.roll_route_visual(n) < self.doc_tracks().len() {
                prev.push((self.doc_track(self.roll_route_visual(n) as usize), self.roll_paste_note(n, origin_key, src)))
            } else {
                prev
            }
        }
    }

    /// The piano-roll form of a complete clipboard note.
    fn roll_note_of(&self, n: ClipNote, origin_key: u16, src: u16, target: u16) -> (m: NoteEvent)
        requires
            note_complete(n),
            target == self.spec_division(),
        ensures
            m == self.roll_paste_note(n, origin_key, src),
    {
        let tick = n.tick.unwrap();
        let length = n.length.unwrap();
        let key = n.key.unwrap();
        let off = resample_ticks(tick, src, target);
        let len = resample_ticks(length, src, target);
        proof {
            lemma_resample_bound(tick, src, target);
            lemma_resample_bound(length, src, target);
        }
        let k = pasted_key(origin_key, key as u16, self.max_key);
        let vel: u8 = match n.velocity {
            Some(v) => v as u8,
            None => 100,
        };
        let ch: u8 = match n.channel {
            Some(c) => c as u8,
            None => 0,
        };
        make_pasted_note(self.playback_tick, off, len, k, vel, ch)
    }

    /// Pastes `p` in the piano roll. A piano-roll payload goes into the current
    /// track (`commit_pasted_notes`); an arrangement payload is routed: each
    /// note lands on the track at "current row + its track offset", notes past
    /// the last track dropped, with one undo point and the selection cleared,
    /// every routed note announced to collaborators.
    /// Notes without tick, length or key are skipped. Returns whether notes
    /// were pasted.
    pub fn paste_json_payload(&mut self, p: &ClipboardPayload) -> (pasted: bool)
        requires
            old(self).wf(),
        ensures
            final(self).wf(),
            p.origin_key is None || p.notes is None ==> !pasted && *final(self) == *old(self),
            p.origin_key is Some && p.notes is Some && p.kind != ClipKind::Arrangement ==> {
                let s = old(self).roll_paste_notes(p.notes->0@, (p.origin_key->0) as u16, source_division(p));
                if s.len() == 0 {
                    !pasted && *final(self) == *old(self)
                } else {
                    pasted && old(self).pasted_commit_result(*final(self), s)
                }
            },
            p.origin_key is Some && p.notes is Some && p.kind == ClipKind::Arrangement ==> {
                let e = old(self).roll_route_entries(p.notes->0@, (p.origin_key->0) as u16, source_division(p));
                if e.len() == 0 {
                    !pasted && *final(self) == *old(self)
                } else {
                    &&& pasted
                    &&& final(self).doc_tracks().len() == old(self).doc_tracks().len()
                    &&& forall|t: int| 0 <= t < old(self).doc_tracks().len() ==> (#[trigger] final(self).doc_tracks()[t])
                        == insert_entries(old(self).doc_tracks()[t], e, t as usize)
                    &&& final(self).spec_division() == old(self).spec_division()
                    &&& old(self).history.pushed(final(self).history, old(self).document)
                    &&& final(self).selected_notes@.len() == 0
                    &&& final(self).collab_outbox@ == old(self).collab_outbox@ + entry_add_announcements(e)
                    &&& *final(self) == (Editor {
                        document: final(self).document,
                        history: final(self).history,
                        selected_notes: final(self).selected_notes,
                        collab_outbox: final(self).collab_outbox,
                        notes_changed: true,
                        note_index_dirty: true,
                        ..*old(self)
                    })
                }
            },
    {
        let origin_key: u16 = match p.origin_key {
            None => return false,
            Some(k) => k as u16,
        };
        let notes = match &p.notes {
            None => return false,
            Some(v) => v,
        };
        let src: u16 = match p.division {
            Some(d) => d as u16,
            None => 0,
        };
        let target = self.division();
        let multi = match p.kind {
            ClipKind::Arrangement => true,
            _ => false,
        };
        if !multi {
            let mut pasted: Vec<NoteEvent> = Vec::new();
            let mut i: usize = 0;
            while i < notes.len()
                invariant
                    i <= notes@.len(),
                    target == self.spec_division(),
                    pasted@ == self.roll_paste_notes(notes@.take(i as int), origin_key, src),
                decreases notes@.len() - i,
            {
                assert(notes@.take(i + 1).drop_last() =~= notes@.take(i as int));
                let n = notes[i];
                if n.tick.is_some() && n.length.is_some() && n.key.is_some() {
                    pasted.push(self.roll_note_of(n, origin_key, src, target));
                }
                i = i + 1;
            }
            assert(notes@.take(notes@.len() as int) =~= notes@);
            if pasted.len() == 0 {
                return false;
            }
            self.commit_pasted_notes(pasted);
            return true;
        }
        let anchor_visual = self.visual_pos(self.current_track);
        let n_tracks = self.track_count();
        let mut entries: Vec<(usize, NoteEvent)> = Vec::new();
        let mut i: usize = 0;
        while i < notes.len()
            invariant
                i <= notes@.len(),
                target == self.spec_division(),
                anchor_visual == self.visual(self.current_track),
                n_tracks == self.doc_tracks().len(),
                entries@ == self.roll_route_entries(notes@.take(i as int), origin_key, src),
            decreases notes@.len() - i,
        {
            assert(notes@.take(i + 1).drop_last() =~= notes@.take(i as int));
            let n = notes[i];
            if n.tick.is_some() && n.length.is_some() && n.key.is_some() {
                let off: u128 = match n.track {
                    Some(t) => if t < 0 { 0 } else { t as u128 },
                    None => 0,
                };
                let dv: u128 = anchor_visual as u128 + off;
                if dv < n_tracks as u128 {
                    let dest = self.document_track_at(dv as usize);
                    entries.push((dest, self.roll_note_of(n, origin_key, src, target)));
                }
            }
            i = i + 1;
        }
        assert(notes@.take(notes@.len() as int) =~= notes@);
        if entries.len() == 0 {
            return false;
        }
        proof {
            assert(n_tracks > 0) by {
                self.lemma_route_nonempty(notes@, origin_key, src);
            }
        }
        self.push_history();
        self.selection_clear();
        let current = self.current_track;
        let mut doc = self.document.take().unwrap();
        let _ = insert_entries_into(&mut doc, &entries, current);
        self.document = Some(doc);
        self.mark_notes_changed();
        let announced = entry_add_announcement_list(&entries);
        append_events(&mut self.collab_outbox, &announced);
        true
    }

    /// Routed entries exist only when the document has tracks.
    proof fn lemma_route_nonempty(&self, notes: Seq<ClipNote>, origin_key: u16, src: u16)
        ensures
            self.roll_route_entries(notes, origin_key, src).len() > 0 ==> self.doc_tracks().len() > 0,
        decreases notes.len(),
    {
        if notes.len() > 0 {
            self.lemma_route_nonempty(notes.drop_last(), origin_key, src);
        }
    }

    /// A note decoded from a Domino clipboard (ticks at 480 PPQN) as pasted:
    /// ticks resampled to the document's PPQN, key capped at `max_key`.
    pub open spec fn domino_note(&self, n: NoteEvent) -> NoteEvent {
        pasted_note(
            0,
            resample(n.start_tick as int, 480, self.spec_division()),
            resample(span(n) as int, 480, self.spec_division()),
            if n.key > self.max_key { self.max_key } else { n.key },
            n.velocity,
            n.channel,
        )
    }

    /// Pastes notes decoded from a Domino clipboard into the current track
    /// (`commit_pasted_notes`) after resampling them from 480 PPQN; `false`
    /// when there are none.
    pub fn try_paste_from_domino(&mut self, events: &Vec<NoteEvent>) -> (pasted: bool)
        requires
            old(self).wf(),
        ensures
            final(self).wf(),
            pasted == (events@.len() > 0),
            !pasted ==> *final(self) == *old(self),
            pasted ==> old(self).pasted_commit_result(
                *final(self),
                events@.map_values(|n: NoteEvent| old(self).domino_note(n)),
            ),
    {
        if events.len() == 0 {
            return false;
        }
        let target = self.division();
        let mut pasted: Vec<NoteEvent> = Vec::new();
        let mut i: usize = 0;
        while i < events.len()
            invariant
                i <= events@.len(),
                target == self.spec_division(),
                pasted@.len() == i,
                forall|j: int| 0 <= j < i ==> pasted@[j] == self.domino_note(#[trigger] events@[j]),
            decreases events@.len() - i,
        {
            let n = events[i];
            let start = resample_ticks(n.start_tick as i64, 480, target);
            let len = resample_ticks(span_of(&n) as i64, 480, target);
            proof {
                lemma_resample_bound(n.start_tick as i64, 480, target);
                lemma_resample_bound(span(n) as i64, 480, target);
            }
            let key = if n.key > self.max_key { self.max_key } else { n.key };
            pasted.push(make_pasted_note(0, start, len, key, n.velocity, n.channel));
            i = i + 1;
        }
        assert(pasted@ =~= events@.map_values(|n: NoteEvent| old(self).domino_note(n)));
        self.commit_pasted_notes(pasted);
        true
    }
}

} // verus!
