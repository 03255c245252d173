//! The compact binary clipboard form: a header (source PPQN, origin tick and
//! key, sub-format mark) and one record per note. Building the records of a
//! copy and pasting decoded records happen here; the byte encoding itself is
//! done outside the library.

use crate::arrange_clipboard::{lemma_min_start_key, min_key, min_start, start_key_origin};
use crate::arrange_edit::{insert_entries, insert_entries_into, lemma_insert_entries_other};
use crate::clip_payload::{
    lemma_resample_bound, make_pasted_note, paste_key, pasted_key, pasted_note, resample,
    resample_ticks, span, span_of,
};
use crate::commit::{add_announcement_list, add_announcements, append_events, entry_add_announcement_list, entry_add_announcements};
use crate::editor::Editor;
use crate::history::state_of;
use crate::note::NoteEvent;
use crate::roll_clipboard::{entries_on, on_track};
use vstd::prelude::*;

verus! {

/// Sub-format mark of arrangement payloads (record tracks are visual offsets
/// from the anchor row); a piano-roll payload carries its source track instead.
pub const ARRANGEMENT_BINARY_MARK: u16 = 0xFFFF;

/// Header of a binary clipboard payload.
#[derive(Clone, Copy, PartialEq, Eq, Debug, Structural)]
pub struct BinaryHeader {
    /// PPQN of the source document.
    pub division: u16,
    /// Lowest start tick of the copied notes.
    pub origin_tick: u32,
    /// Lowest key of the copied notes.
    pub origin_key: u8,
    /// `ARRANGEMENT_BINARY_MARK`, or the source track of a piano-roll copy.
    pub track_hint: u16,
    /// Number of records.
    pub count: u64,
}

/// One note of a binary clipboard payload, relative to the header's origin.
#[derive(Clone, Copy, PartialEq, Eq, Debug, Structural)]
pub struct BinaryRecord {
    /// Tick offset from the origin tick.
    pub tick_offset: u32,
    /// Length in ticks.
    pub length: u32,
    /// Key offset from the origin key.
    pub key_offset: u8,
    /// Velocity.
    pub velocity: u8,
    /// MIDI channel.
    pub channel: u8,
    /// Visual track offset from the anchor row (0 in piano-roll payloads).
    pub track: u16,
}

/// Record of note `n` relative to origin tick `ot` and key `ok`, on visual offset `track`.
pub open spec fn binary_record_of(n: NoteEvent, ot: u32, ok: u8, track: u16) -> BinaryRecord {
    BinaryRecord {
        tick_offset: (n.start_tick - ot) as u32,
        length: span(n),
        key_offset: (n.key - ok) as u8,
        velocity: n.velocity,
        channel: n.channel,
        track,
    }
}

impl Editor {
    /// A decoded record as pasted: at the playback tick plus its offset, ticks
    /// resampled from the header's PPQN, key at origin plus offset capped at `max_key`.
    pub open spec fn binary_note(&self, h: BinaryHeader, r: BinaryRecord) -> NoteEvent {
        pasted_note(
            self.playback_tick,
            resample(r.tick_offset as int, h.division, self.spec_division()),
            resample(r.length as int, h.division, self.spec_division()),
            paste_key(h.origin_key as u16, r.key_offset as u16, self.max_key),
            r.velocity,
            r.channel,
        )
    }

    /// The pasted form of a decoded record.
    fn binary_note_of(&self, h: &BinaryHeader, r: BinaryRecord, target: u16) -> (n: NoteEvent)
        requires
            target == self.spec_division(),
        ensures
            n == self.binary_note(*h, r),
    {
        let off = resample_ticks(r.tick_offset as i64, h.division, target);
        let len = resample_ticks(r.length as i64, h.division, target);
        proof {
            lemma_resample_bound(r.tick_offset as i64, h.division, target);
            lemma_resample_bound(r.length as i64, h.division, target);
        }
        let k = pasted_key(h.origin_key as u16, r.key_offset as u16, self.max_key);
        make_pasted_note(self.playback_tick, off, len, k, r.velocity, r.channel)
    }

    /// Records of the selected notes of the current track (track order), with
    /// the header naming `track` and `division`; `None` when nothing is selected.
    pub fn build_clipboard_binary(&self, track: usize, division: u16) -> (res: Option<(BinaryHeader, Vec<BinaryRecord>)>)
        ensures
            res is None <==> self.roll_selected().len() == 0,
            res matches Some(hr) ==> {
                let s = self.roll_selected();
                let ot = min_start(on_track(s, self.current_track));
                let ok = min_key(on_track(s, self.current_track));
                &&& hr.0 == BinaryHeader {
                    division,
                    origin_tick: ot,
                    origin_key: ok,
                    track_hint: track as u16,
                    count: s.len() as u64,
                }
                &&& hr.1@ == s.map_values(|n: NoteEvent| binary_record_of(n, ot, ok, 0))
            },
    {
        let s = self.selected_notes_in_order();
        if s.len() == 0 {
            return None;
        }
        let e = entries_on(&s, self.current_track);
        let (ot, ok) = start_key_origin(&e);
        proof {
            lemma_min_start_key(e@);
        }
        let ghost f = |n: NoteEvent| binary_record_of(n, ot, ok, 0);
        let mut records: Vec<BinaryRecord> = Vec::new();
        let mut j: usize = 0;
        while j < s.len()
            invariant
                j <= s@.len(),
                e@ == on_track(s@, self.current_track),
                records@.len() == j,
                forall|q: int| 0 <= q < e@.len() ==> min_start(e@) <= (#[trigger] e@[q]).1.start_tick && min_key(e@) <= e@[q].1.key,
                ot == min_start(e@),
                ok == min_key(e@),
                f == (|n: NoteEvent| binary_record_of(n, ot, ok, 0)),
                forall|q: int| 0 <= q < j ==> records@[q] == f(#[trigger] s@[q]),
            decreases s@.len() - j,
        {
            let n = s[j];
            assert(e@[j as int].1 == n);
            records.push(BinaryRecord {
                tick_offset: n.start_tick - ot,
                length: span_of(&n),
                key_offset: n.key - ok,
                velocity: n.velocity,
                channel: n.channel,
                track: 0,
            });
            j = j + 1;
        }
        assert(records@ =~= s@.map_values(f));
        let header = BinaryHeader {
            division,
            origin_tick: ot,
            origin_key: ok,
            track_hint: track as u16,
            count: s.len() as u64,
        };
        Some((header, records))
    }

    /// Records of the notes `all` (with their document tracks) of an
    /// arrangement copy: relative to their lowest tick, key and visual row,
    /// under the arrangement mark and the document's PPQN; `None` when empty.
    pub fn encode_arrangement_clipboard_binary(&self, all: &Vec<(usize, NoteEvent)>) -> (res: Option<(BinaryHeader, Vec<BinaryRecord>)>)
        ensures
            res is None <==> all@.len() == 0,
            res matches Some(hr) ==> {
                let ot = min_start(all@);
                let ok = min_key(all@);
                let ov = self.min_visual(all@);
                &&& hr.0 == BinaryHeader {
                    division: self.spec_division(),
                    origin_tick: ot,
                    origin_key: ok,
                    track_hint: ARRANGEMENT_BINARY_MARK,
                    count: all@.len() as u64,
                }
                &&& hr.1@ == all@.map_values(|x: (usize, NoteEvent)| binary_record_of(x.1, ot, ok, (self.visual(x.0) - ov) as u16))
            },
    {
        if all.len() == 0 {
            return None;
        }
        let (ot, ok) = start_key_origin(all);
        let ov = self.visual_origin(all);
        proof {
            lemma_min_start_key(all@);
            self.lemma_min_visual(all@);
        }
        let ghost f = |x: (usize, NoteEvent)| binary_record_of(x.1, ot, ok, (self.visual(x.0) - ov) as u16);
        let mut records: Vec<BinaryRecord> = Vec::new();
        let mut j: usize = 0;
        while j < all.len()
            invariant
                j <= all@.len(),
                records@.len() == j,
                forall|q: int| 0 <= q < all@.len() ==> min_start(all@) <= (#[trigger] all@[q]).1.start_tick && min_key(all@) <= all@[q].1.key,
                forall|q: int| 0 <= q < all@.len() ==> self.min_visual(all@) <= self.visual((#[trigger] all@[q]).0),
                ot == min_start(all@),
                ok == min_key(all@),
                ov == self.min_visual(all@),
                f == (|x: (usize, NoteEvent)| binary_record_of(x.1, ot, ok, (self.visual(x.0) - ov) as u16)),
                forall|q: int| 0 <= q < j ==> records@[q] == f(#[trigger] all@[q]),
            decreases all@.len() - j,
        {
            let x = all[j];
            let v = self.visual_pos(x.0);
            assert(ov <= v);
            records.push(BinaryRecord {
                tick_offset: x.1.start_tick - ot,
                length: span_of(&x.1),
                key_offset: x.1.key - ok,
                velocity: x.1.velocity,
                channel: x.1.channel,
                track: (v - ov) as u16,
            });
            j = j + 1;
        }
        assert(records@ =~= all@.map_values(f));
        let header = BinaryHeader {
            division: self.division(),
            origin_tick: ot,
            origin_key: ok,
            track_hint: ARRANGEMENT_BINARY_MARK,
            count: all.len() as u64,
        };
        Some((header, records))
    }

    /// Binary form of an arrangement copy (see `arrange_copy_selected_notes`):
    /// `None` when the selection is empty or covers no note.
    pub fn arrange_copy_binary(&self) -> (res: Option<(BinaryHeader, Vec<BinaryRecord>)>)
        ensures
            res is None <==> (self.arrange_selection.spec_is_empty() || self.arrange_clip_notes().len() == 0),
            res matches Some(hr) ==> {
                let e = self.arrange_clip_notes();
                let ot = min_start(e);
                let ok = min_key(e);
                let ov = self.min_visual(e);
                &&& hr.0 == BinaryHeader {
                    division: self.spec_division(),
                    origin_tick: ot,
                    origin_key: ok,
                    track_hint: ARRANGEMENT_BINARY_MARK,
                    count: e.len() as u64,
                }
                &&& hr.1@ == e.map_values(|x: (usize, NoteEvent)| binary_record_of(x.1, ot, ok, (self.visual(x.0) - ov) as u16))
            },
    {
        if self.arrange_selection.is_empty() {
            return None;
        }
        let e = self.collect_selected_notes_for_clipboard();
        self.encode_arrangement_clipboard_binary(&e)
    }

    /// Destination and note of a decoded record pasted in the arrangement
    /// view: visual row "anchor + record track", `None` past the last track.
    pub open spec fn arrange_binary_entry(&self, h: BinaryHeader, r: BinaryRecord) -> Option<(usize, NoteEvent)> {
        let max_visual: int = if self.doc_tracks().len() == 0 { 1 } else { self.doc_tracks().len() as int };
        let dv: int = self.spec_anchor_visual() + r.track;
        if dv >= max_visual {
            None
        } else {
            Some((self.doc_track(dv as usize), self.binary_note(h, r)))
        }
    }

    /// Destinations and notes of decoded records pasted in the arrangement view.
    pub open spec fn arrange_binary_entries(&self, h: BinaryHeader, recs: Seq<BinaryRecord>) -> Seq<(usize, NoteEvent)>
        decreases recs.len(),
    {
        if recs.len() == 0 {
            Seq::empty()
        } else {
            let prev = self.arrange_binary_entries(h, recs.drop_last());
            match self.arrange_binary_entry(h, recs.last()) {
                Some(x) => prev.push(x),
                None => prev,
            }
        }
    }

    /// Pastes decoded binary records in the arrangement view (same placement
    /// as `arrange_paste_payload`). `records` is `None` when decoding failed.
    pub fn arrange_paste_from_binary_bytes(&mut self, header: &BinaryHeader, records: Option<&Vec<BinaryRecord>>) -> (pasted: bool)
        requires
            old(self).wf(),
        ensures
            final(self).wf(),
            records is None ==> !pasted && *final(self) == *old(self),
            records matches Some(rs) ==> old(self).paste_apply_result(
                *final(self),
                old(self).arrange_binary_entries(*header, rs@),
                pasted,
            ),
    {
        let recs = match records {
            None => return false,
            Some(r) => r,
        };
        let target = self.division();
        let anchor_visual = self.compute_anchor_visual();
        let n_tracks = self.track_count();
        let max_visual: usize = if n_tracks == 0 { 1 } else { n_tracks };
        let mut entries: Vec<(usize, NoteEvent)> = Vec::new();
        let mut i: usize = 0;
        while i < recs.len()
            invariant
                i <= recs@.len(),
                target == self.spec_division(),
                anchor_visual == self.spec_anchor_visual(),
                n_tracks == self.doc_tracks().len(),
                max_visual == (if n_tracks == 0 { 1 } else { n_tracks }),
                entries@ == self.arrange_binary_entries(*header, recs@.take(i as int)),
            decreases recs@.len() - i,
        {
            assert(recs@.take(i + 1).drop_last() =~= recs@.take(i as int));
            let r = recs[i];
            let dv: u128 = anchor_visual as u128 + r.track as u128;
            if dv < max_visual as u128 {
                let dest = self.document_track_at(dv as usize);
                entries.push((dest, self.binary_note_of(header, r, target)));
            }
            i = i + 1;
        }
        assert(recs@.take(recs@.len() as int) =~= recs@);
        self.apply_paste_internal(entries)
    }

    /// Destinations and notes of decoded arrangement records pasted in the
    /// piano roll: row "current track's row + record track", dropped past the
    /// last track.
    pub open spec fn roll_binary_entries(&self, h: BinaryHeader, recs: Seq<BinaryRecord>) -> Seq<(usize, NoteEvent)>
        decreases recs.len(),
    {
        if recs.len() == 0 {
            Seq::empty()
        } else {
            let prev = self.roll_binary_entries(h, recs.drop_last());
            let r = recs.last();
            let dv: int = self.visual(self.current_track) + r.track;
            if dv < self.doc_tracks().len() {
                prev.push((self.doc_track(dv as usize), self.binary_note(h, r)))
            } else {
                prev
            }
        }
    }

    /// Routed entries exist only when the document has tracks.
    proof fn lemma_binary_route_nonempty(&self, h: BinaryHeader, recs: Seq<BinaryRecord>)
        ensures
            self.roll_binary_entries(h, recs).len() > 0 ==> self.doc_tracks().len() > 0,
        decreases recs.len(),
    {
        if recs.len() > 0 {
            self.lemma_binary_route_nonempty(h, recs.drop_last());
        }
    }

    /// Pastes decoded binary records in the piano roll. Arrangement payloads
    /// (the mark) are routed over the tracks (one undo point, selection
    /// cleared, every routed note announced to collaborators); other payloads go into the current track: an undo point is
    /// recorded and the selection cleared, then `commit_pasted_notes` runs.
    /// `records` is `None` when decoding failed; `false` also when empty.
    pub fn paste_binary_payload(&mut self, header: &BinaryHeader, records: Option<&Vec<BinaryRecord>>) -> (pasted: bool)
        requires
            old(self).wf(),
        ensures
            final(self).wf(),
            records is None ==> !pasted && *final(self) == *old(self),
            records matches Some(rs) ==> {
                if rs@.len() == 0 {
                    !pasted && *final(self) == *old(self)
                } else if header.track_hint == ARRANGEMENT_BINARY_MARK {
                    let e = old(self).roll_binary_entries(*header, rs@);
                    &&& pasted
                    &&& final(self).doc_tracks().len() == old(self).doc_tracks().len()
                    &&& forall|t: int| 0 <= t < old(self).doc_tracks().len() ==> (#[trigger] final(self).doc_tracks()[t])
                        == insert_entries(old(self).doc_tracks()[t], e, t as usize)
                    &&& final(self).spec_division() == old(self).spec_division()
                    &&& old(self).history.pushed(final(self).history, old(self).document)
                    &&& final(self).selected_notes@.len() == 0
                    &&& final(self).collab_outbox@ == old(self).collab_outbox@ + entry_add_announcements(e)
                    &&& *final(self) == (Editor {
                        document: final(self).document,
                        history: final(self).history,
                        selected_notes: final(self).selected_notes,
                        collab_outbox: final(self).collab_outbox,
                        notes_changed: true,
                        note_index_dirty: true,
                        ..*old(self)
                    })
                } else {
                    &&& pasted
                    &&& exists|mid: Editor| {
                        &&& #[trigger] old(self).history.pushed(mid.history, old(self).document)
                        &&& mid.selected_notes@.len() == 0
                        &&& mid == (Editor { history: mid.history, selected_notes: mid.selected_notes, ..*old(self) })
                        &&& mid.pasted_commit_result(
                            *final(self),
                            rs@.map_values(|r: BinaryRecord| old(self).binary_note(*header, r)),
                        )
                    }
                }
            },
    {
        let recs = match records {
            None => return false,
            Some(r) => r,
        };
        if recs.len() == 0 {
            return false;
        }
        let target = self.division();
        if header.track_hint == ARRANGEMENT_BINARY_MARK {
            let anchor_visual = self.visual_pos(self.current_track);
            let n_tracks = self.track_count();
            let mut entries: Vec<(usize, NoteEvent)> = Vec::new();
            let mut i: usize = 0;
            while i < recs.len()
                invariant
                    i <= recs@.len(),
                    target == self.spec_division(),
                    anchor_visual == self.visual(self.current_track),
                    n_tracks == self.doc_tracks().len(),
                    entries@ == self.roll_binary_entries(*header, recs@.take(i as int)),
                decreases recs@.len() - i,
            {
                assert(recs@.take(i + 1).drop_last() =~= recs@.take(i as int));
                let r = recs[i];
                let dv: u128 = anchor_visual as u128 + r.track as u128;
                if dv < n_tracks as u128 {
                    let dest = self.document_track_at(dv as usize);
                    entries.push((dest, self.binary_note_of(header, r, target)));
                }
                i = i + 1;
            }
            assert(recs@.take(recs@.len() as int) =~= recs@);
            self.push_history();
            self.selection_clear();
            let current = self.current_track;
            if self.document.is_some() {
                let mut doc = self.document.take().unwrap();
                let _ = insert_entries_into(&mut doc, &entries, current);
                self.document = Some(doc);
            } else {
                proof {
                    self.lemma_binary_route_nonempty(*header, recs@);
                }
            }
            self.mark_notes_changed();
            let announced = entry_add_announcement_list(&entries);
            append_events(&mut self.collab_outbox, &announced);
            return true;
        }
        let mut single: Vec<NoteEvent> = Vec::new();
        let mut i: usize = 0;
        while i < recs.len()
            invariant
                i <= recs@.len(),
                target == self.spec_division(),
                single@.len() == i,
                forall|j: int| 0 <= j < i ==> single@[j] == self.binary_note(*header, #[trigger] recs@[j]),
            decreases recs@.len() - i,
        {
            single.push(self.binary_note_of(header, recs[i], target));
            i = i + 1;
        }
        assert(single@ =~= recs@.map_values(|r: BinaryRecord| old(self).binary_note(*header, r)));
        self.push_history();
        self.selection_clear();
        let ghost mid = *self;
        self.commit_pasted_notes(single);
        assert(mid.history.undo_states() == old(self).history.undo_states().push(state_of(old(self).document)));
        true
    }

    /// Pastes decoded binary records into the current track (the primary
    /// piano-roll path): an undo point is recorded and the selection cleared
    /// first; then, unless decoding failed (`None`) or there are no records,
    /// the notes are inserted and announced to collaborators. Returns whether
    /// notes were inserted.
    pub fn try_paste_from_binary(&mut self, header: &BinaryHeader, records: Option<&Vec<BinaryRecord>>) -> (pasted: bool)
        requires
            old(self).wf(),
        ensures
            final(self).wf(),
            old(self).history.pushed(final(self).history, old(self).document),
            final(self).selected_notes@.len() == 0,
            pasted == (records matches Some(rs) && rs@.len() > 0),
            !pasted ==> *final(self) == (Editor {
                history: final(self).history,
                selected_notes: final(self).selected_notes,
                ..*old(self)
            }),
            pasted ==> {
                let ct = old(self).current_track;
                let notes = records->0@.map_values(|r: BinaryRecord| old(self).binary_note(*header, r));
                &&& final(self).doc_tracks() == (if ct < old(self).doc_tracks().len() {
                    old(self).doc_tracks().update(ct as int, insert_entries(old(self).current_notes(), on_track(notes, ct), ct))
                } else {
                    old(self).doc_tracks()
                })
                &&& final(self).spec_division() == old(self).spec_division()
                &&& final(self).collab_outbox@ == old(self).collab_outbox@ + add_announcements(notes, ct)
                &&& *final(self) == (Editor {
                    document: final(self).document,
                    history: final(self).history,
                    selected_notes: final(self).selected_notes,
                    collab_outbox: final(self).collab_outbox,
                    notes_changed: true,
                    note_index_dirty: true,
                    ..*old(self)
                })
            },
    {
        self.push_history();
        self.selection_clear();
        let recs = match records {
            None => return false,
            Some(r) => r,
        };
        if recs.len() == 0 {
            return false;
        }
        let target = self.division();
        let mut events: Vec<NoteEvent> = Vec::new();
        let mut i: usize = 0;
        while i < recs.len()
            invariant
                i <= recs@.len(),
                target == self.spec_division(),
                events@.len() == i,
                forall|j: int| 0 <= j < i ==> events@[j] == self.binary_note(*header, #[trigger] recs@[j]),
            decreases recs@.len() - i,
        {
            events.push(self.binary_note_of(header, recs[i], target));
            i = i + 1;
        }
        assert(events@ =~= recs@.map_values(|r: BinaryRecord| old(self).binary_note(*header, r)));
        let track = self.current_track;
        let entries = entries_on(&events, track);
        if self.document.is_some() {
            let mut doc = self.document.take().unwrap();
            let ghost d0 = doc@;
            let _ = insert_entries_into(&mut doc, &entries, track);
            proof {
                if track < d0.len() {
                    assert(doc@ =~= d0.update(track as int, insert_entries(d0[track as int], on_track(events@, track), track)))
                        by {
                        assert forall|t: int| 0 <= t < d0.len() && t != track implies doc@[t] == d0[t] by {
                            lemma_insert_entries_other(d0[t], entries@, t as usize, track);
                        }
                    }
                } else {
                    assert(doc@ =~= d0) by {
                        assert forall|t: int| 0 <= t < d0.len() implies doc@[t] == d0[t] by {
                            lemma_insert_entries_other(d0[t], entries@, t as usize, track);
                        }
                    }
                }
            }
            self.document = Some(doc);
        }
        self.mark_notes_changed();
        let announced = add_announcement_list(&events, track);
        append_events(&mut self.collab_outbox, &announced);
        true
    }
}

} // verus!
