//! Speed change of the notes covered by the arrangement selection: the new
//! start and end of each covered note are given by the caller (they come from
//! scaling by a speed factor), and the notes are moved to them, the tracks
//! kept in start order, the selection frozen on the retimed notes.

use crate::arrange_edit::{insert_entries, insert_entries_into, lemma_insert_entries_other};
use crate::arrange_query::indexed_values;
use crate::commit::{
    append_events, delete_announcement_list, delete_announcements, entry_add_announcement_list, entry_add_announcements,
    matching_indices, select_matching,
};
use crate::document::{keep_where, strictly_increasing_below, total_notes, MidiDocument};
use crate::editor::{CollabEvent, Editor};
use crate::history::state_of;
use crate::note::NoteEvent;
use crate::selection::FrozenEntry;
use vstd::prelude::*;

verus! {

/// New times for the covered notes of one track, in track order (`None`: the
/// note keeps its times).
pub type Retimes = Vec<Option<(u32, u32)>>;

/// The retimes given for track `t`: those of the first group naming it
/// (none when no group does).
pub open spec fn retime_for(r: Seq<(usize, Retimes)>, t: usize) -> Seq<Option<(u32, u32)>>
    decreases r.len(),
{
    if r.len() == 0 {
        Seq::empty()
    } else if r[0].0 == t {
        r[0].1@
    } else {
        retime_for(r.drop_first(), t)
    }
}

/// Retime of the `j`-th covered note (`None` past the end of `g`).
pub open spec fn retime_at(g: Seq<Option<(u32, u32)>>, j: int) -> Option<(u32, u32)> {
    if 0 <= j < g.len() {
        g[j]
    } else {
        None
    }
}

/// Note `n` with the retime `r` applied.
pub open spec fn retimed(n: NoteEvent, r: Option<(u32, u32)>) -> NoteEvent {
    match r {
        Some((s, e)) => NoteEvent { start_tick: s, end_tick: e, ..n },
        None => n,
    }
}

/// The retimes given for track `t`.
fn retime_group(r: &Vec<(usize, Retimes)>, t: usize) -> (g: Vec<Option<(u32, u32)>>)
    ensures
        g@ == retime_for(r@, t),
{
    let mut i: usize = 0;
    assert(r@.skip(0) =~= r@);
    while i < r.len()
        invariant
            i <= r@.len(),
            retime_for(r@, t) == retime_for(r@.skip(i as int), t),
        decreases r@.len() - i,
    {
        assert(r@.skip(i as int).drop_first() =~= r@.skip(i + 1));
        if r[i].0 == t {
            assert(r@.skip(i as int)[0] == r@[i as int]);
            let src = &r[i].1;
            let mut g: Vec<Option<(u32, u32)>> = Vec::new();
            let mut k: usize = 0;
            while k < src.len()
                invariant
                    k <= src@.len(),
                    g@ == src@.take(k as int),
                decreases src@.len() - k,
            {
                g.push(src[k]);
                k = k + 1;
                assert(g@ =~= src@.take(k as int));
            }
            assert(src@.take(k as int) =~= src@);
            return g;
        }
        i = i + 1;
    }
    assert(r@.skip(i as int) =~= Seq::<(usize, Retimes)>::empty());
    Vec::new()
}

impl Editor {
    /// Positions, ascending, among the first `k` notes of track `t`, of the
    /// notes the arrangement selection covers on the track's visual row.
    pub open spec fn hit_positions_upto(&self, t: int, k: int) -> Seq<usize>
        decreases k,
    {
        if k <= 0 {
            Seq::empty()
        } else {
            let prev = self.hit_positions_upto(t, k - 1);
            let n = self.track_of(t)[k - 1];
            if self.arrange_selection.spec_contains(self.visual(t as usize) as u16, n.start_tick, n.key) {
                prev.push((k - 1) as usize)
            } else {
                prev
            }
        }
    }

    /// Positions, ascending, of the notes of track `t` the selection covers.
    pub open spec fn hit_positions(&self, t: int) -> Seq<usize> {
        self.hit_positions_upto(t, self.track_of(t).len() as int)
    }

    /// Positions of the first `k` covered notes of track `t` that `g` retimes.
    pub open spec fn speed_mods(&self, t: int, g: Seq<Option<(u32, u32)>>, k: int) -> Seq<usize>
        decreases k,
    {
        if k <= 0 {
            Seq::empty()
        } else {
            let prev = self.speed_mods(t, g, k - 1);
            if retime_at(g, k - 1) is Some {
                prev.push(self.hit_positions(t)[k - 1])
            } else {
                prev
            }
        }
    }

    /// The retimed notes among the first `k` covered notes of track `t`,
    /// addressed to the track.
    pub open spec fn speed_entries(&self, t: int, g: Seq<Option<(u32, u32)>>, k: int) -> Seq<(usize, NoteEvent)>
        decreases k,
    {
        if k <= 0 {
            Seq::empty()
        } else {
            let prev = self.speed_entries(t, g, k - 1);
            if retime_at(g, k - 1) is Some {
                prev.push((t as usize, retimed(self.track_of(t)[self.hit_positions(t)[k - 1] as int], retime_at(g, k - 1))))
            } else {
                prev
            }
        }
    }

    /// Selection entries of the first `k` covered notes of track `t`, at their
    /// new times.
    pub open spec fn speed_frozen(&self, t: int, g: Seq<Option<(u32, u32)>>, k: int) -> Seq<FrozenEntry>
        decreases k,
    {
        if k <= 0 {
            Seq::empty()
        } else {
            let n = retimed(self.track_of(t)[self.hit_positions(t)[k - 1] as int], retime_at(g, k - 1));
            self.speed_frozen(t, g, k - 1).push((self.visual(t as usize) as u16, n.start_tick, n.end_tick, n.key))
        }
    }

    /// Track `t` after the speed change: the retimed notes leave their
    /// positions and go back in at their new start.
    pub open spec fn speed_track(&self, t: int, r: Seq<(usize, Retimes)>) -> Seq<NoteEvent> {
        let g = retime_for(r, t as usize);
        let k = self.hit_positions(t).len() as int;
        insert_entries(
            keep_where(self.track_of(t), |i: int| !self.speed_mods(t, g, k).contains(i as usize)),
            self.speed_entries(t, g, k),
            t as usize,
        )
    }

    /// Number of retimed notes in the first `u` tracks.
    pub open spec fn speed_count_upto(&self, r: Seq<(usize, Retimes)>, u: int) -> int
        decreases u,
    {
        if u <= 0 {
            0
        } else {
            let t = u - 1;
            self.speed_count_upto(r, t) + self.speed_mods(t, retime_for(r, t as usize), self.hit_positions(t).len() as int).len()
        }
    }

    /// Selection entries of the covered notes of the first `u` tracks, at their new times.
    pub open spec fn speed_frozen_upto(&self, r: Seq<(usize, Retimes)>, u: int) -> Seq<FrozenEntry>
        decreases u,
    {
        if u <= 0 {
            Seq::empty()
        } else {
            let t = u - 1;
            self.speed_frozen_upto(r, t) + self.speed_frozen(t, retime_for(r, t as usize), self.hit_positions(t).len() as int)
        }
    }

    /// What the speed change announces to collaborators for the first `u`
    /// tracks, deletions part: each retimed note at its old times.
    pub open spec fn speed_deleted_upto(&self, r: Seq<(usize, Retimes)>, u: int) -> Seq<CollabEvent>
        decreases u,
    {
        if u <= 0 {
            Seq::empty()
        } else {
            let t = u - 1;
            let mods = self.speed_mods(t, retime_for(r, t as usize), self.hit_positions(t).len() as int);
            self.speed_deleted_upto(r, t) + delete_announcements(indexed_values(self.track_of(t), mods), t as usize)
        }
    }

    /// What the speed change announces to collaborators for the first `u`
    /// tracks, additions part: each retimed note at its new times.
    pub open spec fn speed_added_upto(&self, r: Seq<(usize, Retimes)>, u: int) -> Seq<CollabEvent>
        decreases u,
    {
        if u <= 0 {
            Seq::empty()
        } else {
            let t = u - 1;
            self.speed_added_upto(r, t) + entry_add_announcements(
                self.speed_entries(t, retime_for(r, t as usize), self.hit_positions(t).len() as int),
            )
        }
    }

    /// Whether the selection covers a note of some track.
    pub open spec fn speed_any_hit(&self) -> bool {
        exists|t: int| 0 <= t < self.doc_tracks().len() && #[trigger] self.hit_positions(t).len() > 0
    }
}

/// Keeping every position keeps the whole sequence.
proof fn lemma_keep_where_all(s: Seq<NoteEvent>, keep: spec_fn(int) -> bool)
    requires
        forall|i: int| 0 <= i < s.len() ==> #[trigger] keep(i),
    ensures
        keep_where(s, keep) == s,
    decreases s.len(),
{
    if s.len() > 0 {
        lemma_keep_where_all(s.drop_last(), keep);
        assert(keep(s.len() - 1));
        assert(s.drop_last().push(s.last()) =~= s);
    }
}

impl Editor {
    /// No more covered positions than notes looked at.
    proof fn lemma_hit_count(&self, t: int, k: int)
        ensures
            self.hit_positions_upto(t, k).len() <= if k < 0 { 0 } else { k },
        decreases k,
    {
        if k > 0 {
            self.lemma_hit_count(t, k - 1);
        }
    }

    /// The covered positions are ascending and below the number of notes looked at.
    proof fn lemma_hit_positions(&self, t: int, k: int)
        requires
            0 <= k <= usize::MAX,
        ensures
            strictly_increasing_below(self.hit_positions_upto(t, k), k),
        decreases k,
    {
        if k > 0 {
            self.lemma_hit_positions(t, k - 1);
            let prev = self.hit_positions_upto(t, k - 1);
            let cur = self.hit_positions_upto(t, k);
            assert forall|a: int, b: int| 0 <= a < b < cur.len() implies cur[a] < cur[b] by {
                if b < prev.len() {
                    assert(cur[a] == prev[a] && cur[b] == prev[b]);
                } else {
                    assert(cur[a] == prev[a]);
                    assert(cur[b] == (k - 1) as usize);
                }
            }
            assert forall|a: int| 0 <= a < cur.len() implies cur[a] < k by {
                if a < prev.len() {
                    assert(cur[a] == prev[a]);
                }
            }
        }
    }

    /// As many retimed entries as retimed positions, all addressed to track `t`.
    proof fn lemma_speed_entries(&self, t: int, g: Seq<Option<(u32, u32)>>, k: int)
        requires
            0 <= t <= usize::MAX,
        ensures
            self.speed_entries(t, g, k).len() == self.speed_mods(t, g, k).len(),
            self.speed_mods(t, g, k).len() <= if k < 0 { 0 } else { k },
            forall|j: int| 0 <= j < self.speed_entries(t, g, k).len() ==> (#[trigger] self.speed_entries(t, g, k)[j]).0 == t,
        decreases k,
    {
        if k > 0 {
            self.lemma_speed_entries(t, g, k - 1);
            let prev = self.speed_entries(t, g, k - 1);
            let cur = self.speed_entries(t, g, k);
            assert forall|j: int| 0 <= j < cur.len() implies (#[trigger] cur[j]).0 == t by {
                if j < prev.len() {
                    assert(cur[j] == prev[j]);
                }
            }
        }
    }

    /// The number of retimed notes is bounded by the number of notes.
    proof fn lemma_speed_count_bound(&self, r: Seq<(usize, Retimes)>, u: int)
        requires
            0 <= u <= self.doc_tracks().len(),
            self.doc_tracks().len() <= usize::MAX,
        ensures
            0 <= self.speed_count_upto(r, u) <= total_notes(self.doc_tracks().take(u)),
        decreases u,
    {
        if u > 0 {
            let t = u - 1;
            self.lemma_speed_count_bound(r, t);
            self.lemma_hit_count(t, self.track_of(t).len() as int);
            self.lemma_speed_entries(t, retime_for(r, t as usize), self.hit_positions(t).len() as int);
            assert(self.doc_tracks().take(u).drop_last() =~= self.doc_tracks().take(t));
            assert(self.doc_tracks().take(u).last() == self.track_of(t));
        }
    }

    /// Positions, ascending, of the notes of track `t` the selection covers.
    fn hit_positions_of(&self, notes: &Vec<NoteEvent>, t: usize) -> (h: Vec<usize>)
        requires
            notes@ == self.track_of(t as int),
        ensures
            h@ == self.hit_positions(t as int),
            strictly_increasing_below(h@, notes@.len() as int),
    {
        let visual = self.visual_pos(t) as u16;
        let mut h: Vec<usize> = Vec::new();
        let mut i: usize = 0;
        while i < notes.len()
            invariant
                i <= notes@.len(),
                notes@ == self.track_of(t as int),
                visual == self.visual(t) as u16,
                h@ == self.hit_positions_upto(t as int, i as int),
            decreases notes@.len() - i,
        {
            let n = notes[i];
            if self.arrange_selection.contains(visual, n.start_tick, n.key) {
                h.push(i);
            }
            i = i + 1;
        }
        proof {
            self.lemma_hit_positions(t as int, notes@.len() as int);
        }
        h
    }

    /// For track `t`: the retimed positions, the retimed notes and the
    /// selection entries of its covered notes.
    fn speed_track_plan(&self, notes: &Vec<NoteEvent>, t: usize, h: &Vec<usize>, g: &Vec<Option<(u32, u32)>>) -> (res: (
        Vec<usize>,
        Vec<(usize, NoteEvent)>,
        Vec<FrozenEntry>,
    ))
        requires
            notes@ == self.track_of(t as int),
            h@ == self.hit_positions(t as int),
            strictly_increasing_below(h@, notes@.len() as int),
        ensures
            res.0@ == self.speed_mods(t as int, g@, h@.len() as int),
            res.1@ == self.speed_entries(t as int, g@, h@.len() as int),
            res.2@ == self.speed_frozen(t as int, g@, h@.len() as int),
            strictly_increasing_below(res.0@, notes@.len() as int),
    {
        let visual = self.visual_pos(t) as u16;
        let mut mods: Vec<usize> = Vec::new();
        let mut entries: Vec<(usize, NoteEvent)> = Vec::new();
        let mut frozen: Vec<FrozenEntry> = Vec::new();
        let mut k: usize = 0;
        while k < h.len()
            invariant
                k <= h@.len(),
                notes@ == self.track_of(t as int),
                h@ == self.hit_positions(t as int),
                strictly_increasing_below(h@, notes@.len() as int),
                visual == self.visual(t) as u16,
                mods@ == self.speed_mods(t as int, g@, k as int),
                entries@ == self.speed_entries(t as int, g@, k as int),
                frozen@ == self.speed_frozen(t as int, g@, k as int),
                strictly_increasing_below(mods@, notes@.len() as int),
                k == 0 ==> mods@.len() == 0,
                k > 0 ==> forall|q: int| 0 <= q < mods@.len() ==> mods@[q] <= h@[k - 1],
            decreases h@.len() - k,
        {
            let p = h[k];
            let n = notes[p];
            let r: Option<(u32, u32)> = if k < g.len() { g[k] } else { None };
            let m = match r {
                Some((s, e)) => NoteEvent { start_tick: s, end_tick: e, ..n },
                None => n,
            };
            if r.is_some() {
                proof {
                    if k > 0 {
                        assert(h@[k - 1] < h@[k as int]);
                    }
                }
                mods.push(p);
                entries.push((t, m));
            }
            frozen.push((visual, m.start_tick, m.end_tick, m.key));
            k = k + 1;
        }
        (mods, entries, frozen)
    }

    /// Covered notes of the first `u` tracks, grouped by track (tracks
    /// without covered notes omitted).
    pub open spec fn covered_groups_upto(&self, u: int) -> Seq<(usize, Seq<NoteEvent>)>
        decreases u,
    {
        if u <= 0 {
            Seq::empty()
        } else {
            let t = u - 1;
            let prev = self.covered_groups_upto(t);
            if self.hit_positions(t).len() > 0 {
                prev.push((t as usize, indexed_values(self.track_of(t), self.hit_positions(t))))
            } else {
                prev
            }
        }
    }

    /// The notes a speed change acts on: for each track (ascending) holding
    /// notes the arrangement selection covers, those notes in track order;
    /// their new times are given back, group by group, to
    /// `arrange_apply_speed_change`.
    pub fn speed_change_targets(&self) -> (g: Vec<(usize, Vec<NoteEvent>)>)
        ensures
            crate::edit_view::groups_view(g@) == self.covered_groups_upto(self.doc_tracks().len() as int),
    {
        let n_tracks = self.track_count();
        let mut g: Vec<(usize, Vec<NoteEvent>)> = Vec::new();
        let mut t: usize = 0;
        while t < n_tracks
            invariant
                t <= n_tracks,
                n_tracks == self.doc_tracks().len(),
                crate::edit_view::groups_view(g@) == self.covered_groups_upto(t as int),
            decreases n_tracks - t,
        {
            let notes = self.track_notes(t);
            let h = self.hit_positions_of(&notes, t);
            let ghost before = g@;
            if h.len() > 0 {
                let v = Self::notes_at_indices(&notes, &h);
                g.push((t, v));
            }
            assert(crate::edit_view::groups_view(g@) =~= self.covered_groups_upto(t + 1)) by {
                if h@.len() > 0 {
                    assert(g@ == before.push(g@.last()));
                }
            }
            t = t + 1;
        }
        g
    }

    /// Speed change in the arrangement view: each note the selection covers
    /// takes the new start and end its track's group in `retimes` gives it
    /// (groups name document tracks; a group's entries follow the covered
    /// notes of the track in order, `None` keeping a note's times); retimed
    /// notes go back in at their new start. One undo point (dropped again
    /// when nothing changed); the selection becomes the covered notes at their
    /// new times and the piano-roll selection is re-mapped by value; the
    /// retimed notes are announced to collaborators, all deleted at their old
    /// times first, then added at their new ones. Returns how many notes were
    /// retimed.
    pub fn arrange_apply_speed_change(&mut self, retimes: &Vec<(usize, Retimes)>) -> (modified: usize)
        requires
            old(self).wf(),
            total_notes(old(self).doc_tracks()) <= usize::MAX,
        ensures
            final(self).wf(),
            old(self).arrange_selection.spec_is_empty() || !old(self).speed_any_hit() ==> modified == 0
                && *final(self) == *old(self),
            !(old(self).arrange_selection.spec_is_empty() || !old(self).speed_any_hit()) ==> {
                let n = old(self).doc_tracks().len() as int;
                &&& modified == old(self).speed_count_upto(retimes@, n)
                &&& modified == 0 ==> old(self).history.redo_dropped(final(self).history)
                    && *final(self) == (Editor { history: final(self).history, ..*old(self) })
                &&& modified > 0 ==> {
                    let touched = old(self).hit_positions(old(self).current_track as int).len() > 0;
                    &&& final(self).doc_tracks().len() == n
                    &&& forall|t: int| 0 <= t < n ==> (#[trigger] final(self).doc_tracks()[t]) == old(self).speed_track(t, retimes@)
                    &&& final(self).spec_division() == old(self).spec_division()
                    &&& old(self).history.pushed(final(self).history, old(self).document)
                    &&& final(self).arrange_selection.rects@.len() == 0
                    &&& final(self).arrange_selection.frozen@ == old(self).speed_frozen_upto(retimes@, n)
                    &&& final(self).selected_notes@ == matching_indices(
                        final(self).current_notes(),
                        old(self).selected_values(),
                        final(self).current_notes().len() as int,
                    )
                    &&& final(self).notes_changed == (old(self).notes_changed || touched)
                    &&& final(self).note_index_dirty == (old(self).note_index_dirty || touched)
                    &&& final(self).collab_outbox@ == old(self).collab_outbox@ + old(self).speed_deleted_upto(retimes@, n)
                        + old(self).speed_added_upto(retimes@, n)
                    &&& *final(self) == (Editor {
                        document: final(self).document,
                        history: final(self).history,
                        arrange_selection: final(self).arrange_selection,
                        selected_notes: final(self).selected_notes,
                        collab_outbox: final(self).collab_outbox,
                        notes_changed: final(self).notes_changed,
                        note_index_dirty: final(self).note_index_dirty,
                        ..*old(self)
                    })
                }
            },
    {
        if self.arrange_selection.is_empty() {
            return 0;
        }
        let n_tracks = self.track_count();
        let ghost pre = *self;
        let mut plans: Vec<(usize, Vec<usize>, Vec<(usize, NoteEvent)>)> = Vec::new();
        let mut frozen: Vec<FrozenEntry> = Vec::new();
        let mut count: usize = 0;
        let mut any_hit = false;
        let mut dels: Vec<CollabEvent> = Vec::new();
        let mut adds: Vec<CollabEvent> = Vec::new();
        let mut t: usize = 0;
        while t < n_tracks
            invariant
                dels@ == pre.speed_deleted_upto(retimes@, t as int),
                adds@ == pre.speed_added_upto(retimes@, t as int),
                t <= n_tracks,
                n_tracks == pre.doc_tracks().len(),
                *self == pre,
                pre.wf(),
                total_notes(pre.doc_tracks()) <= usize::MAX,
                count == pre.speed_count_upto(retimes@, t as int),
                frozen@ == pre.speed_frozen_upto(retimes@, t as int),
                any_hit == exists|u: int| 0 <= u < t && #[trigger] pre.hit_positions(u).len() > 0,
                forall|j: int| 0 <= j < plans@.len() ==> {
                    let p = #[trigger] plans@[j];
                    let g = retime_for(retimes@, p.0);
                    let k = pre.hit_positions(p.0 as int).len() as int;
                    &&& p.0 < t
                    &&& p.1@ == pre.speed_mods(p.0 as int, g, k)
                    &&& p.2@ == pre.speed_entries(p.0 as int, g, k)
                    &&& p.1@.len() > 0
                    &&& strictly_increasing_below(p.1@, pre.track_of(p.0 as int).len() as int)
                },
                forall|a: int, b: int| 0 <= a < b < plans@.len() ==> plans@[a].0 < plans@[b].0,
                forall|u: int| 0 <= u < t && pre.speed_mods(u, retime_for(retimes@, u as usize), pre.hit_positions(u).len() as int).len() > 0
                    ==> exists|j: int| 0 <= j < plans@.len() && (#[trigger] plans@[j]).0 == u,
            decreases n_tracks - t,
        {
            let notes = self.track_notes(t);
            let h = self.hit_positions_of(&notes, t);
            let g = retime_group(retimes, t);
            let (mods, entries, fz) = self.speed_track_plan(&notes, t, &h, &g);
            if h.len() > 0 {
                any_hit = true;
            }
            proof {
                pre.lemma_speed_count_bound(retimes@, t + 1);
                lemma_total_prefix_bound(pre.doc_tracks(), t + 1);
            }
            count = count + mods.len();
            let old_values = Self::notes_at_indices(&notes, &mods);
            let d = delete_announcement_list(&old_values, t);
            let a = entry_add_announcement_list(&entries);
            append_events(&mut dels, &d);
            append_events(&mut adds, &a);
            let ghost before = frozen@;
            let mut q: usize = 0;
            while q < fz.len()
                invariant
                    q <= fz@.len(),
                    frozen@ == before + fz@.take(q as int),
                decreases fz@.len() - q,
            {
                frozen.push(fz[q]);
                q = q + 1;
                assert(frozen@ =~= before + fz@.take(q as int));
            }
            assert(fz@.take(q as int) =~= fz@);
            let ghost plans_before = plans@;
            if mods.len() > 0 {
                plans.push((t, mods, entries));
            }
            proof {
                assert forall|u: int| 0 <= u < t + 1 && pre.speed_mods(u, retime_for(retimes@, u as usize), pre.hit_positions(u).len() as int).len() > 0
                    implies exists|j: int| 0 <= j < plans@.len() && (#[trigger] plans@[j]).0 == u by {
                    if u < t {
                        let j = choose|j: int| 0 <= j < plans_before.len() && (#[trigger] plans_before[j]).0 == u;
                        assert(plans@[j] == plans_before[j]);
                    } else {
                        assert(plans@[plans@.len() - 1].0 == u);
                    }
                }
                if any_hit {
                    if h@.len() > 0 {
                        assert(pre.hit_positions(t as int).len() > 0);
                    }
                }
            }
            t = t + 1;
        }
        if !any_hit {
            return 0;
        }
        let track = self.current_track;
        let before = self.track_notes(track);
        let values = Self::notes_at_indices(&before, &self.selected_notes);
        let touched = track < n_tracks && self.hit_positions_of(&before, track).len() > 0;
        self.push_history();
        if count == 0 {
            self.discard_last_history();
            assert(self.history.undo_states() =~= old(self).history.undo_states());
            assert(self.history.undo_moves() =~= old(self).history.undo_moves());
            return 0;
        }
        let mut doc = self.document.take().unwrap();
        let ghost d0 = doc@;
        let mut j: usize = 0;
        while j < plans.len()
            invariant
                j <= plans@.len(),
                doc.wf(),
                doc.div() == pre.spec_division(),
                doc@.len() == d0.len(),
                d0 == pre.doc_tracks(),
                n_tracks == d0.len(),
                forall|i: int| 0 <= i < plans@.len() ==> {
                    let p = #[trigger] plans@[i];
                    let g = retime_for(retimes@, p.0);
                    let k = pre.hit_positions(p.0 as int).len() as int;
                    &&& p.0 < n_tracks
                    &&& p.1@ == pre.speed_mods(p.0 as int, g, k)
                    &&& p.2@ == pre.speed_entries(p.0 as int, g, k)
                    &&& strictly_increasing_below(p.1@, pre.track_of(p.0 as int).len() as int)
                },
                forall|a: int, b: int| 0 <= a < b < plans@.len() ==> plans@[a].0 < plans@[b].0,
                forall|u: int| 0 <= u < d0.len() ==> (#[trigger] doc@[u]) == (if exists|i: int| 0 <= i < j && (#[trigger] plans@[i]).0 == u {
                    pre.speed_track(u, retimes@)
                } else {
                    d0[u]
                }),
            decreases plans@.len() - j,
        {
            let p = &plans[j];
            let pt = p.0;
            let ghost g = retime_for(retimes@, pt);
            let ghost k = pre.hit_positions(pt as int).len() as int;
            proof {
                assert(!exists|i: int| 0 <= i < j && (#[trigger] plans@[i]).0 == pt) by {
                    if exists|i: int| 0 <= i < j && (#[trigger] plans@[i]).0 == pt {
                        let i = choose|i: int| 0 <= i < j && (#[trigger] plans@[i]).0 == pt;
                        assert(plans@[i].0 < plans@[j as int].0);
                    }
                }
                assert(doc@[pt as int] == d0[pt as int]);
                crate::commit::lemma_keep_where_same(
                    d0[pt as int],
                    |i: int| !p.1@.contains(i as usize),
                    |i: int| !pre.speed_mods(pt as int, g, k).contains(i as usize),
                );
                pre.lemma_speed_entries(pt as int, g, k);
            }
            let ghost mid0 = doc@;
            let _ = doc.remove_notes_merged(pt, &p.1);
            let ghost mid1 = doc@;
            let _ = insert_entries_into(&mut doc, &p.2, pt);
            proof {
                assert forall|u: int| 0 <= u < d0.len() implies (#[trigger] doc@[u]) == (if exists|i: int| 0 <= i < j + 1 && (#[trigger] plans@[i]).0 == u {
                    pre.speed_track(u, retimes@)
                } else {
                    d0[u]
                }) by {
                    if u == pt {
                        assert(plans@[j as int].0 == u);
                    } else {
                        lemma_insert_entries_other(mid1[u], p.2@, u as usize, pt);
                        assert(doc@[u] == mid0[u]);
                        if exists|i: int| 0 <= i < j + 1 && (#[trigger] plans@[i]).0 == u {
                            let i = choose|i: int| 0 <= i < j + 1 && (#[trigger] plans@[i]).0 == u;
                            assert(i < j);
                        }
                    }
                }
            }
            j = j + 1;
        }
        proof {
            assert forall|u: int| 0 <= u < d0.len() implies (#[trigger] doc@[u]) == pre.speed_track(u, retimes@) by {
                if !exists|i: int| 0 <= i < plans@.len() && (#[trigger] plans@[i]).0 == u {
                    let g = retime_for(retimes@, u as usize);
                    let k = pre.hit_positions(u).len() as int;
                    pre.lemma_speed_entries(u, g, k);
                    assert(pre.speed_mods(u, g, k).len() == 0);
                    lemma_keep_where_all(d0[u], |i: int| !pre.speed_mods(u, g, k).contains(i as usize));
                }
            }
        }
        self.document = Some(doc);
        self.arrange_selection.freeze(frozen);
        let now = self.track_notes(track);
        self.selected_notes = select_matching(&now, &values);
        if touched {
            self.mark_notes_changed();
        }
        append_events(&mut self.collab_outbox, &dels);
        append_events(&mut self.collab_outbox, &adds);
        count
    }
}

/// The note total of a prefix of the tracks is at most the whole total.
proof fn lemma_total_prefix_bound(d: Seq<Seq<NoteEvent>>, k: int)
    requires
        0 <= k <= d.len(),
    ensures
        total_notes(d.take(k)) <= total_notes(d),
    decreases d.len() - k,
{
    if k < d.len() {
        lemma_total_prefix_bound(d, k + 1);
        assert(d.take(k + 1).drop_last() =~= d.take(k));
    } else {
        assert(d.take(k) =~= d);
    }
}

} // verus!
