//! Arrangement editing: delete, move and razor-split of notes, addressed by
//! visual track through the arrangement selection.

use crate::arrange_query::hit_pred;
use crate::document::{insert_sorted, keep_where, strictly_increasing_below, total_notes, MidiDocument};
use crate::commit::{
    append_events, delete_announcement_list, delete_announcements, entry_add_announcement_list, entry_add_announcements,
};
use crate::editor::Editor;
use crate::history::state_of;
use crate::note::NoteEvent;
use crate::selection::{shift_tick, ArrangeSelection};
use vstd::prelude::*;

verus! {

/// Whether the selection misses note `n` shown on visual row `visual`.
pub open spec fn miss_pred(sel: ArrangeSelection, visual: u16) -> spec_fn(NoteEvent) -> bool {
    |n: NoteEvent| !sel.spec_contains(visual, n.start_tick, n.key)
}

/// `idx` lists, in increasing order, exactly the positions of `s` whose note the
/// selection covers on visual row `visual`.
pub open spec fn is_hit_index_list(idx: Seq<usize>, s: Seq<NoteEvent>, sel: ArrangeSelection, visual: u16) -> bool {
    &&& strictly_increasing_below(idx, s.len() as int)
    &&& forall|i: int| 0 <= i < s.len() ==> (idx.contains(i as usize) <==> sel.spec_contains(
        visual,
        (#[trigger] s[i]).start_tick,
        s[i].key,
    ))
}

/// Removing the positions of the hit notes is filtering out the hit notes.
pub proof fn lemma_keep_where_is_filter(s: Seq<NoteEvent>, idx: Seq<usize>, sel: ArrangeSelection, visual: u16)
    requires
        forall|i: int| 0 <= i < s.len() ==> (idx.contains(i as usize) <==> sel.spec_contains(
            visual,
            (#[trigger] s[i]).start_tick,
            s[i].key,
        )),
    ensures
        keep_where(s, |i: int| !idx.contains(i as usize)) == s.filter(miss_pred(sel, visual)),
    decreases s.len(),
{
    let keep = |i: int| !idx.contains(i as usize);
    if s.len() == 0 {
        reveal(Seq::filter);
    } else {
        let d = s.drop_last();
        assert forall|i: int| 0 <= i < d.len() implies (idx.contains(i as usize) <==> sel.spec_contains(
            visual,
            (#[trigger] d[i]).start_tick,
            d[i].key,
        )) by {
            assert(d[i] == s[i]);
        }
        lemma_keep_where_is_filter(d, idx, sel, visual);
        assert(s =~= d.push(s.last()));
        d.lemma_filter_push(s.last(), miss_pred(sel, visual));
        assert(s[s.len() - 1] == s.last());
    }
}

/// A track without hit notes is unchanged by filtering out the hit notes.
pub proof fn lemma_filter_no_hit(s: Seq<NoteEvent>, sel: ArrangeSelection, visual: u16)
    requires
        forall|i: int| 0 <= i < s.len() ==> !sel.spec_contains(visual, (#[trigger] s[i]).start_tick, s[i].key),
    ensures
        s.filter(miss_pred(sel, visual)) == s,
    decreases s.len(),
{
    if s.len() == 0 {
        reveal(Seq::filter);
    } else {
        let d = s.drop_last();
        assert forall|i: int| 0 <= i < d.len() implies !sel.spec_contains(visual, (#[trigger] d[i]).start_tick, d[i].key) by {
            assert(d[i] == s[i]);
        }
        lemma_filter_no_hit(d, sel, visual);
        assert(s =~= d.push(s.last()));
        d.lemma_filter_push(s.last(), miss_pred(sel, visual));
        assert(s[s.len() - 1] == s.last());
    }
}

/// Replacing one track changes the note total by the difference of lengths.
pub proof fn lemma_total_update(t: Seq<Seq<NoteEvent>>, k: int, x: Seq<NoteEvent>)
    requires
        0 <= k < t.len(),
    ensures
        total_notes(t.update(k, x)) == total_notes(t) - t[k].len() + x.len(),
    decreases t.len(),
{
    let u = t.update(k, x);
    if k == t.len() - 1 {
        assert(u.drop_last() =~= t.drop_last());
    } else {
        assert(u.drop_last() =~= t.drop_last().update(k, x));
        lemma_total_update(t.drop_last(), k, x);
    }
}

impl Editor {
    /// Notes of document track `t` that the arrangement selection misses (the
    /// track as it is after deleting the selection).
    pub open spec fn track_without_hits(&self, t: int) -> Seq<NoteEvent> {
        self.track_of(t).filter(miss_pred(self.arrange_selection, self.visual(t as usize) as u16))
    }

    /// Whether the selection covers some note of document track `t`.
    pub open spec fn track_is_hit(&self, t: int) -> bool {
        exists|i: int| 0 <= i < self.track_of(t).len() && self.arrange_selection.spec_contains(
            self.visual(t as usize) as u16,
            (#[trigger] self.track_of(t)[i]).start_tick,
            self.track_of(t)[i].key,
        )
    }

    /// Positions of the notes of `notes` covered by the selection on visual row `visual`.
    fn hit_indices(sel: &ArrangeSelection, notes: &Vec<NoteEvent>, visual: u16) -> (idx: Vec<usize>)
        ensures
            is_hit_index_list(idx@, notes@, *sel, visual),
    {
        let mut idx: Vec<usize> = Vec::new();
        let mut i: usize = 0;
        while i < notes.len()
            invariant
                i <= notes@.len(),
                strictly_increasing_below(idx@, i as int),
                forall|j: int| 0 <= j < i ==> (idx@.contains(j as usize) <==> sel.spec_contains(
                    visual,
                    (#[trigger] notes@[j]).start_tick,
                    notes@[j].key,
                )),
            decreases notes@.len() - i,
        {
            let n = notes[i];
            if sel.contains(visual, n.start_tick, n.key) {
                let ghost before = idx@;
                idx.push(i);
                proof {
                    assert forall|j: int| 0 <= j <= i implies (idx@.contains(j as usize) <==> sel.spec_contains(
                        visual,
                        (#[trigger] notes@[j]).start_tick,
                        notes@[j].key,
                    )) by {
                        if j < i {
                            if idx@.contains(j as usize) {
                                let q = choose|q: int| 0 <= q < idx@.len() && idx@[q] == j as usize;
                                if q < before.len() {
                                    assert(before[q] == j as usize);
                                    assert(before.contains(j as usize));
                                }
                            }
                            if before.contains(j as usize) {
                                let q = choose|q: int| 0 <= q < before.len() && before[q] == j as usize;
                                assert(idx@[q] == j as usize);
                            }
                        } else {
                            assert(idx@[before.len() as int] == i);
                        }
                    }
                }
            } else {
                proof {
                    assert(!idx@.contains(i)) by {
                        if idx@.contains(i) {
                            let q = choose|q: int| 0 <= q < idx@.len() && idx@[q] == i;
                        }
                    }
                }
            }
            i = i + 1;
        }
        idx
    }

    /// For each document track hit by the selection (ascending), the positions of
    /// its hit notes.
    fn collect_delete_targets(&self) -> (targets: Vec<(usize, Vec<usize>)>)
        ensures
            forall|k: int| 0 <= k < targets@.len() ==> {
                let e = #[trigger] targets@[k];
                &&& e.0 < self.doc_tracks().len()
                &&& is_hit_index_list(e.1@, self.track_of(e.0 as int), self.arrange_selection, self.visual(e.0) as u16)
                &&& e.1@.len() > 0
            },
            forall|a: int, b: int| 0 <= a < b < targets@.len() ==> targets@[a].0 < targets@[b].0,
            forall|t: int| 0 <= t < self.doc_tracks().len() ==> ((exists|k: int|
                0 <= k < targets@.len() && (#[trigger] targets@[k]).0 == t) <==> self.track_is_hit(t)),
    {
        let mut targets: Vec<(usize, Vec<usize>)> = Vec::new();
        let doc = match &self.document {
            None => return targets,
            Some(d) => d,
        };
        let tracks = doc.tracks();
        let count = doc.track_count();
        let mut t: usize = 0;
        while t < count
            invariant
                t <= count,
                count == self.doc_tracks().len(),
                self.document == Some(*doc),
                tracks@.len() == doc@.len(),
                forall|k: int| 0 <= k < doc@.len() ==> (#[trigger] tracks@[k])@ == doc@[k],
                forall|k: int| 0 <= k < targets@.len() ==> {
                    let e = #[trigger] targets@[k];
                    &&& e.0 < t
                    &&& is_hit_index_list(e.1@, self.track_of(e.0 as int), self.arrange_selection, self.visual(e.0) as u16)
                    &&& e.1@.len() > 0
                },
                forall|a: int, b: int| 0 <= a < b < targets@.len() ==> targets@[a].0 < targets@[b].0,
                forall|u: int| 0 <= u < t ==> ((exists|k: int|
                    0 <= k < targets@.len() && (#[trigger] targets@[k]).0 == u) <==> self.track_is_hit(u)),
            decreases count - t,
        {
            let visual = self.visual_pos(t);
            let idx = Self::hit_indices(&self.arrange_selection, &tracks[t], visual as u16);
            assert(tracks@[t as int]@ == self.track_of(t as int));
            let ghost before = targets@;
            if idx.len() > 0 {
                proof {
                    let j = idx@[0] as int;
                    assert(idx@.contains(idx@[0]));
                    assert(self.arrange_selection.spec_contains(visual as u16, self.track_of(t as int)[j].start_tick, self.track_of(t as int)[j].key));
                }
                targets.push((t, idx));
            } else {
                proof {
                    assert forall|i: int| 0 <= i < self.track_of(t as int).len() implies !self.arrange_selection.spec_contains(
                        visual as u16,
                        (#[trigger] self.track_of(t as int)[i]).start_tick,
                        self.track_of(t as int)[i].key,
                    ) by {
                        assert(!idx@.contains(i as usize));
                    }
                }
            }
            proof {
                assert forall|u: int| 0 <= u <= t implies ((exists|k: int|
                    0 <= k < targets@.len() && (#[trigger] targets@[k]).0 == u) <==> self.track_is_hit(u)) by {
                    if u < t {
                        if exists|k: int| 0 <= k < targets@.len() && (#[trigger] targets@[k]).0 == u {
                            let k = choose|k: int| 0 <= k < targets@.len() && (#[trigger] targets@[k]).0 == u;
                            assert(k < before.len());
                            assert(before[k].0 == u);
                        }
                        if exists|k: int| 0 <= k < before.len() && (#[trigger] before[k]).0 == u {
                            let k = choose|k: int| 0 <= k < before.len() && (#[trigger] before[k]).0 == u;
                            assert(targets@[k].0 == u);
                        }
                    } else {
                        if exists|k: int| 0 <= k < targets@.len() && (#[trigger] targets@[k]).0 == u {
                            let k = choose|k: int| 0 <= k < targets@.len() && (#[trigger] targets@[k]).0 == u;
                            if k < before.len() {
                                assert(before[k].0 < t);
                            }
                        }
                        if idx@.len() > 0 {
                            assert(targets@[before.len() as int].0 == u);
                        }
                    }
                }
            }
            t = t + 1;
        }
        targets
    }

    /// What deleting the notes covered by the arrangement selection does:
    /// `post` is the editor after it, `deleted` its result.
    pub open spec fn delete_result(&self, post: Editor, deleted: usize) -> bool {
        &&& post.doc_tracks().len() == self.doc_tracks().len()
        &&& forall|t: int| 0 <= t < self.doc_tracks().len() ==> (#[trigger] post.doc_tracks()[t]) == self.track_without_hits(t)
        &&& post.spec_division() == self.spec_division()
        &&& deleted == total_notes(self.doc_tracks()) - total_notes(post.doc_tracks())
        &&& deleted == 0 ==> post == *self
        &&& deleted > 0 ==> self.history.pushed(post.history, self.document)
            && post.notes_changed == (self.notes_changed || self.track_is_hit(self.current_track as int))
            && post == (Editor {
                document: post.document,
                history: post.history,
                notes_changed: post.notes_changed,
                note_index_dirty: post.note_index_dirty,
                ..*self
            })
    }

    /// Deletes every note covered by the arrangement selection; returns how many
    /// were deleted. An undo point is recorded only when something was deleted.
    pub fn arrange_delete_selected_notes(&mut self) -> (deleted: usize)
        requires
            old(self).wf(),
            total_notes(old(self).doc_tracks()) <= usize::MAX,
        ensures
            final(self).wf(),
            old(self).delete_result(*final(self), deleted),
    {
        let targets = self.collect_delete_targets();
        proof {
            old(self).lemma_targets_filter(targets@);
        }
        if targets.len() == 0 {
            return 0;
        }
        self.push_history();
        assert(targets@[0].0 < old(self).doc_tracks().len());
        let mut doc = self.document.take().unwrap();
        let (deleted, touched) = remove_targets(&mut doc, &targets, self.current_track);
        proof {
            assert forall|t: int| 0 <= t < doc@.len() implies (#[trigger] doc@[t]) == old(self).track_without_hits(t) by {
                if listed(targets@, t) {
                    let j = choose|j: int| 0 <= j < targets@.len() && (#[trigger] targets@[j]).0 == t;
                    assert(doc@[targets@[j].0 as int] == old(self).track_without_hits(targets@[j].0 as int));
                }
            }
        }
        self.document = Some(doc);
        if touched {
            self.mark_notes_changed();
        }
        deleted
    }

    /// Removing the listed hit positions is filtering out the hit notes, track by
    /// track; unlisted tracks have no hit.
    proof fn lemma_targets_filter(&self, targets: Seq<(usize, Vec<usize>)>)
        requires
            forall|k: int| 0 <= k < targets.len() ==> {
                let e = #[trigger] targets[k];
                &&& e.0 < self.doc_tracks().len()
                &&& is_hit_index_list(e.1@, self.track_of(e.0 as int), self.arrange_selection, self.visual(e.0) as u16)
                &&& e.1@.len() > 0
            },
            forall|t: int| 0 <= t < self.doc_tracks().len() ==> ((exists|k: int|
                0 <= k < targets.len() && (#[trigger] targets[k]).0 == t) <==> self.track_is_hit(t)),
        ensures
            forall|t: int| 0 <= t < self.doc_tracks().len() && !listed(targets, t)
                ==> self.track_without_hits(t) == self.track_of(t),
            forall|k: int| 0 <= k < targets.len() ==> keep_where(
                self.track_of((#[trigger] targets[k]).0 as int),
                |i: int| !targets[k].1@.contains(i as usize),
            ) == self.track_without_hits(targets[k].0 as int),
            listed(targets, self.current_track as int) == self.track_is_hit(self.current_track as int),
    {
        assert forall|t: int| 0 <= t < self.doc_tracks().len() && !listed(targets, t)
            implies self.track_without_hits(t) == self.track_of(t) by {
            assert(!self.track_is_hit(t));
            lemma_filter_no_hit(self.track_of(t), self.arrange_selection, self.visual(t as usize) as u16);
        }
        assert forall|k: int| 0 <= k < targets.len() implies keep_where(
            self.track_of((#[trigger] targets[k]).0 as int),
            |i: int| !targets[k].1@.contains(i as usize),
        ) == self.track_without_hits(targets[k].0 as int) by {
            let e = targets[k];
            lemma_keep_where_is_filter(self.track_of(e.0 as int), e.1@, self.arrange_selection, self.visual(e.0) as u16);
        }
        if self.current_track >= self.doc_tracks().len() {
            if listed(targets, self.current_track as int) {
                let j = choose|j: int| 0 <= j < targets.len() && (#[trigger] targets[j]).0 == self.current_track;
                assert(targets[j].0 < self.doc_tracks().len());
            }
        }
    }
}

/// Whether track `t` is listed in `targets`.
pub open spec fn listed(targets: Seq<(usize, Vec<usize>)>, t: int) -> bool {
    exists|j: int| 0 <= j < targets.len() && (#[trigger] targets[j]).0 == t
}

/// Removes from each listed track the listed positions. Returns the number of
/// removed notes and whether track `current` was listed.
fn remove_targets(doc: &mut MidiDocument, targets: &Vec<(usize, Vec<usize>)>, current: usize) -> (res: (usize, bool))
    requires
        old(doc).wf(),
        total_notes(old(doc)@) <= usize::MAX,
        forall|j: int| 0 <= j < targets@.len() ==> {
            let e = #[trigger] targets@[j];
            &&& e.0 < old(doc)@.len()
            &&& strictly_increasing_below(e.1@, old(doc)@[e.0 as int].len() as int)
            &&& e.1@.len() > 0
        },
        forall|a: int, b: int| 0 <= a < b < targets@.len() ==> targets@[a].0 < targets@[b].0,
    ensures
        final(doc).wf(),
        final(doc).div() == old(doc).div(),
        final(doc)@.len() == old(doc)@.len(),
        forall|j: int| 0 <= j < targets@.len() ==> final(doc)@[(#[trigger] targets@[j]).0 as int] == keep_where(
            old(doc)@[targets@[j].0 as int],
            |i: int| !targets@[j].1@.contains(i as usize),
        ),
        forall|t: int| 0 <= t < old(doc)@.len() && !listed(targets@, t) ==> (#[trigger] final(doc)@[t]) == old(doc)@[t],
        res.0 == total_notes(old(doc)@) - total_notes(final(doc)@),
        res.0 >= targets@.len(),
        res.1 == listed(targets@, current as int),
{
    let mut touched = false;
    let mut removed_total: usize = 0;
    let mut k: usize = 0;
    while k < targets.len()
        invariant
            0 <= k <= targets@.len(),
            doc.wf(),
            doc.div() == old(doc).div(),
            doc@.len() == old(doc)@.len(),
            forall|j: int| 0 <= j < targets@.len() ==> {
                let e = #[trigger] targets@[j];
                &&& e.0 < old(doc)@.len()
                &&& strictly_increasing_below(e.1@, old(doc)@[e.0 as int].len() as int)
                &&& e.1@.len() > 0
            },
            forall|a: int, b: int| 0 <= a < b < targets@.len() ==> targets@[a].0 < targets@[b].0,
            forall|j: int| 0 <= j < k ==> doc@[(#[trigger] targets@[j]).0 as int] == keep_where(
                old(doc)@[targets@[j].0 as int],
                |i: int| !targets@[j].1@.contains(i as usize),
            ),
            forall|t: int| 0 <= t < doc@.len() && !(exists|j: int| 0 <= j < k && targets@[j].0 == t) ==> (#[trigger] doc@[t]) == old(doc)@[t],
            removed_total == total_notes(old(doc)@) - total_notes(doc@),
            removed_total >= k,
            total_notes(old(doc)@) <= usize::MAX,
            touched == exists|j: int| 0 <= j < k && targets@[j].0 == current,
        decreases targets@.len() - k,
    {
        let t = targets[k].0;
        let ghost before = doc@;
        proof {
            assert forall|j: int| 0 <= j < k implies targets@[j].0 != t by {
                assert(targets@[j].0 < targets@[k as int].0);
            }
            assert(doc@[t as int] == old(doc)@[t as int]);
        }
        let removed = doc.remove_notes_merged(t, &targets[k].1);
        proof {
            lemma_total_update(before, t as int, doc@[t as int]);
            lemma_total_bound(doc@);
        }
        if t == current {
            touched = true;
        }
        removed_total = removed_total + removed;
        proof {
            assert forall|j: int| 0 <= j < k + 1 implies doc@[(#[trigger] targets@[j]).0 as int] == keep_where(
                old(doc)@[targets@[j].0 as int],
                |i: int| !targets@[j].1@.contains(i as usize),
            ) by {
                if j < k {
                    assert(targets@[j].0 < targets@[k as int].0);
                }
            }
            assert forall|u: int| 0 <= u < doc@.len() && !(exists|j: int| 0 <= j < k + 1 && targets@[j].0 == u)
                implies (#[trigger] doc@[u]) == old(doc)@[u] by {
                assert(targets@[k as int].0 != u);
            }
        }
        k = k + 1;
    }
    proof {
        if listed(targets@, current as int) {
            let j = choose|j: int| 0 <= j < targets@.len() && (#[trigger] targets@[j]).0 == current;
            assert(targets@[j].0 == current);
        }
    }
    (removed_total, touched)
}

/// The note total is never negative.
pub proof fn lemma_total_bound(t: Seq<Seq<NoteEvent>>)
    ensures
        total_notes(t) >= 0,
    decreases t.len(),
{
    if t.len() > 0 {
        lemma_total_bound(t.drop_last());
    }
}

/// Note `n` moved by `dt` ticks: start clamped to the tick range, length kept
/// (end clamped to the tick range), key, velocity and channel unchanged.
pub open spec fn moved_note(n: NoteEvent, dt: i64) -> NoteEvent {
    let start = shift_tick(n.start_tick, dt);
    let len: int = if n.end_tick >= n.start_tick { n.end_tick - n.start_tick } else { 0 };
    let end = if start + len > u32::MAX { u32::MAX } else { (start + len) as u32 };
    NoteEvent { start_tick: start, end_tick: end, key: n.key, velocity: n.velocity, channel: n.channel }
}

/// Visual row `visual` moved by `dtr` rows, clamped at row 0.
pub open spec fn dest_visual(visual: usize, dtr: i32) -> usize {
    let v = visual + dtr;
    if v < 0 {
        0
    } else if v > usize::MAX {
        usize::MAX
    } else {
        v as usize
    }
}

/// `s` after inserting, in order, the notes of the entries addressed to track `t`.
pub open spec fn insert_entries(s: Seq<NoteEvent>, e: Seq<(usize, NoteEvent)>, t: usize) -> Seq<NoteEvent>
    decreases e.len(),
{
    if e.len() == 0 {
        s
    } else {
        let p = insert_entries(s, e.drop_last(), t);
        if e.last().0 == t {
            insert_sorted(p, e.last().1)
        } else {
            p
        }
    }
}

/// Inserts, in order, each entry's note into the entry's track (entries for
/// missing tracks are dropped). Returns whether some entry addresses `current`.
pub(crate) fn insert_entries_into(doc: &mut MidiDocument, dests: &Vec<(usize, NoteEvent)>, current: usize) -> (addressed: bool)
    requires
        old(doc).wf(),
    ensures
        final(doc).wf(),
        final(doc).div() == old(doc).div(),
        final(doc)@.len() == old(doc)@.len(),
        forall|t: int| 0 <= t < old(doc)@.len() ==> (#[trigger] final(doc)@[t]) == insert_entries(old(doc)@[t], dests@, t as usize),
        addressed == exists|j: int| 0 <= j < dests@.len() && (#[trigger] dests@[j]).0 == current,
{
    let ghost base = doc@;
    let mut addressed = false;
    let mut k: usize = 0;
    while k < dests.len()
        invariant
            k <= dests@.len(),
            doc.wf(),
            doc.div() == old(doc).div(),
            base == old(doc)@,
            doc@.len() == base.len(),
            forall|t: int| 0 <= t < doc@.len() ==> (#[trigger] doc@[t]) == insert_entries(base[t], dests@.take(k as int), t as usize),
            addressed == exists|j: int| 0 <= j < k && dests@[j].0 == current,
        decreases dests@.len() - k,
    {
        let d = dests[k].0;
        let n = dests[k].1;
        let ghost before = doc@;
        let ins = doc.insert_note(d, n);
        if d == current {
            addressed = true;
        }
        proof {
            assert(dests@.take(k + 1).drop_last() =~= dests@.take(k as int));
            assert(dests@.take(k + 1).last() == dests@[k as int]);
            assert forall|t: int| 0 <= t < doc@.len() implies (#[trigger] doc@[t]) == insert_entries(base[t], dests@.take(k + 1), t as usize) by {
                assert(before[t] == insert_entries(base[t], dests@.take(k as int), t as usize));
                assert(insert_entries(base[t], dests@.take(k + 1), t as usize) == if d == t as usize {
                    insert_sorted(insert_entries(base[t], dests@.take(k as int), t as usize), n)
                } else {
                    insert_entries(base[t], dests@.take(k as int), t as usize)
                });
                if t == d as int {
                    assert(ins);
                    assert(doc@[t] == insert_sorted(before[t], n));
                } else {
                    assert(doc@[t] == before[t]);
                }
            }
        }
        k = k + 1;
    }
    proof {
        assert(dests@.take(dests@.len() as int) =~= dests@);
        if exists|j: int| 0 <= j < dests@.len() && (#[trigger] dests@[j]).0 == current {
            let j = choose|j: int| 0 <= j < dests@.len() && (#[trigger] dests@[j]).0 == current;
            assert(dests@[j].0 == current);
        }
    }
    addressed
}

/// Note `n` moved by `dt` ticks.
fn move_note(n: NoteEvent, dt: i64) -> (m: NoteEvent)
    ensures
        m == moved_note(n, dt),
{
    let s: i128 = n.start_tick as i128 + dt as i128;
    let start: u32 = if s < 0 {
        0
    } else if s > u32::MAX as i128 {
        u32::MAX
    } else {
        s as u32
    };
    let len: u32 = if n.end_tick >= n.start_tick { n.end_tick - n.start_tick } else { 0 };
    let end: u32 = if start as u64 + len as u64 > u32::MAX as u64 { u32::MAX } else { start + len };
    NoteEvent { start_tick: start, end_tick: end, key: n.key, velocity: n.velocity, channel: n.channel }
}

/// Visual row `visual` moved by `dtr` rows, clamped at row 0.
fn move_visual(visual: usize, dtr: i32) -> (v: usize)
    ensures
        v == dest_visual(visual, dtr),
{
    let x: i128 = visual as i128 + dtr as i128;
    if x < 0 {
        0
    } else if x > usize::MAX as i128 {
        usize::MAX
    } else {
        x as usize
    }
}

impl Editor {
    /// Notes of document track `t` covered by the selection.
    pub open spec fn track_hit_notes(&self, t: int) -> Seq<NoteEvent> {
        self.track_of(t).filter(hit_pred(self.arrange_selection, self.visual(t as usize) as u16))
    }

    /// Document track receiving the notes of track `t` moved by `dtr` visual rows.
    pub open spec fn move_dest(&self, t: usize, dtr: i32) -> usize {
        self.doc_track(dest_visual(self.visual(t), dtr))
    }

    /// Moved notes of the first `k` tracks with their destination tracks.
    pub open spec fn move_entries_upto(&self, k: int, dt: i64, dtr: i32) -> Seq<(usize, NoteEvent)>
        decreases k,
    {
        if k <= 0 {
            Seq::empty()
        } else {
            let d = self.move_dest((k - 1) as usize, dtr);
            self.move_entries_upto(k - 1, dt, dtr) + self.track_hit_notes(k - 1).map_values(
                |n: NoteEvent| (d, moved_note(n, dt)),
            )
        }
    }

    /// Moved notes of the whole document with their destination tracks, by
    /// source track then position.
    pub open spec fn move_entries(&self, dt: i64, dtr: i32) -> Seq<(usize, NoteEvent)> {
        self.move_entries_upto(self.doc_tracks().len() as int, dt, dtr)
    }

    /// Tracks of the document once the selected notes are removed.
    pub open spec fn tracks_without_hits(&self) -> Seq<Seq<NoteEvent>> {
        Seq::new(self.doc_tracks().len(), |t: int| self.track_without_hits(t))
    }

    /// Whether some hit note exists in the document.
    pub open spec fn any_hit(&self) -> bool {
        exists|t: int| 0 <= t < self.doc_tracks().len() && self.track_is_hit(t)
    }

    /// The moved selected notes and their destination tracks.
    fn collect_move_dests(&self, delta_ticks: i64, delta_tracks: i32) -> (e: Vec<(usize, NoteEvent)>)
        ensures
            e@ == self.move_entries(delta_ticks, delta_tracks),
    {
        let mut entries: Vec<(usize, NoteEvent)> = Vec::new();
        let doc = match &self.document {
            None => return entries,
            Some(d) => d,
        };
        let tracks = doc.tracks();
        let count = doc.track_count();
        let mut t: usize = 0;
        while t < count
            invariant
                t <= count,
                count == self.doc_tracks().len(),
                self.document == Some(*doc),
                tracks@.len() == doc@.len(),
                forall|k: int| 0 <= k < doc@.len() ==> (#[trigger] tracks@[k])@ == doc@[k],
                entries@ == self.move_entries_upto(t as int, delta_ticks, delta_tracks),
            decreases count - t,
        {
            let visual = self.visual_pos(t);
            let dest = self.document_track_at(move_visual(visual, delta_tracks));
            let notes = &tracks[t];
            assert(notes@ == self.track_of(t as int));
            let ghost pred = hit_pred(self.arrange_selection, visual as u16);
            let ghost f = |n: NoteEvent| (dest, moved_note(n, delta_ticks));
            let ghost e0 = entries@;
            let ghost selected = Seq::<NoteEvent>::empty();
            let mut i: usize = 0;
            while i < notes.len()
                invariant
                    i <= notes@.len(),
                    pred == hit_pred(self.arrange_selection, visual as u16),
                    f == (|n: NoteEvent| (dest, moved_note(n, delta_ticks))),
                    selected == notes@.take(i as int).filter(pred),
                    entries@ == e0 + selected.map_values(f),
                decreases notes@.len() - i,
            {
                let n = notes[i];
                proof {
                    assert(notes@.take(i + 1) =~= notes@.take(i as int).push(n));
                    notes@.take(i as int).lemma_filter_push(n, pred);
                }
                if self.arrange_selection.contains(visual as u16, n.start_tick, n.key) {
                    entries.push((dest, move_note(n, delta_ticks)));
                    proof {
                        assert(selected.push(n).map_values(f) =~= selected.map_values(f).push(f(n)));
                        selected = selected.push(n);
                    }
                }
                i = i + 1;
            }
            assert(notes@.take(notes@.len() as int) =~= notes@);
            t = t + 1;
        }
        entries
    }

    /// Removes the selected notes from their tracks, then inserts the moved
    /// notes into their destination tracks. Returns the number of removed notes
    /// and whether the current track was touched (as source or destination).
    fn apply_move_internal(
        &mut self,
        sources: &Vec<(usize, Vec<usize>)>,
        dests: &Vec<(usize, NoteEvent)>,
        Ghost(after): Ghost<Seq<Seq<NoteEvent>>>,
    ) -> (res: (usize, bool))
        requires
            old(self).wf(),
            old(self).document is Some,
            total_notes(old(self).doc_tracks()) <= usize::MAX,
            forall|j: int| 0 <= j < sources@.len() ==> {
                let e = #[trigger] sources@[j];
                &&& e.0 < old(self).doc_tracks().len()
                &&& strictly_increasing_below(e.1@, old(self).doc_tracks()[e.0 as int].len() as int)
                &&& e.1@.len() > 0
                &&& after[e.0 as int] == keep_where(old(self).doc_tracks()[e.0 as int], |i: int| !e.1@.contains(i as usize))
            },
            forall|a: int, b: int| 0 <= a < b < sources@.len() ==> sources@[a].0 < sources@[b].0,
            after.len() == old(self).doc_tracks().len(),
            forall|t: int| 0 <= t < after.len() && !listed(sources@, t) ==> after[t] == old(self).doc_tracks()[t],
        ensures
            final(self).wf(),
            final(self).document is Some,
            final(self).spec_division() == old(self).spec_division(),
            final(self).doc_tracks().len() == old(self).doc_tracks().len(),
            forall|t: int| 0 <= t < old(self).doc_tracks().len() ==> (#[trigger] final(self).doc_tracks()[t])
                == insert_entries(after[t], dests@, t as usize),
            res.0 == total_notes(old(self).doc_tracks()) - total_notes(after),
            res.0 >= sources@.len(),
            res.1 == (listed(sources@, old(self).current_track as int) || exists|j: int|
                0 <= j < dests@.len() && (#[trigger] dests@[j]).0 == old(self).current_track),
            *final(self) == (Editor { document: final(self).document, ..*old(self) }),
    {
        let current = self.current_track;
        let mut doc = self.document.take().unwrap();
        let (removed, touched) = remove_targets(&mut doc, sources, current);
        let ghost base = doc@;
        proof {
            assert forall|t: int| 0 <= t < after.len() implies base[t] == after[t] by {
                if listed(sources@, t) {
                    let j = choose|j: int| 0 <= j < sources@.len() && (#[trigger] sources@[j]).0 == t;
                    assert(base[sources@[j].0 as int] == after[sources@[j].0 as int]);
                }
            }
            assert(base =~= after);
        }
        let addressed = insert_entries_into(&mut doc, dests, current);
        let touched = touched || addressed;
        self.document = Some(doc);
        (removed, touched)
    }

    /// Moves the notes covered by the arrangement selection by `delta_ticks` and
    /// `delta_tracks` visual rows; returns how many notes were moved. One undo
    /// point is recorded before the notes move; when nothing moves, the history
    /// is left as it was.
    pub fn arrange_move_notes(&mut self, delta_ticks: i64, delta_tracks: i32) -> (moved: usize)
        requires
            old(self).wf(),
            total_notes(old(self).doc_tracks()) <= usize::MAX,
        ensures
            final(self).wf(),
            old(self).arrange_selection.spec_is_empty() || (delta_ticks == 0 && delta_tracks == 0) || !old(self).any_hit()
                ==> moved == 0 && *final(self) == *old(self),
            !(old(self).arrange_selection.spec_is_empty() || (delta_ticks == 0 && delta_tracks == 0) || !old(self).any_hit()) ==> {
                &&& moved > 0
                &&& moved == total_notes(old(self).doc_tracks()) - total_notes(old(self).tracks_without_hits())
                &&& final(self).spec_division() == old(self).spec_division()
                &&& old(self).history.pushed(final(self).history, old(self).document)
                &&& final(self).doc_tracks().len() == old(self).doc_tracks().len()
                &&& forall|t: int| 0 <= t < old(self).doc_tracks().len() ==> (#[trigger] final(self).doc_tracks()[t]) == insert_entries(
                    old(self).track_without_hits(t),
                    old(self).move_entries(delta_ticks, delta_tracks),
                    t as usize,
                )
                &&& final(self).notes_changed == (old(self).notes_changed || old(self).track_is_hit(old(self).current_track as int)
                    || exists|j: int| 0 <= j < old(self).move_entries(delta_ticks, delta_tracks).len()
                        && (#[trigger] old(self).move_entries(delta_ticks, delta_tracks)[j]).0 == old(self).current_track)
                &&& *final(self) == (Editor {
                    document: final(self).document,
                    history: final(self).history,
                    notes_changed: final(self).notes_changed,
                    note_index_dirty: final(self).note_index_dirty,
                    ..*old(self)
                })
            },
    {
        if self.arrange_selection.is_empty() || (delta_ticks == 0 && delta_tracks == 0) {
            return 0;
        }
        let sources = self.collect_delete_targets();
        let dests = self.collect_move_dests(delta_ticks, delta_tracks);
        proof {
            old(self).lemma_targets_filter(sources@);
            if old(self).any_hit() {
                let t = choose|t: int| 0 <= t < old(self).doc_tracks().len() && old(self).track_is_hit(t);
                assert(listed(sources@, t));
            } else {
                if sources@.len() > 0 {
                    assert(old(self).track_is_hit(sources@[0].0 as int));
                }
            }
        }
        if sources.len() == 0 {
            return 0;
        }
        self.push_history();
        let ghost after = old(self).tracks_without_hits();
        let (moved_count, touched) = self.apply_move_internal(&sources, &dests, Ghost(after));
        if touched {
            self.mark_notes_changed();
        }
        moved_count
    }
}

/// Whether `tick` falls strictly inside note `n`.
pub open spec fn straddles(n: NoteEvent, tick: u32) -> bool {
    n.start_tick < tick && tick < n.end_tick
}

/// Part of `n` before `tick`.
pub open spec fn razor_left(n: NoteEvent, tick: u32) -> NoteEvent {
    NoteEvent { end_tick: tick, ..n }
}

/// Part of `n` from `tick` on.
pub open spec fn razor_right(n: NoteEvent, tick: u32) -> NoteEvent {
    NoteEvent { start_tick: tick, ..n }
}

/// Pieces inserted into track `t` when the notes `l` are cut at `tick`: for
/// each note, last first, its right part then its left part.
pub open spec fn razor_entries(l: Seq<NoteEvent>, tick: u32, t: usize) -> Seq<(usize, NoteEvent)>
    decreases l.len(),
{
    if l.len() == 0 {
        Seq::empty()
    } else {
        seq![(t, razor_right(l.last(), tick)), (t, razor_left(l.last(), tick))] + razor_entries(l.drop_last(), tick, t)
    }
}

/// Removing the positions at which `p` holds is filtering by `!p`.
pub proof fn lemma_keep_where_filter(s: Seq<NoteEvent>, idx: Seq<usize>, p: spec_fn(NoteEvent) -> bool)
    requires
        forall|i: int| 0 <= i < s.len() ==> (idx.contains(i as usize) <==> p(#[trigger] s[i])),
    ensures
        keep_where(s, |i: int| !idx.contains(i as usize)) == s.filter(|n: NoteEvent| !p(n)),
    decreases s.len(),
{
    if s.len() == 0 {
        reveal(Seq::filter);
    } else {
        let d = s.drop_last();
        assert forall|i: int| 0 <= i < d.len() implies (idx.contains(i as usize) <==> p(#[trigger] d[i])) by {
            assert(d[i] == s[i]);
        }
        lemma_keep_where_filter(d, idx, p);
        assert(s =~= d.push(s.last()));
        d.lemma_filter_push(s.last(), |n: NoteEvent| !p(n));
        assert(s[s.len() - 1] == s.last());
    }
}

/// Positions and values of the notes of `notes` that `tick` cuts.
fn straddle_positions(notes: &Vec<NoteEvent>, tick: u32) -> (res: (Vec<usize>, Vec<NoteEvent>))
    ensures
        strictly_increasing_below(res.0@, notes@.len() as int),
        forall|i: int| 0 <= i < notes@.len() ==> (res.0@.contains(i as usize) <==> straddles(#[trigger] notes@[i], tick)),
        res.1@ == notes@.filter(|n: NoteEvent| straddles(n, tick)),
        res.0@.len() == res.1@.len(),
{
    let ghost p = |n: NoteEvent| straddles(n, tick);
    let mut idx: Vec<usize> = Vec::new();
    let mut vals: Vec<NoteEvent> = Vec::new();
    let mut i: usize = 0;
    while i < notes.len()
        invariant
            i <= notes@.len(),
            p == (|n: NoteEvent| straddles(n, tick)),
            strictly_increasing_below(idx@, i as int),
            forall|j: int| 0 <= j < i ==> (idx@.contains(j as usize) <==> straddles(#[trigger] notes@[j], tick)),
            vals@ == notes@.take(i as int).filter(p),
            idx@.len() == vals@.len(),
        decreases notes@.len() - i,
    {
        let n = notes[i];
        proof {
            assert(notes@.take(i + 1) =~= notes@.take(i as int).push(n));
            notes@.take(i as int).lemma_filter_push(n, p);
        }
        if n.start_tick < tick && tick < n.end_tick {
            let ghost before = idx@;
            idx.push(i);
            vals.push(n);
            proof {
                assert forall|j: int| 0 <= j <= i implies (idx@.contains(j as usize) <==> straddles(#[trigger] notes@[j], tick)) by {
                    if j < i {
                        if idx@.contains(j as usize) {
                            let q = choose|q: int| 0 <= q < idx@.len() && idx@[q] == j as usize;
                            if q < before.len() {
                                assert(before[q] == j as usize);
                                assert(before.contains(j as usize));
                            }
                        }
                        if before.contains(j as usize) {
                            let q = choose|q: int| 0 <= q < before.len() && before[q] == j as usize;
                            assert(idx@[q] == j as usize);
                        }
                    } else {
                        assert(idx@[before.len() as int] == i);
                    }
                }
            }
        } else {
            proof {
                assert(!idx@.contains(i)) by {
                    if idx@.contains(i) {
                        let q = choose|q: int| 0 <= q < idx@.len() && idx@[q] == i;
                    }
                }
            }
        }
        i = i + 1;
    }
    assert(notes@.take(notes@.len() as int) =~= notes@);
    (idx, vals)
}

impl Editor {
    /// Notes of document track `t` that `tick` cuts.
    pub open spec fn razor_split_notes(&self, t: usize, tick: u32) -> Seq<NoteEvent> {
        self.track_of(t as int).filter(|n: NoteEvent| straddles(n, tick))
    }

    /// Notes of document track `t` that `tick` does not cut.
    pub open spec fn razor_kept_notes(&self, t: usize, tick: u32) -> Seq<NoteEvent> {
        self.track_of(t as int).filter(|n: NoteEvent| !straddles(n, tick))
    }

    /// Cuts in two, at `tick`, every note of the track at visual row `track` that
    /// `tick` falls strictly inside; returns how many notes were cut. An undo
    /// point is recorded only when something was cut; the cut notes are then
    /// announced to collaborators as deleted and their pieces as added.
    pub fn arrange_razor(&mut self, tick: u32, track: usize) -> (split: usize)
        requires
            old(self).wf(),
        ensures
            final(self).wf(),
            ({
                let t = old(self).doc_track(track);
                let l = old(self).razor_split_notes(t, tick);
                &&& l.len() == 0 ==> split == 0 && *final(self) == *old(self)
                &&& l.len() > 0 ==> {
                    &&& split == l.len()
                    &&& final(self).spec_division() == old(self).spec_division()
                    &&& final(self).doc_tracks() == old(self).doc_tracks().update(
                        t as int,
                        insert_entries(old(self).razor_kept_notes(t, tick), razor_entries(l, tick, t), t),
                    )
                    &&& old(self).history.pushed(final(self).history, old(self).document)
                    &&& final(self).notes_changed == (old(self).notes_changed || t == old(self).current_track)
                    &&& final(self).collab_outbox@ == old(self).collab_outbox@ + delete_announcements(l, t)
                        + entry_add_announcements(razor_entries(l, tick, t))
                    &&& *final(self) == (Editor {
                        document: final(self).document,
                        history: final(self).history,
                        collab_outbox: final(self).collab_outbox,
                        notes_changed: final(self).notes_changed,
                        note_index_dirty: final(self).note_index_dirty,
                        ..*old(self)
                    })
                }
            }),
    {
        let doc_track = self.document_track_at(track);
        if doc_track >= self.track_count() {
            proof {
                assert(old(self).track_of(doc_track as int) == Seq::<NoteEvent>::empty());
                reveal(Seq::filter);
            }
            return 0;
        }
        let notes = self.track_notes(doc_track);
        let (idx, split_notes) = straddle_positions(&notes, tick);
        if idx.len() == 0 {
            return 0;
        }
        self.push_history();
        let mut pieces: Vec<(usize, NoteEvent)> = Vec::new();
        let mut i: usize = split_notes.len();
        let ghost l = split_notes@;
        proof {
            assert(l.take(l.len() as int) =~= l);
            assert(pieces@ + razor_entries(l.take(i as int), tick, doc_track) =~= razor_entries(l, tick, doc_track));
        }
        while i > 0
            invariant
                i <= l.len(),
                l == split_notes@,
                forall|j: int| 0 <= j < pieces@.len() ==> (#[trigger] pieces@[j]).0 == doc_track,
                pieces@ + razor_entries(l.take(i as int), tick, doc_track) == razor_entries(l, tick, doc_track),
            decreases i,
        {
            let n = split_notes[i - 1];
            proof {
                assert(l.take(i as int).drop_last() =~= l.take(i - 1));
                assert(l.take(i as int).last() == n);
            }
            let ghost before = pieces@;
            pieces.push((doc_track, NoteEvent { start_tick: tick, ..n }));
            pieces.push((doc_track, NoteEvent { end_tick: tick, ..n }));
            proof {
                assert(pieces@ =~= before + seq![(doc_track, razor_right(n, tick)), (doc_track, razor_left(n, tick))]);
                assert(pieces@ + razor_entries(l.take(i - 1), tick, doc_track) =~= before + razor_entries(l.take(i as int), tick, doc_track));
            }
            i = i - 1;
        }
        proof {
            assert(l.take(0) =~= Seq::<NoteEvent>::empty());
            assert(pieces@ =~= razor_entries(l, tick, doc_track));
        }
        let mut doc = self.document.take().unwrap();
        let ghost d0 = doc@;
        proof {
            let p = |n: NoteEvent| straddles(n, tick);
            lemma_keep_where_filter(notes@, idx@, p);
            assert((|n: NoteEvent| !p(n)) =~= (|n: NoteEvent| !straddles(n, tick)));
            assert(keep_where(notes@, |i: int| !idx@.contains(i as usize)) == old(self).razor_kept_notes(doc_track, tick));
        }
        let removed = doc.remove_notes_merged(doc_track, &idx);
        let ghost d1 = doc@;
        let _ = insert_entries_into(&mut doc, &pieces, self.current_track);
        proof {
            assert(doc@ =~= d0.update(
                doc_track as int,
                insert_entries(old(self).razor_kept_notes(doc_track, tick), razor_entries(l, tick, doc_track), doc_track),
            )) by {
                assert forall|t: int| 0 <= t < d0.len() implies doc@[t] == d0.update(
                    doc_track as int,
                    insert_entries(old(self).razor_kept_notes(doc_track, tick), razor_entries(l, tick, doc_track), doc_track),
                )[t] by {
                    if t != doc_track {
                        lemma_insert_entries_other(d1[t], pieces@, t as usize, doc_track);
                    } else {
                        assert(d1[t] == old(self).razor_kept_notes(doc_track, tick));
                    }
                }
            }
        }
        self.document = Some(doc);
        if removed == 0 {
            self.discard_last_history();
            return 0;
        }
        if doc_track == self.current_track {
            self.mark_notes_changed();
        }
        let deleted = delete_announcement_list(&split_notes, doc_track);
        let added = entry_add_announcement_list(&pieces);
        append_events(&mut self.collab_outbox, &deleted);
        append_events(&mut self.collab_outbox, &added);
        removed
    }
}

/// Entries all addressed to another track leave `s` unchanged.
pub proof fn lemma_insert_entries_other(s: Seq<NoteEvent>, e: Seq<(usize, NoteEvent)>, t: usize, other: usize)
    requires
        t != other,
        forall|j: int| 0 <= j < e.len() ==> (#[trigger] e[j]).0 == other,
    ensures
        insert_entries(s, e, t) == s,
    decreases e.len(),
{
    if e.len() > 0 {
        let d = e.drop_last();
        assert forall|j: int| 0 <= j < d.len() implies (#[trigger] d[j]).0 == other by {
            assert(d[j] == e[j]);
        }
        lemma_insert_entries_other(s, d, t, other);
    }
}

} // verus!
