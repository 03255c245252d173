//! Committing pending piano-roll drags and copy-drags, polling the commit
//! result, and undo / redo with selection re-mapping.

use crate::arrange_edit::{insert_entries, insert_entries_into, lemma_insert_entries_other};
use crate::arrange_query::indexed_values;
use crate::document::{keep_where, strictly_increasing_below};
use crate::editor::{CollabEvent, DragState, Editor};
use crate::history::state_of;
use crate::note::NoteEvent;
use crate::selection::shift_tick;
use vstd::prelude::*;

verus! {

/// `key + dk` clamped to `[0, max_key]`.
pub open spec fn dragged_key(key: u8, dk: i16, max_key: u8) -> u8 {
    let k = key + dk;
    if k < 0 {
        0
    } else if k > max_key {
        max_key
    } else {
        k as u8
    }
}

/// Note `n` dragged by `dt` ticks and `dk` keys (start and end clamped to the
/// tick range, length kept, key clamped to `[0, max_key]`).
pub open spec fn dragged_note(n: NoteEvent, dt: i64, dk: i16, max_key: u8) -> NoteEvent {
    let start = shift_tick(n.start_tick, dt);
    let len: int = if n.end_tick >= n.start_tick { n.end_tick - n.start_tick } else { 0 };
    let end = if start + len > u32::MAX { u32::MAX } else { (start + len) as u32 };
    NoteEvent { start_tick: start, end_tick: end, key: dragged_key(n.key, dk, max_key), velocity: n.velocity, channel: n.channel }
}

/// Dragged copies (addressed to track `t`) of the notes at the positions of the
/// first `k` notes of `s` that `sel` lists, in track order.
pub open spec fn drag_entries(s: Seq<NoteEvent>, sel: Seq<usize>, dt: i64, dk: i16, max_key: u8, t: usize, k: int) -> Seq<(usize, NoteEvent)>
    decreases k,
{
    if k <= 0 {
        Seq::empty()
    } else {
        let prev = drag_entries(s, sel, dt, dk, max_key, t, k - 1);
        if sel.contains((k - 1) as usize) {
            prev.push((t, dragged_note(s[k - 1], dt, dk, max_key)))
        } else {
            prev
        }
    }
}

/// The notes among the first `k` of `s` whose positions `sel` lists, in track order.
pub open spec fn drag_sources(s: Seq<NoteEvent>, sel: Seq<usize>, k: int) -> Seq<NoteEvent>
    decreases k,
{
    if k <= 0 {
        Seq::empty()
    } else {
        let prev = drag_sources(s, sel, k - 1);
        if sel.contains((k - 1) as usize) {
            prev.push(s[k - 1])
        } else {
            prev
        }
    }
}

/// Track `s` after moving the notes at the positions listed in `ds.selected`.
pub open spec fn drag_moved_track(s: Seq<NoteEvent>, ds: DragState, max_key: u8, t: usize) -> Seq<NoteEvent> {
    insert_entries(
        keep_where(s, |i: int| !ds.selected@.contains(i as usize)),
        drag_entries(s, ds.selected@, ds.delta_tick, ds.delta_key, max_key, t, s.len() as int),
        t,
    )
}

/// Track `s` with the dragged copies of the notes listed in `ds.selected` added.
pub open spec fn drag_copied_track(s: Seq<NoteEvent>, ds: DragState, max_key: u8, t: usize) -> Seq<NoteEvent> {
    insert_entries(s, drag_entries(s, ds.selected@, ds.delta_tick, ds.delta_key, max_key, t, s.len() as int), t)
}

/// Positions `i` (ascending) of the notes of `s` equal to one of `params`.
pub open spec fn matching_indices(s: Seq<NoteEvent>, params: Seq<NoteEvent>, k: int) -> Seq<usize>
    decreases k,
{
    if k <= 0 {
        Seq::empty()
    } else {
        let prev = matching_indices(s, params, k - 1);
        if params.contains(s[k - 1]) {
            prev.push((k - 1) as usize)
        } else {
            prev
        }
    }
}

/// Positions `i` (ascending) of the notes of `s` that are the first note of
/// the track equal to one of `targets`: for each target value found in the
/// track, its first position (the selection re-built after undoing or
/// redoing a move).
pub open spec fn first_matching_indices(s: Seq<NoteEvent>, targets: Seq<NoteEvent>, k: int) -> Seq<usize>
    decreases k,
{
    if k <= 0 {
        Seq::empty()
    } else {
        let prev = first_matching_indices(s, targets, k - 1);
        if targets.contains(s[k - 1]) && !s.take(k - 1).contains(s[k - 1]) {
            prev.push((k - 1) as usize)
        } else {
            prev
        }
    }
}

/// Notes of `e` (dropping the track).
pub open spec fn entry_notes(e: Seq<(usize, NoteEvent)>) -> Seq<NoteEvent> {
    e.map_values(|p: (usize, NoteEvent)| p.1)
}

/// Positions (ascending) of `notes` listed in `sel`, and the dragged copies of
/// those notes addressed to track `t`.
fn drag_positions(notes: &Vec<NoteEvent>, ds: &DragState, max_key: u8, t: usize) -> (res: (Vec<usize>, Vec<(usize, NoteEvent)>))
    ensures
        strictly_increasing_below(res.0@, notes@.len() as int),
        forall|i: int| #![trigger res.0@.contains(i as usize)] #![trigger ds.selected@.contains(i as usize)] 0 <= i < notes@.len() ==> (res.0@.contains(i as usize) <==> ds.selected@.contains(i as usize)),
        res.1@ == drag_entries(notes@, ds.selected@, ds.delta_tick, ds.delta_key, max_key, t, notes@.len() as int),
        res.0@.len() == res.1@.len(),
{
    let mut idx: Vec<usize> = Vec::new();
    let mut entries: Vec<(usize, NoteEvent)> = Vec::new();
    let mut i: usize = 0;
    while i < notes.len()
        invariant
            i <= notes@.len(),
            strictly_increasing_below(idx@, i as int),
            forall|j: int| #![trigger idx@.contains(j as usize)] #![trigger ds.selected@.contains(j as usize)] 0 <= j < i ==> (idx@.contains(j as usize) <==> ds.selected@.contains(j as usize)),
            entries@ == drag_entries(notes@, ds.selected@, ds.delta_tick, ds.delta_key, max_key, t, i as int),
            idx@.len() == entries@.len(),
        decreases notes@.len() - i,
    {
        if vec_contains(&ds.selected, i) {
            let n = notes[i];
            let ghost before = idx@;
            idx.push(i);
            entries.push((t, drag_note(n, ds.delta_tick, ds.delta_key, max_key)));
            proof {
                assert forall|j: int| #![trigger idx@.contains(j as usize)] #![trigger ds.selected@.contains(j as usize)] 0 <= j <= i implies (idx@.contains(j as usize) <==> ds.selected@.contains(j as usize)) by {
                    if j < i {
                        if idx@.contains(j as usize) {
                            let q = choose|q: int| 0 <= q < idx@.len() && idx@[q] == j as usize;
                            if q < before.len() {
                                assert(before[q] == j as usize);
                                assert(before.contains(j as usize));
                            }
                        }
                        if before.contains(j as usize) {
                            let q = choose|q: int| 0 <= q < before.len() && before[q] == j as usize;
                            assert(idx@[q] == j as usize);
                        }
                    } else {
                        assert(idx@[before.len() as int] == i);
                    }
                }
            }
        } else {
            proof {
                assert(!idx@.contains(i)) by {
                    if idx@.contains(i) {
                        let q = choose|q: int| 0 <= q < idx@.len() && idx@[q] == i;
                    }
                }
            }
        }
        i = i + 1;
    }
    (idx, entries)
}

/// The notes of `notes` whose positions `sel` lists, in track order.
fn drag_source_notes(notes: &Vec<NoteEvent>, sel: &Vec<usize>) -> (src: Vec<NoteEvent>)
    ensures
        src@ == drag_sources(notes@, sel@, notes@.len() as int),
{
    let mut src: Vec<NoteEvent> = Vec::new();
    let mut i: usize = 0;
    while i < notes.len()
        invariant
            i <= notes@.len(),
            src@ == drag_sources(notes@, sel@, i as int),
        decreases notes@.len() - i,
    {
        if vec_contains(sel, i) {
            src.push(notes[i]);
        }
        i = i + 1;
    }
    src
}

/// Whether `v` holds `x`.
fn vec_contains(v: &Vec<usize>, x: usize) -> (b: bool)
    ensures
        b == v@.contains(x),
{
    let mut i: usize = 0;
    while i < v.len()
        invariant
            i <= v@.len(),
            forall|j: int| 0 <= j < i ==> v@[j] != x,
        decreases v@.len() - i,
    {
        if v[i] == x {
            assert(v@[i as int] == x);
            return true;
        }
        i = i + 1;
    }
    false
}

/// Note `n` dragged by `dt` ticks and `dk` keys.
fn drag_note(n: NoteEvent, dt: i64, dk: i16, max_key: u8) -> (m: NoteEvent)
    ensures
        m == dragged_note(n, dt, dk, max_key),
{
    let s: i128 = n.start_tick as i128 + dt as i128;
    let start: u32 = if s < 0 {
        0
    } else if s > u32::MAX as i128 {
        u32::MAX
    } else {
        s as u32
    };
    let len: u32 = if n.end_tick >= n.start_tick { n.end_tick - n.start_tick } else { 0 };
    let end: u32 = if start as u64 + len as u64 > u32::MAX as u64 { u32::MAX } else { start + len };
    let k: i32 = n.key as i32 + dk as i32;
    let key: u8 = if k < 0 {
        0
    } else if k > max_key as i32 {
        max_key
    } else {
        k as u8
    };
    NoteEvent { start_tick: start, end_tick: end, key, velocity: n.velocity, channel: n.channel }
}

/// Positions (ascending) of the notes of `notes` equal to one of `params`.
pub fn select_matching(notes: &Vec<NoteEvent>, params: &Vec<NoteEvent>) -> (idx: Vec<usize>)
    ensures
        idx@ == matching_indices(notes@, params@, notes@.len() as int),
{
    let mut idx: Vec<usize> = Vec::new();
    let mut i: usize = 0;
    while i < notes.len()
        invariant
            i <= notes@.len(),
            idx@ == matching_indices(notes@, params@, i as int),
        decreases notes@.len() - i,
    {
        let n = notes[i];
        let mut found = false;
        let mut k: usize = 0;
        while k < params.len()
            invariant
                k <= params@.len(),
                found == exists|j: int| 0 <= j < k && params@[j] == n,
            decreases params@.len() - k,
        {
            if params[k] == n {
                found = true;
            }
            k = k + 1;
        }
        proof {
            if found {
                let j = choose|j: int| 0 <= j < k && params@[j] == n;
                assert(params@.contains(n));
            } else {
                assert(!params@.contains(n)) by {
                    if params@.contains(n) {
                        let j = choose|j: int| 0 <= j < params@.len() && params@[j] == n;
                        assert(params@[j] == n);
                    }
                }
            }
        }
        if found {
            idx.push(i);
        }
        i = i + 1;
    }
    idx
}

/// Positions (ascending) of the first note of `notes` equal to each of
/// `params` that the track holds.
pub fn select_first_matching(notes: &Vec<NoteEvent>, params: &Vec<NoteEvent>) -> (idx: Vec<usize>)
    ensures
        idx@ == first_matching_indices(notes@, params@, notes@.len() as int),
{
    let mut found: Vec<bool> = Vec::new();
    let mut q0: usize = 0;
    while q0 < params.len()
        invariant
            q0 <= params@.len(),
            found@.len() == q0,
            forall|q: int| 0 <= q < q0 ==> !#[trigger] found@[q],
        decreases params@.len() - q0,
    {
        found.push(false);
        q0 = q0 + 1;
    }
    proof {
        assert forall|q: int| 0 <= q < params@.len() implies #[trigger] found@[q] == notes@.take(0).contains(params@[q]) by {}
    }
    let mut idx: Vec<usize> = Vec::new();
    let mut i: usize = 0;
    while i < notes.len()
        invariant
            i <= notes@.len(),
            found@.len() == params@.len(),
            forall|q: int| 0 <= q < params@.len() ==> #[trigger] found@[q] == notes@.take(i as int).contains(params@[q]),
            idx@ == first_matching_indices(notes@, params@, i as int),
        decreases notes@.len() - i,
    {
        let n = notes[i];
        let ghost before = notes@.take(i as int);
        proof {
            assert(notes@.take(i + 1) =~= before.push(n));
        }
        let mut hit = false;
        let mut fresh = false;
        let mut q: usize = 0;
        while q < params.len()
            invariant
                q <= params@.len(),
                n == notes@[i as int],
                i < notes@.len(),
                before == notes@.take(i as int),
                notes@.take(i + 1) == before.push(n),
                found@.len() == params@.len(),
                forall|r: int| 0 <= r < q ==> #[trigger] found@[r] == notes@.take(i + 1).contains(params@[r]),
                forall|r: int| q <= r < params@.len() ==> #[trigger] found@[r] == before.contains(params@[r]),
                hit == exists|r: int| 0 <= r < q && params@[r] == n,
                hit ==> fresh == !before.contains(n),
                !hit ==> !fresh,
            decreases params@.len() - q,
        {
            if params[q] == n {
                hit = true;
                if !found[q] {
                    fresh = true;
                    found.set(q, true);
                }
                proof {
                    assert(before.push(n).contains(n)) by {
                        assert(before.push(n)[before.len() as int] == n);
                    }
                }
            } else {
                proof {
                    let p = params@[q as int];
                    if before.push(n).contains(p) {
                        let x = choose|x: int| 0 <= x < before.push(n).len() && before.push(n)[x] == p;
                        assert(x < before.len());
                        assert(before[x] == p);
                    }
                    if before.contains(p) {
                        let x = choose|x: int| 0 <= x < before.len() && before[x] == p;
                        assert(before.push(n)[x] == p);
                    }
                }
            }
            q = q + 1;
        }
        proof {
            assert(hit == params@.contains(n)) by {
                if params@.contains(n) {
                    let r = choose|r: int| 0 <= r < params@.len() && params@[r] == n;
                }
            }
            assert(notes@.take(i as int) == before);
        }
        if hit && fresh {
            idx.push(i);
        }
        i = i + 1;
    }
    proof {
        assert(notes@.take(notes@.len() as int) =~= notes@);
    }
    idx
}

/// Whether note `n` meets the selection box: it ends at or after `min_tick`,
/// starts at or before `max_tick`, and its key lies in `[min_key, max_key]`.
pub open spec fn in_box(n: NoteEvent, min_tick: u32, max_tick: u32, min_key: u16, max_key: u16) -> bool {
    &&& n.end_tick >= min_tick
    &&& n.start_tick <= max_tick
    &&& min_key <= n.key <= max_key
}

/// Positions (ascending) among the first `k` notes of `s` that meet the box.
pub open spec fn box_positions(s: Seq<NoteEvent>, min_tick: u32, max_tick: u32, min_key: u16, max_key: u16, k: int) -> Seq<usize>
    decreases k,
{
    if k <= 0 {
        Seq::empty()
    } else {
        let prev = box_positions(s, min_tick, max_tick, min_key, max_key, k - 1);
        if in_box(s[k - 1], min_tick, max_tick, min_key, max_key) {
            prev.push((k - 1) as usize)
        } else {
            prev
        }
    }
}

impl Editor {
    /// Rebuilds the piano-roll selection from a selection box: exactly the
    /// notes of the current track that meet it, in track order.
    pub fn rebuild_selected_notes(&mut self, min_tick: u32, max_tick: u32, min_key: u16, max_key: u16)
        ensures
            final(self).selected_notes@ == box_positions(
                old(self).current_notes(),
                min_tick,
                max_tick,
                min_key,
                max_key,
                old(self).current_notes().len() as int,
            ),
            *final(self) == (Editor { selected_notes: final(self).selected_notes, ..*old(self) }),
    {
        let notes = self.track_notes(self.current_track);
        let mut sel: Vec<usize> = Vec::new();
        let mut i: usize = 0;
        while i < notes.len()
            invariant
                i <= notes@.len(),
                sel@ == box_positions(notes@, min_tick, max_tick, min_key, max_key, i as int),
            decreases notes@.len() - i,
        {
            let n = notes[i];
            if n.end_tick >= min_tick && n.start_tick <= max_tick && min_key <= n.key as u16 && n.key as u16 <= max_key {
                sel.push(i);
            }
            i = i + 1;
        }
        self.selected_notes = sel;
    }
}

/// What a batch drag announces to collaborators: for each listed position
/// (in list order) that holds a note of `s`, that note moved by the drag
/// offsets in track `t`.
pub open spec fn move_announcements(s: Seq<NoteEvent>, sel: Seq<usize>, dt: i64, dk: i16, t: usize) -> Seq<CollabEvent>
    decreases sel.len(),
{
    if sel.len() == 0 {
        Seq::empty()
    } else {
        let prev = move_announcements(s, sel.drop_last(), dt, dk, t);
        if sel.last() < s.len() {
            prev.push(CollabEvent::NoteMoved { note: s[sel.last() as int], delta_tick: dt, delta_key: dk, track: t })
        } else {
            prev
        }
    }
}

/// What adding `notes` to track `t` announces to collaborators, in order.
pub open spec fn add_announcements(notes: Seq<NoteEvent>, t: usize) -> Seq<CollabEvent> {
    notes.map_values(|n: NoteEvent| CollabEvent::NoteAdded { note: n, track: t })
}

/// What inserting the entries `e` announces to collaborators: each note
/// added to its track, in order.
pub open spec fn entry_add_announcements(e: Seq<(usize, NoteEvent)>) -> Seq<CollabEvent> {
    e.map_values(|p: (usize, NoteEvent)| CollabEvent::NoteAdded { note: p.1, track: p.0 })
}

/// What deleting `notes` from track `t` announces to collaborators, in order.
pub open spec fn delete_announcements(notes: Seq<NoteEvent>, t: usize) -> Seq<CollabEvent> {
    notes.map_values(|n: NoteEvent| CollabEvent::NoteDeleted { note: n, track: t })
}

/// The announcements of deleting `notes` from track `t`.
pub(crate) fn delete_announcement_list(notes: &Vec<NoteEvent>, t: usize) -> (v: Vec<CollabEvent>)
    ensures
        v@ == delete_announcements(notes@, t),
{
    let mut v: Vec<CollabEvent> = Vec::new();
    let mut k: usize = 0;
    while k < notes.len()
        invariant
            k <= notes@.len(),
            v@.len() == k,
            forall|j: int| 0 <= j < k ==> #[trigger] v@[j] == (CollabEvent::NoteDeleted { note: notes@[j], track: t }),
        decreases notes@.len() - k,
    {
        v.push(CollabEvent::NoteDeleted { note: notes[k], track: t });
        k = k + 1;
    }
    assert(v@ =~= delete_announcements(notes@, t));
    v
}

/// The announcements of inserting the entries `e`.
pub(crate) fn entry_add_announcement_list(e: &Vec<(usize, NoteEvent)>) -> (v: Vec<CollabEvent>)
    ensures
        v@ == entry_add_announcements(e@),
{
    let mut v: Vec<CollabEvent> = Vec::new();
    let mut k: usize = 0;
    while k < e.len()
        invariant
            k <= e@.len(),
            v@.len() == k,
            forall|j: int| 0 <= j < k ==> #[trigger] v@[j] == (CollabEvent::NoteAdded { note: e@[j].1, track: e@[j].0 }),
        decreases e@.len() - k,
    {
        let (t, n) = e[k];
        v.push(CollabEvent::NoteAdded { note: n, track: t });
        k = k + 1;
    }
    assert(v@ =~= entry_add_announcements(e@));
    v
}

/// Track `t` of `d`, empty when `d` has no such track.
pub open spec fn track_or_empty(d: Seq<Seq<NoteEvent>>, t: int) -> Seq<NoteEvent> {
    if 0 <= t < d.len() {
        d[t]
    } else {
        Seq::empty()
    }
}

/// Deletions announced when the tracks go from `a` to `b`: for each of the
/// first `k` tracks, in order, whose notes changed, all its old notes.
pub open spec fn snapshot_deleted_upto(a: Seq<Seq<NoteEvent>>, b: Seq<Seq<NoteEvent>>, k: int) -> Seq<CollabEvent>
    decreases k,
{
    if k <= 0 {
        Seq::empty()
    } else {
        let t = k - 1;
        snapshot_deleted_upto(a, b, t) + if track_or_empty(a, t) != track_or_empty(b, t) {
            delete_announcements(track_or_empty(a, t), t as usize)
        } else {
            Seq::empty()
        }
    }
}

/// Additions announced when the tracks go from `a` to `b`: for each of the
/// first `k` tracks, in order, whose notes changed, all its new notes.
pub open spec fn snapshot_added_upto(a: Seq<Seq<NoteEvent>>, b: Seq<Seq<NoteEvent>>, k: int) -> Seq<CollabEvent>
    decreases k,
{
    if k <= 0 {
        Seq::empty()
    } else {
        let t = k - 1;
        snapshot_added_upto(a, b, t) + if track_or_empty(a, t) != track_or_empty(b, t) {
            add_announcements(track_or_empty(b, t), t as usize)
        } else {
            Seq::empty()
        }
    }
}

/// What replacing the tracks `a` by `b` (undo or redo) announces to
/// collaborators: every track whose notes changed is announced whole, its old
/// notes deleted (all tracks first), then its new notes added.
pub open spec fn snapshot_announcements(a: Seq<Seq<NoteEvent>>, b: Seq<Seq<NoteEvent>>) -> Seq<CollabEvent> {
    let n = if a.len() >= b.len() { a.len() as int } else { b.len() as int };
    snapshot_deleted_upto(a, b, n) + snapshot_added_upto(a, b, n)
}

/// The notes of each track of the editor's document.
fn track_copies(e: &Editor) -> (v: Vec<Vec<NoteEvent>>)
    ensures
        v@.len() == e.doc_tracks().len(),
        forall|t: int| 0 <= t < v@.len() ==> (#[trigger] v@[t])@ == e.doc_tracks()[t],
{
    let n = e.track_count();
    let mut v: Vec<Vec<NoteEvent>> = Vec::new();
    let mut t: usize = 0;
    while t < n
        invariant
            t <= n,
            n == e.doc_tracks().len(),
            v@.len() == t,
            forall|u: int| 0 <= u < t ==> (#[trigger] v@[u])@ == e.doc_tracks()[u],
        decreases n - t,
    {
        v.push(e.track_notes(t));
        t = t + 1;
    }
    v
}

/// The announcements of replacing the tracks `a` by `b`.
fn snapshot_announcement_list(a: &Vec<Vec<NoteEvent>>, b: &Vec<Vec<NoteEvent>>, Ghost(va): Ghost<Seq<Seq<NoteEvent>>>, Ghost(vb): Ghost<Seq<Seq<NoteEvent>>>) -> (v: Vec<CollabEvent>)
    requires
        a@.len() == va.len(),
        forall|t: int| 0 <= t < a@.len() ==> (#[trigger] a@[t])@ == va[t],
        b@.len() == vb.len(),
        forall|t: int| 0 <= t < b@.len() ==> (#[trigger] b@[t])@ == vb[t],
    ensures
        v@ == snapshot_announcements(va, vb),
{
    let n = if a.len() >= b.len() { a.len() } else { b.len() };
    let empty: Vec<NoteEvent> = Vec::new();
    let mut dels: Vec<CollabEvent> = Vec::new();
    let mut adds: Vec<CollabEvent> = Vec::new();
    let mut t: usize = 0;
    while t < n
        invariant
            t <= n,
            n as int == (if va.len() >= vb.len() { va.len() as int } else { vb.len() as int }),
            empty@.len() == 0,
            a@.len() == va.len(),
            forall|u: int| 0 <= u < a@.len() ==> (#[trigger] a@[u])@ == va[u],
            b@.len() == vb.len(),
            forall|u: int| 0 <= u < b@.len() ==> (#[trigger] b@[u])@ == vb[u],
            dels@ == snapshot_deleted_upto(va, vb, t as int),
            adds@ == snapshot_added_upto(va, vb, t as int),
        decreases n - t,
    {
        let ta: &Vec<NoteEvent> = if t < a.len() { &a[t] } else { &empty };
        let tb: &Vec<NoteEvent> = if t < b.len() { &b[t] } else { &empty };
        proof {
            assert(ta@ == track_or_empty(va, t as int));
            assert(tb@ == track_or_empty(vb, t as int));
        }
        if !same_notes(ta, tb) {
            let d = delete_announcement_list(ta, t);
            let ad = add_announcement_list(tb, t);
            append_events(&mut dels, &d);
            append_events(&mut adds, &ad);
        } else {
            assert(dels@ =~= dels@ + Seq::<CollabEvent>::empty());
            assert(adds@ =~= adds@ + Seq::<CollabEvent>::empty());
        }
        t = t + 1;
    }
    append_events(&mut dels, &adds);
    dels
}

/// What a poll of a background commit reports.
#[derive(Clone, Copy, PartialEq, Eq, Debug, Structural)]
pub enum CommitPoll {
    /// The commit has not finished yet.
    Running,
    /// The commit finished, modifying this many notes.
    Finished(usize),
    /// The commit failed.
    Failed,
}

/// The announcements of a batch drag of the notes at `sel` of `notes`.
fn move_announcement_list(notes: &Vec<NoteEvent>, sel: &Vec<usize>, dt: i64, dk: i16, t: usize) -> (v: Vec<CollabEvent>)
    ensures
        v@ == move_announcements(notes@, sel@, dt, dk, t),
{
    let mut v: Vec<CollabEvent> = Vec::new();
    let mut k: usize = 0;
    while k < sel.len()
        invariant
            k <= sel@.len(),
            v@ == move_announcements(notes@, sel@.take(k as int), dt, dk, t),
        decreases sel@.len() - k,
    {
        let i = sel[k];
        proof {
            assert(sel@.take(k + 1).drop_last() =~= sel@.take(k as int));
            assert(sel@.take(k + 1).last() == i);
        }
        if i < notes.len() {
            v.push(CollabEvent::NoteMoved { note: notes[i], delta_tick: dt, delta_key: dk, track: t });
        }
        k = k + 1;
    }
    assert(sel@.take(sel@.len() as int) =~= sel@);
    v
}

/// The announcements of adding `notes` to track `t`.
pub(crate) fn add_announcement_list(notes: &Vec<NoteEvent>, t: usize) -> (v: Vec<CollabEvent>)
    ensures
        v@ == add_announcements(notes@, t),
{
    let mut v: Vec<CollabEvent> = Vec::new();
    let mut k: usize = 0;
    while k < notes.len()
        invariant
            k <= notes@.len(),
            v@.len() == k,
            forall|j: int| 0 <= j < k ==> #[trigger] v@[j] == (CollabEvent::NoteAdded { note: notes@[j], track: t }),
        decreases notes@.len() - k,
    {
        v.push(CollabEvent::NoteAdded { note: notes[k], track: t });
        k = k + 1;
    }
    assert(v@ =~= add_announcements(notes@, t));
    v
}

/// Appends `ev` to `out`.
pub(crate) fn append_events(out: &mut Vec<CollabEvent>, ev: &Vec<CollabEvent>)
    ensures
        final(out)@ == old(out)@ + ev@,
{
    let ghost o = out@;
    let mut k: usize = 0;
    while k < ev.len()
        invariant
            k <= ev@.len(),
            out@ == o + ev@.take(k as int),
        decreases ev@.len() - k,
    {
        out.push(ev[k]);
        k = k + 1;
        assert(out@ =~= o + ev@.take(k as int));
    }
    assert(ev@.take(ev@.len() as int) =~= ev@);
}

impl Editor {
    /// Notes of the current track.
    pub open spec fn current_notes(&self) -> Seq<NoteEvent> {
        self.track_of(self.current_track as int)
    }

    /// Selected notes of the current track (values of the selected positions).
    pub open spec fn selected_values(&self) -> Seq<NoteEvent> {
        indexed_values(self.current_notes(), self.selected_notes@)
    }

    /// Dragged copies of the notes of the current track listed in `ds`.
    pub open spec fn drag_entries_of(&self, ds: DragState) -> Seq<(usize, NoteEvent)> {
        drag_entries(
            self.current_notes(),
            ds.selected@,
            ds.delta_tick,
            ds.delta_key,
            self.max_key,
            self.current_track,
            self.current_notes().len() as int,
        )
    }

    /// What committing the pending batch drag does: `post` is the editor after
    /// the commit, `started` its result. The dragged notes of the current track
    /// move by the drag offsets, with one undo point.
    pub open spec fn drag_commit_result(&self, post: Editor, started: bool) -> bool {
        match self.pending_drag_state {
            None => !started && post == *self,
            Some(ds) => if ds.delta_tick == 0 && ds.delta_key == 0 {
                !started && post == (Editor { pending_drag_state: None, ..*self })
            } else if self.async_commit is Some {
                started && post == *self
            } else if self.local_selection_locked {
                !started && post == *self
            } else if self.drag_entries_of(ds).len() == 0 {
                !started && post == (Editor { pending_drag_state: None, ..*self })
            } else {
                &&& started
                &&& self.current_track < self.doc_tracks().len()
                &&& post.doc_tracks() == self.doc_tracks().update(
                    self.current_track as int,
                    drag_moved_track(self.current_notes(), ds, self.max_key, self.current_track),
                )
                &&& post.spec_division() == self.spec_division()
                &&& post.async_commit == Some(self.drag_entries_of(ds).len() as usize)
                &&& post.collab_outbox@ == self.collab_outbox@ + move_announcements(
                    self.current_notes(),
                    ds.selected@,
                    ds.delta_tick,
                    ds.delta_key,
                    self.current_track,
                )
                &&& self.history.pushed_move(
                    post.history,
                    self.document,
                    drag_sources(self.current_notes(), ds.selected@, self.current_notes().len() as int),
                    entry_notes(self.drag_entries_of(ds)),
                )
                &&& post == (Editor {
                    document: post.document,
                    history: post.history,
                    async_commit: post.async_commit,
                    collab_outbox: post.collab_outbox,
                    ..*self
                })
            },
        }
    }

    /// Starts committing the pending batch drag: the dragged notes of the current
    /// track move by the drag offsets (one undo point). The result is picked up
    /// by `poll_async_commit`; the drag stays pending until then. Each dragged
    /// note's move is announced to collaborators. Nothing is committed while an
    /// earlier remote selection locks the local one.
    pub fn commit_pending_drag(&mut self) -> (started: bool)
        requires
            old(self).wf(),
        ensures
            final(self).wf(),
            old(self).drag_commit_result(*final(self), started),
    {
        let ds = match &self.pending_drag_state {
            None => return false,
            Some(ds) => ds,
        };
        if ds.is_delta_zero() {
            self.pending_drag_state = None;
            return false;
        }
        if self.async_commit.is_some() {
            return true;
        }
        if self.local_selection_locked {
            return false;
        }
        let track = self.current_track;
        let notes = self.track_notes(track);
        let (idx, entries) = drag_positions(&notes, ds, self.max_key, track);
        if entries.len() == 0 {
            self.pending_drag_state = None;
            return false;
        }
        proof {
            if track >= old(self).doc_tracks().len() {
                assert(notes@.len() == 0);
            }
        }
        let count = entries.len();
        let originals = drag_source_notes(&notes, &ds.selected);
        let moved = entry_values(&entries);
        let announced = move_announcement_list(&notes, &ds.selected, ds.delta_tick, ds.delta_key, track);
        self.push_history_move(originals, moved);
        let mut doc = self.document.take().unwrap();
        let ghost d0 = doc@;
        proof {
            assert(keep_where(notes@, |i: int| !idx@.contains(i as usize)) == keep_where(notes@, |i: int| !ds.selected@.contains(i as usize))) by {
                lemma_keep_where_same(notes@, |i: int| !idx@.contains(i as usize), |i: int| !ds.selected@.contains(i as usize));
            }
        }
        let _ = doc.remove_notes_merged(track, &idx);
        let ghost d1 = doc@;
        let _ = insert_entries_into(&mut doc, &entries, track);
        proof {
            assert(doc@ =~= d0.update(
                track as int,
                drag_moved_track(old(self).current_notes(), *ds, old(self).max_key, track),
            )) by {
                assert forall|t: int| 0 <= t < d0.len() implies doc@[t] == d0.update(
                    track as int,
                    drag_moved_track(old(self).current_notes(), *ds, old(self).max_key, track),
                )[t] by {
                    if t != track {
                        lemma_entries_all_to(notes@, ds.selected@, ds.delta_tick, ds.delta_key, old(self).max_key, track, notes@.len() as int);
                        lemma_insert_entries_other(d1[t], entries@, t as usize, track);
                    }
                }
            }
        }
        self.document = Some(doc);
        self.async_commit = Some(count);
        append_events(&mut self.collab_outbox, &announced);
        true
    }
}

/// The notes of `e`, in order.
fn entry_values(e: &Vec<(usize, NoteEvent)>) -> (v: Vec<NoteEvent>)
    ensures
        v@ == entry_notes(e@),
{
    let mut v: Vec<NoteEvent> = Vec::new();
    let mut i: usize = 0;
    while i < e.len()
        invariant
            i <= e@.len(),
            v@.len() == i,
            forall|j: int| 0 <= j < i ==> v@[j] == (#[trigger] e@[j]).1,
        decreases e@.len() - i,
    {
        v.push(e[i].1);
        i = i + 1;
    }
    assert(v@ =~= entry_notes(e@));
    v
}

impl Editor {
    /// The editor once a finished commit has been picked up: the drag it
    /// committed is no longer pending, and a commit that modified notes marks
    /// them changed.
    pub open spec fn after_poll(&self) -> Editor {
        match self.async_commit {
            None => *self,
            Some(m) => Editor {
                async_commit: None,
                pending_drag_state: None,
                notes_changed: self.notes_changed || m > 0,
                note_index_dirty: self.note_index_dirty || m > 0,
                ..*self
            },
        }
    }

    /// What committing the pending copy-drag does: `post` is the editor after
    /// the commit, `done` its result. Dragged copies of the listed notes are
    /// added to the current track (one undo point) and become the selection.
    pub open spec fn copy_commit_result(&self, post: Editor, done: bool) -> bool {
        match self.pending_copy_drag_state {
            None => !done && post == *self,
            Some(ds) => if ds.delta_tick == 0 && ds.delta_key == 0 {
                !done && post == (Editor { pending_copy_drag_state: None, ..*self })
            } else if self.local_selection_locked {
                !done && post == *self
            } else if self.drag_entries_of(ds).len() == 0 {
                !done && post == (Editor { pending_copy_drag_state: None, ..*self })
            } else {
                &&& done
                &&& self.current_track < self.doc_tracks().len()
                &&& post.doc_tracks() == self.doc_tracks().update(
                    self.current_track as int,
                    drag_copied_track(self.current_notes(), ds, self.max_key, self.current_track),
                )
                &&& post.spec_division() == self.spec_division()
                &&& post.selected_notes@ == matching_indices(
                    post.current_notes(),
                    entry_notes(self.drag_entries_of(ds)),
                    post.current_notes().len() as int,
                )
                &&& self.history.pushed(post.history, self.document)
                &&& post.collab_outbox@ == self.collab_outbox@ + add_announcements(
                    entry_notes(self.drag_entries_of(ds)),
                    self.current_track,
                )
                &&& post == (Editor {
                    document: post.document,
                    history: post.history,
                    selected_notes: post.selected_notes,
                    collab_outbox: post.collab_outbox,
                    pending_copy_drag_state: None,
                    notes_changed: true,
                    note_index_dirty: true,
                    ..*self
                })
            },
        }
    }

    /// Picks up the result of a started commit: the number of notes it
    /// modified, or `None` when no commit is under way.
    pub fn poll_async_commit(&mut self) -> (r: Option<usize>)
        ensures
            r == old(self).async_commit,
            *final(self) == old(self).after_poll(),
    {
        let outcome = match self.async_commit {
            None => CommitPoll::Running,
            Some(m) => CommitPoll::Finished(m),
        };
        let r = self.apply_commit_poll(outcome);
        assert(old(self).async_commit is None ==> *self == old(self).after_poll());
        r
    }

    /// One poll of a background commit, given what the commit reported:
    /// still running changes nothing and gives `None`; finished with `m`
    /// modified notes ends the pending drag, marks the notes changed when
    /// `m > 0` and gives `Some(m)`; failed ends the pending drag and gives
    /// `None`. The document is not touched.
    pub fn apply_commit_poll(&mut self, outcome: CommitPoll) -> (r: Option<usize>)
        ensures
            outcome == CommitPoll::Running ==> r is None && *final(self) == *old(self),
            outcome matches CommitPoll::Finished(m) ==> r == Some(m) && *final(self) == (Editor {
                async_commit: None,
                pending_drag_state: None,
                notes_changed: old(self).notes_changed || m > 0,
                note_index_dirty: old(self).note_index_dirty || m > 0,
                ..*old(self)
            }),
            outcome == CommitPoll::Failed ==> r is None && *final(self) == (Editor {
                async_commit: None,
                pending_drag_state: None,
                ..*old(self)
            }),
    {
        match outcome {
            CommitPoll::Running => None,
            CommitPoll::Finished(m) => {
                if m > 0 {
                    self.mark_notes_changed();
                }
                self.pending_drag_state = None;
                self.async_commit = None;
                Some(m)
            },
            CommitPoll::Failed => {
                self.pending_drag_state = None;
                self.async_commit = None;
                None
            },
        }
    }

    /// Waits for a started commit to finish; returns whether it modified notes.
    pub fn drain_async_commit(&mut self) -> (modified: bool)
        ensures
            modified == (old(self).async_commit matches Some(m) && m > 0),
            *final(self) == old(self).after_poll(),
    {
        match self.poll_async_commit() {
            Some(m) => m > 0,
            None => false,
        }
    }

    /// Commits the pending copy-drag: dragged copies of the listed notes of the
    /// current track are inserted (one undo point), only the copies stay
    /// selected, and each copy is announced to collaborators. Nothing is
    /// committed while an earlier remote selection locks the local one.
    pub fn commit_pending_copy(&mut self) -> (done: bool)
        requires
            old(self).wf(),
        ensures
            final(self).wf(),
            old(self).copy_commit_result(*final(self), done),
    {
        let ds = match &self.pending_copy_drag_state {
            None => return false,
            Some(ds) => ds,
        };
        if ds.is_delta_zero() {
            self.pending_copy_drag_state = None;
            return false;
        }
        if self.local_selection_locked {
            return false;
        }
        let track = self.current_track;
        let notes = self.track_notes(track);
        let (_idx, entries) = drag_positions(&notes, ds, self.max_key, track);
        if entries.len() == 0 {
            self.pending_copy_drag_state = None;
            return false;
        }
        proof {
            if track >= old(self).doc_tracks().len() {
                assert(notes@.len() == 0);
            }
        }
        let copies = entry_values(&entries);
        let announced = add_announcement_list(&copies, track);
        self.push_history();
        let mut doc = self.document.take().unwrap();
        let ghost d0 = doc@;
        let _ = insert_entries_into(&mut doc, &entries, track);
        proof {
            let ds0 = old(self).pending_copy_drag_state->0;
            assert(doc@ =~= d0.update(
                track as int,
                drag_copied_track(old(self).current_notes(), ds0, old(self).max_key, track),
            )) by {
                assert forall|t: int| 0 <= t < d0.len() implies doc@[t] == d0.update(
                    track as int,
                    drag_copied_track(old(self).current_notes(), ds0, old(self).max_key, track),
                )[t] by {
                    if t != track {
                        lemma_entries_all_to(notes@, ds0.selected@, ds0.delta_tick, ds0.delta_key, old(self).max_key, track, notes@.len() as int);
                        lemma_insert_entries_other(d0[t], entries@, t as usize, track);
                    }
                }
            }
        }
        self.document = Some(doc);
        let cur = self.track_notes(track);
        self.selected_notes = select_matching(&cur, &copies);
        self.mark_notes_changed();
        self.pending_copy_drag_state = None;
        append_events(&mut self.collab_outbox, &announced);
        true
    }
}

impl Editor {
    /// What undo does from this (idle) editor: `post` is the editor after it,
    /// `done` its result. The most recent undo point is restored and the
    /// replaced document becomes a redo point. The selection is re-mapped to
    /// the positions of the previously selected note values; when something
    /// was selected and the undone edit was a move, it selects instead, for
    /// each note value the move had taken, the first note of that value. The
    /// tracks whose notes changed are announced to collaborators
    /// (`snapshot_announcements`).
    pub open spec fn undo_result(&self, post: Editor, done: bool) -> bool {
        if self.spec_has_pending_drag() || self.history.undo_states().len() == 0 {
            !done && post == *self
        } else {
            &&& done
            &&& state_of(post.document) == self.history.undo_states().last()
            &&& post.history.undo_states() == self.history.undo_states().drop_last()
            &&& post.history.redo_states() == self.history.redo_states().push(state_of(self.document))
            &&& post.history.undo_moves() == self.history.undo_moves().drop_last()
            &&& post.history.redo_moves() == self.history.redo_moves().push(self.history.undo_moves().last())
            &&& post.selected_notes@ == if self.selected_values().len() > 0 && self.history.undo_move_back() is Some {
                first_matching_indices(post.current_notes(), (self.history.undo_move_back()->0).0, post.current_notes().len() as int)
            } else {
                matching_indices(post.current_notes(), self.selected_values(), post.current_notes().len() as int)
            }
            &&& post.collab_outbox@ == self.collab_outbox@ + snapshot_announcements(self.doc_tracks(), post.doc_tracks())
            &&& post == (Editor {
                document: post.document,
                history: post.history,
                selected_notes: post.selected_notes,
                collab_outbox: post.collab_outbox,
                grid_cache_valid: false,
                notes_changed: true,
                note_index_dirty: true,
                ..*self
            })
        }
    }

    /// What redo does from this (idle) editor: `post` is the editor after it,
    /// `done` its result. The most recently undone state is re-applied and the
    /// replaced document becomes an undo point. The selection is re-mapped to
    /// the positions of the previously selected note values; when something
    /// was selected and the redone edit is a move, it selects instead, for
    /// each moved note value, the first note of that value. The tracks whose
    /// notes changed are announced to collaborators (`snapshot_announcements`).
    pub open spec fn redo_result(&self, post: Editor, done: bool) -> bool {
        if self.spec_has_pending_drag() || self.history.redo_states().len() == 0 {
            !done && post == *self
        } else {
            &&& done
            &&& state_of(post.document) == self.history.redo_states().last()
            &&& post.history.redo_states() == self.history.redo_states().drop_last()
            &&& post.history.undo_states() == self.history.undo_states().push(state_of(self.document))
            &&& post.history.redo_moves() == self.history.redo_moves().drop_last()
            &&& post.history.undo_moves() == self.history.undo_moves().push(self.history.redo_moves().last())
            &&& post.selected_notes@ == if self.selected_values().len() > 0 && self.history.redo_move_back() is Some {
                first_matching_indices(post.current_notes(), (self.history.redo_move_back()->0).1, post.current_notes().len() as int)
            } else {
                matching_indices(post.current_notes(), self.selected_values(), post.current_notes().len() as int)
            }
            &&& post.collab_outbox@ == self.collab_outbox@ + snapshot_announcements(self.doc_tracks(), post.doc_tracks())
            &&& post == (Editor {
                document: post.document,
                history: post.history,
                selected_notes: post.selected_notes,
                collab_outbox: post.collab_outbox,
                grid_cache_valid: false,
                notes_changed: true,
                note_index_dirty: true,
                ..*self
            })
        }
    }

    /// Undoes the last document edit. A finished commit is picked up first;
    /// while a drag, copy-drag or commit is still pending nothing is undone.
    pub fn undo(&mut self) -> (done: bool)
        requires
            old(self).wf(),
        ensures
            final(self).wf(),
            old(self).after_poll().undo_result(*final(self), done),
    {
        if self.has_pending_drag() {
            self.drain_async_commit();
        }
        if self.is_editing() {
            return false;
        }
        let track = self.current_track;
        let before = self.track_notes(track);
        let values = Self::notes_at_indices(&before, &self.selected_notes);
        let (targets, by_move) = if values.len() > 0 {
            match self.history.last_undo_move() {
                Some((originals, _)) => (originals, true),
                None => (values, false),
            }
        } else {
            (values, false)
        };
        let before_tracks = track_copies(self);
        let ghost va = self.doc_tracks();
        let done = self.history.undo(&mut self.document);
        if !done {
            return false;
        }
        let after_tracks = track_copies(self);
        let announced = snapshot_announcement_list(&before_tracks, &after_tracks, Ghost(va), Ghost(self.doc_tracks()));
        append_events(&mut self.collab_outbox, &announced);
        let now = self.track_notes(track);
        self.selected_notes = if by_move {
            select_first_matching(&now, &targets)
        } else {
            select_matching(&now, &targets)
        };
        self.grid_cache_valid = false;
        self.mark_notes_changed();
        true
    }

    /// Redoes the last undone document edit. A finished commit is picked up
    /// first; while a drag, copy-drag or commit is still pending nothing is redone.
    pub fn redo(&mut self) -> (done: bool)
        requires
            old(self).wf(),
        ensures
            final(self).wf(),
            old(self).after_poll().redo_result(*final(self), done),
    {
        if self.has_pending_drag() {
            self.drain_async_commit();
        }
        if self.is_editing() {
            return false;
        }
        let track = self.current_track;
        let before = self.track_notes(track);
        let values = Self::notes_at_indices(&before, &self.selected_notes);
        let (targets, by_move) = if values.len() > 0 {
            match self.history.last_redo_move() {
                Some((_, moved)) => (moved, true),
                None => (values, false),
            }
        } else {
            (values, false)
        };
        let before_tracks = track_copies(self);
        let ghost va = self.doc_tracks();
        let done = self.history.redo(&mut self.document);
        if !done {
            return false;
        }
        let after_tracks = track_copies(self);
        let announced = snapshot_announcement_list(&before_tracks, &after_tracks, Ghost(va), Ghost(self.doc_tracks()));
        append_events(&mut self.collab_outbox, &announced);
        let now = self.track_notes(track);
        self.selected_notes = if by_move {
            select_first_matching(&now, &targets)
        } else {
            select_matching(&now, &targets)
        };
        self.grid_cache_valid = false;
        self.mark_notes_changed();
        true
    }

    /// Commits the edit in progress before save, play or export: the pending
    /// drag is committed and its result picked up, then the pending copy-drag
    /// is committed. Returns whether the notes of the document changed.
    pub fn commit_current_edit(&mut self) -> (committed: bool)
        requires
            old(self).wf(),
        ensures
            final(self).wf(),
            committed == (final(self).doc_tracks() != old(self).doc_tracks()),
            !old(self).spec_has_pending_drag() ==> !committed && *final(self) == *old(self),
            old(self).spec_has_pending_drag() ==> exists|e: Editor, started: bool, copied: bool|
                #[trigger] old(self).drag_commit_result(e, started) && #[trigger] e.after_poll().copy_commit_result(*final(self), copied),
    {
        if !self.is_editing() {
            return false;
        }
        let track = self.current_track;
        let before = self.track_notes(track);
        let started = self.commit_pending_drag();
        let ghost e = *self;
        let _ = self.drain_async_commit();
        let copied = self.commit_pending_copy();
        assert(old(self).drag_commit_result(e, started) && e.after_poll().copy_commit_result(*self, copied));
        proof {
            old(self).lemma_drag_only_current(e, started);
            e.after_poll().lemma_copy_only_current(*self, copied);
            lemma_only_at_changed(old(self).doc_tracks(), self.doc_tracks(), track as int);
        }
        let after = self.track_notes(track);
        !same_notes(&before, &after)
    }

    /// A drag commit changes at most the current track.
    proof fn lemma_drag_only_current(&self, post: Editor, started: bool)
        requires
            self.drag_commit_result(post, started),
        ensures
            only_at(self.doc_tracks(), post.doc_tracks(), self.current_track as int),
            post.current_track == self.current_track,
    {
    }

    /// A copy-drag commit changes at most the current track.
    proof fn lemma_copy_only_current(&self, post: Editor, done: bool)
        requires
            self.copy_commit_result(post, done),
        ensures
            only_at(self.doc_tracks(), post.doc_tracks(), self.current_track as int),
            post.current_track == self.current_track,
    {
    }
}

/// `b` is `a` with at most the track at `t` replaced.
pub open spec fn only_at(a: Seq<Seq<NoteEvent>>, b: Seq<Seq<NoteEvent>>, t: int) -> bool {
    &&& a.len() == b.len()
    &&& forall|u: int| 0 <= u < a.len() && u != t ==> #[trigger] b[u] == a[u]
}

/// When only the track at `t` may differ, the tracks differ exactly when
/// that track does (a missing track reads as empty).
proof fn lemma_only_at_changed(a: Seq<Seq<NoteEvent>>, b: Seq<Seq<NoteEvent>>, t: int)
    requires
        only_at(a, b, t),
    ensures
        (b != a) == ((if 0 <= t < b.len() { b[t] } else { Seq::empty() }) != (if 0 <= t < a.len() { a[t] } else { Seq::empty() })),
{
    if 0 <= t < a.len() {
        if b[t] == a[t] {
            assert(b =~= a);
        }
    } else {
        assert(b =~= a);
    }
}

/// Whether two note lists hold the same notes in the same order.
fn same_notes(a: &Vec<NoteEvent>, b: &Vec<NoteEvent>) -> (r: bool)
    ensures
        r == (a@ == b@),
{
    if a.len() != b.len() {
        return false;
    }
    let mut i: usize = 0;
    while i < a.len()
        invariant
            i <= a@.len(),
            a@.len() == b@.len(),
            forall|j: int| 0 <= j < i ==> a@[j] == b@[j],
        decreases a@.len() - i,
    {
        if a[i] != b[i] {
            assert(a@[i as int] != b@[i as int]);
            return false;
        }
        i = i + 1;
    }
    assert(a@ =~= b@);
    true
}

impl Editor {
    /// A single-note drag of the note at `note_index` by `ds` leaves the
    /// document as it is: the offsets are zero, the index is past the current
    /// track, or every dragged note lands exactly where it was (offsets
    /// clamped away, or no listed note exists).
    pub open spec fn drag_leaves_note(&self, ds: DragState, note_index: usize) -> bool {
        ||| ds.delta_tick == 0 && ds.delta_key == 0
        ||| note_index >= self.current_notes().len()
        ||| drag_sources(self.current_notes(), ds.selected@, self.current_notes().len() as int)
            == entry_notes(self.drag_entries_of(ds))
    }
}

/// A drag takes as many notes as it places.
pub proof fn lemma_sources_entries_len(s: Seq<NoteEvent>, sel: Seq<usize>, dt: i64, dk: i16, max_key: u8, t: usize, k: int)
    ensures
        drag_sources(s, sel, k).len() == drag_entries(s, sel, dt, dk, max_key, t, k).len(),
    decreases k,
{
    if k > 0 {
        lemma_sources_entries_len(s, sel, dt, dk, max_key, t, k - 1);
    }
}

/// The note a single-note drag re-selects: the dragged note `n` moved by the
/// drag offsets (ticks and key clamped), at least one tick long.
pub open spec fn reselect_note(n: NoteEvent, dt: i64, dk: i16, max_key: u8) -> NoteEvent {
    let start = shift_tick(n.start_tick, dt);
    let len: int = if n.end_tick > n.start_tick { n.end_tick - n.start_tick } else { 1 };
    let end = if start + len > u32::MAX { u32::MAX } else { (start + len) as u32 };
    NoteEvent { start_tick: start, end_tick: end, key: dragged_key(n.key, dk, max_key), velocity: n.velocity, channel: n.channel }
}

/// The note a single-note drag re-selects.
fn reselect_of(n: NoteEvent, dt: i64, dk: i16, max_key: u8) -> (m: NoteEvent)
    ensures
        m == reselect_note(n, dt, dk, max_key),
{
    let moved = drag_note(n, dt, dk, max_key);
    let len: u32 = if n.end_tick > n.start_tick { n.end_tick - n.start_tick } else { 1 };
    let end: u32 = if moved.start_tick as u64 + len as u64 > u32::MAX as u64 { u32::MAX } else { moved.start_tick + len };
    NoteEvent { start_tick: moved.start_tick, end_tick: end, key: moved.key, velocity: n.velocity, channel: n.channel }
}

impl Editor {
    /// Ends a single-note drag of the note at `note_index` of the current
    /// track: the notes listed in `ds` move by its offsets (one undo point),
    /// the selection becomes the dragged note at its new place (when the
    /// track holds it), and the move of the dragged note is announced to
    /// collaborators. Returns whether a note moved; when none does (see
    /// `drag_leaves_note`) nothing changes.
    pub fn finalize_dragging(&mut self, note_index: usize, ds: &DragState) -> (moved: bool)
        requires
            old(self).wf(),
        ensures
            final(self).wf(),
            old(self).drag_leaves_note(*ds, note_index) ==> !moved && *final(self) == *old(self),
            !old(self).drag_leaves_note(*ds, note_index) ==> {
                let target = reselect_note(old(self).current_notes()[note_index as int], ds.delta_tick, ds.delta_key, old(self).max_key);
                let m = matching_indices(final(self).current_notes(), seq![target], final(self).current_notes().len() as int);
                &&& moved
                &&& old(self).current_track < old(self).doc_tracks().len()
                &&& final(self).doc_tracks() == old(self).doc_tracks().update(
                    old(self).current_track as int,
                    drag_moved_track(old(self).current_notes(), *ds, old(self).max_key, old(self).current_track),
                )
                &&& final(self).spec_division() == old(self).spec_division()
                &&& old(self).history.pushed_move(
                    final(self).history,
                    old(self).document,
                    drag_sources(old(self).current_notes(), ds.selected@, old(self).current_notes().len() as int),
                    entry_notes(old(self).drag_entries_of(*ds)),
                )
                &&& final(self).selected_notes@ == (if m.len() > 0 { seq![m[0]] } else { Seq::<usize>::empty() })
                &&& final(self).collab_outbox@ == old(self).collab_outbox@.push(CollabEvent::NoteMoved {
                    note: old(self).current_notes()[note_index as int],
                    delta_tick: ds.delta_tick,
                    delta_key: ds.delta_key,
                    track: old(self).current_track,
                })
                &&& *final(self) == (Editor {
                    document: final(self).document,
                    history: final(self).history,
                    selected_notes: final(self).selected_notes,
                    collab_outbox: final(self).collab_outbox,
                    notes_changed: true,
                    note_index_dirty: true,
                    ..*old(self)
                })
            },
    {
        if ds.is_delta_zero() {
            return false;
        }
        let track = self.current_track;
        let notes = self.track_notes(track);
        if note_index >= notes.len() {
            return false;
        }
        let orig = notes[note_index];
        let (idx, entries) = drag_positions(&notes, ds, self.max_key, track);
        let originals = drag_source_notes(&notes, &ds.selected);
        let moved = entry_values(&entries);
        if same_notes(&originals, &moved) {
            return false;
        }
        proof {
            lemma_sources_entries_len(notes@, ds.selected@, ds.delta_tick, ds.delta_key, self.max_key, track, notes@.len() as int);
            if entries@.len() == 0 {
                assert(originals@ =~= moved@);
            }
        }
        self.push_history_move(originals, moved);
        let mut doc = self.document.take().unwrap();
        let ghost d0 = doc@;
        proof {
            assert(keep_where(notes@, |i: int| !idx@.contains(i as usize)) == keep_where(notes@, |i: int| !ds.selected@.contains(i as usize))) by {
                lemma_keep_where_same(notes@, |i: int| !idx@.contains(i as usize), |i: int| !ds.selected@.contains(i as usize));
            }
        }
        let _ = doc.remove_notes_merged(track, &idx);
        let ghost d1 = doc@;
        let _ = insert_entries_into(&mut doc, &entries, track);
        proof {
            assert(doc@ =~= d0.update(
                track as int,
                drag_moved_track(old(self).current_notes(), *ds, old(self).max_key, track),
            )) by {
                assert forall|t: int| 0 <= t < d0.len() implies doc@[t] == d0.update(
                    track as int,
                    drag_moved_track(old(self).current_notes(), *ds, old(self).max_key, track),
                )[t] by {
                    if t != track {
                        lemma_entries_all_to(notes@, ds.selected@, ds.delta_tick, ds.delta_key, old(self).max_key, track, notes@.len() as int);
                        lemma_insert_entries_other(d1[t], entries@, t as usize, track);
                    }
                }
            }
        }
        self.document = Some(doc);
        let target = reselect_of(orig, ds.delta_tick, ds.delta_key, self.max_key);
        let now = self.track_notes(track);
        let mut wanted: Vec<NoteEvent> = Vec::new();
        wanted.push(target);
        assert(wanted@ =~= seq![target]);
        let found = select_matching(&now, &wanted);
        self.selected_notes = Vec::new();
        if found.len() > 0 {
            self.selected_notes.push(found[0]);
        }
        assert(self.selected_notes@ =~= (if found@.len() > 0 { seq![found@[0]] } else { Seq::<usize>::empty() }));
        self.mark_notes_changed();
        self.collab_outbox.push(CollabEvent::NoteMoved { note: orig, delta_tick: ds.delta_tick, delta_key: ds.delta_key, track });
        true
    }
}

/// `keep_where` only depends on the kept positions.
pub proof fn lemma_keep_where_same(s: Seq<NoteEvent>, a: spec_fn(int) -> bool, b: spec_fn(int) -> bool)
    requires
        forall|i: int| #![trigger a(i)] #![trigger b(i)] 0 <= i < s.len() ==> a(i) == b(i),
    ensures
        keep_where(s, a) == keep_where(s, b),
    decreases s.len(),
{
    if s.len() > 0 {
        lemma_keep_where_same(s.drop_last(), a, b);
    }
}

/// Every drag entry is addressed to `t`.
pub proof fn lemma_entries_all_to(s: Seq<NoteEvent>, sel: Seq<usize>, dt: i64, dk: i16, max_key: u8, t: usize, k: int)
    ensures
        forall|j: int| 0 <= j < drag_entries(s, sel, dt, dk, max_key, t, k).len() ==> (#[trigger] drag_entries(
            s,
            sel,
            dt,
            dk,
            max_key,
            t,
            k,
        )[j]).0 == t,
    decreases k,
{
    if k > 0 {
        lemma_entries_all_to(s, sel, dt, dk, max_key, t, k - 1);
        let prev = drag_entries(s, sel, dt, dk, max_key, t, k - 1);
        let cur = drag_entries(s, sel, dt, dk, max_key, t, k);
        assert forall|j: int| 0 <= j < cur.len() implies (#[trigger] cur[j]).0 == t by {
            if j < prev.len() {
                assert(cur[j] == prev[j]);
            }
        }
    }
}

} // verus!
