//! The MIDI document: one note list per track, each kept in ascending start-tick order.

use crate::note::NoteEvent;
use vstd::prelude::*;

verus! {

/// Every note of `s` starts no later than the notes after it.
pub open spec fn sorted_by_start(s: Seq<NoteEvent>) -> bool {
    forall|i: int, j: int| 0 <= i <= j < s.len() ==> s[i].start_tick <= s[j].start_tick
}

/// Position at which a note starting at `tick` is inserted: just after the
/// last note that starts at or before `tick`.
pub open spec fn insert_pos(s: Seq<NoteEvent>, tick: u32) -> int
    decreases s.len(),
{
    if s.len() == 0 {
        0
    } else if s.last().start_tick <= tick {
        s.len() as int
    } else {
        insert_pos(s.drop_last(), tick)
    }
}

/// `s` with `note` inserted at its ordered position.
pub open spec fn insert_sorted(s: Seq<NoteEvent>, note: NoteEvent) -> Seq<NoteEvent> {
    s.insert(insert_pos(s, note.start_tick), note)
}

/// Largest end tick of the notes of `s` (0 for no notes).
pub open spec fn max_end(s: Seq<NoteEvent>) -> u32
    decreases s.len(),
{
    if s.len() == 0 {
        0
    } else {
        let m = max_end(s.drop_last());
        if s.last().end_tick > m {
            s.last().end_tick
        } else {
            m
        }
    }
}

/// Largest end tick over all tracks (0 for an empty document).
pub open spec fn max_end_tracks(t: Seq<Seq<NoteEvent>>) -> u32
    decreases t.len(),
{
    if t.len() == 0 {
        0
    } else {
        let m = max_end_tracks(t.drop_last());
        let e = max_end(t.last());
        if e > m {
            e
        } else {
            m
        }
    }
}

/// Elements of `s` at the positions for which `keep` holds, in order.
pub open spec fn keep_where(s: Seq<NoteEvent>, keep: spec_fn(int) -> bool) -> Seq<NoteEvent>
    decreases s.len(),
{
    if s.len() == 0 {
        Seq::empty()
    } else if keep(s.len() - 1) {
        keep_where(s.drop_last(), keep).push(s.last())
    } else {
        keep_where(s.drop_last(), keep)
    }
}

/// Number of notes over all tracks.
pub open spec fn total_notes(t: Seq<Seq<NoteEvent>>) -> int
    decreases t.len(),
{
    if t.len() == 0 {
        0
    } else {
        total_notes(t.drop_last()) + t.last().len()
    }
}

/// `idx` is strictly increasing and every entry indexes into a list of length `len`.
pub open spec fn strictly_increasing_below(idx: Seq<usize>, len: int) -> bool {
    &&& forall|a: int, b: int| 0 <= a < b < idx.len() ==> idx[a] < idx[b]
    &&& forall|a: int| 0 <= a < idx.len() ==> idx[a] < len
}

/// Facts about the insertion position: later notes start after `tick`, and in a
/// sorted list earlier notes start at or before it.
pub proof fn lemma_insert_pos(s: Seq<NoteEvent>, tick: u32)
    ensures
        0 <= insert_pos(s, tick) <= s.len(),
        forall|j: int| insert_pos(s, tick) <= j < s.len() ==> s[j].start_tick > tick,
        sorted_by_start(s) ==> forall|j: int| 0 <= j < insert_pos(s, tick) ==> s[j].start_tick <= tick,
    decreases s.len(),
{
    if s.len() > 0 {
        if s.last().start_tick > tick {
            let d = s.drop_last();
            lemma_insert_pos(d, tick);
            assert forall|j: int| insert_pos(s, tick) <= j < s.len() implies s[j].start_tick > tick by {
                if j < s.len() - 1 {
                    assert(s[j] == d[j]);
                }
            }
            if sorted_by_start(s) {
                assert(sorted_by_start(d)) by {
                    assert forall|i: int, j: int| 0 <= i <= j < d.len() implies d[i].start_tick <= d[j].start_tick by {
                        assert(d[i] == s[i] && d[j] == s[j]);
                    }
                }
                assert forall|j: int| 0 <= j < insert_pos(s, tick) implies s[j].start_tick <= tick by {
                    assert(s[j] == d[j]);
                }
            }
        } else {
            if sorted_by_start(s) {
                assert forall|j: int| 0 <= j < insert_pos(s, tick) implies s[j].start_tick <= tick by {
                    assert(s[j].start_tick <= s[s.len() - 1].start_tick);
                }
            }
        }
    }
}

/// Inserting at the ordered position keeps a track sorted.
pub proof fn lemma_insert_sorted_keeps_order(s: Seq<NoteEvent>, note: NoteEvent)
    requires
        sorted_by_start(s),
    ensures
        sorted_by_start(insert_sorted(s, note)),
        insert_sorted(s, note).len() == s.len() + 1,
        insert_sorted(s, note).contains(note),
{
    lemma_insert_pos(s, note.start_tick);
    let p = insert_pos(s, note.start_tick);
    let r = insert_sorted(s, note);
    assert(r[p] == note);
    assert forall|i: int, j: int| 0 <= i <= j < r.len() implies r[i].start_tick <= r[j].start_tick by {
        if i < p && j < p {
        } else if i < p && j == p {
        } else if i < p && j > p {
            assert(r[j] == s[j - 1]);
        } else if i == p && j > p {
            assert(r[j] == s[j - 1]);
        } else if i > p {
            assert(r[i] == s[i - 1]);
            assert(r[j] == s[j - 1]);
        }
    }
}

/// Keeping a subset of positions keeps every start tick under a common bound.
pub proof fn lemma_keep_where_bounded(s: Seq<NoteEvent>, keep: spec_fn(int) -> bool, bound: u32)
    requires
        forall|j: int| 0 <= j < s.len() ==> s[j].start_tick <= bound,
    ensures
        forall|k: int| 0 <= k < keep_where(s, keep).len() ==> keep_where(s, keep)[k].start_tick <= bound,
        keep_where(s, keep).len() <= s.len(),
    decreases s.len(),
{
    if s.len() > 0 {
        let d = s.drop_last();
        assert forall|j: int| 0 <= j < d.len() implies d[j].start_tick <= bound by {
            assert(d[j] == s[j]);
        }
        lemma_keep_where_bounded(d, keep, bound);
    }
}

/// Removing notes from a sorted track leaves it sorted.
pub proof fn lemma_keep_where_sorted(s: Seq<NoteEvent>, keep: spec_fn(int) -> bool)
    requires
        sorted_by_start(s),
    ensures
        sorted_by_start(keep_where(s, keep)),
    decreases s.len(),
{
    if s.len() > 0 {
        let d = s.drop_last();
        assert(sorted_by_start(d)) by {
            assert forall|i: int, j: int| 0 <= i <= j < d.len() implies d[i].start_tick <= d[j].start_tick by {
                assert(d[i] == s[i] && d[j] == s[j]);
            }
        }
        lemma_keep_where_sorted(d, keep);
        if keep(s.len() - 1) {
            assert forall|j: int| 0 <= j < d.len() implies d[j].start_tick <= s.last().start_tick by {
                assert(d[j] == s[j]);
            }
            lemma_keep_where_bounded(d, keep, s.last().start_tick);
            let prev = keep_where(d, keep);
            let r = prev.push(s.last());
            assert forall|i: int, j: int| 0 <= i <= j < r.len() implies r[i].start_tick <= r[j].start_tick by {
                if j == r.len() - 1 && i < j {
                    assert(r[i] == prev[i]);
                } else if j < r.len() - 1 {
                    assert(r[i] == prev[i]);
                    assert(r[j] == prev[j]);
                }
            }
        }
    }
}

/// A MIDI document: the PPQN (`division`) and the note list of each track.
pub struct MidiDocument {
    division: u16,
    tracks: Vec<Vec<NoteEvent>>,
}

impl View for MidiDocument {
    type V = Seq<Seq<NoteEvent>>;

    closed spec fn view(&self) -> Seq<Seq<NoteEvent>> {
        self.tracks@.map_values(|t: Vec<NoteEvent>| t@)
    }
}

impl MidiDocument {
    /// The document's PPQN.
    pub closed spec fn div(&self) -> u16 {
        self.division
    }

    /// The document's PPQN.
    pub fn division(&self) -> (d: u16)
        ensures
            d == self.div(),
    {
        self.division
    }

    /// Changes the document's PPQN; the notes are unchanged.
    pub fn set_division(&mut self, division: u16)
        ensures
            final(self).div() == division,
            final(self)@ == old(self)@,
    {
        self.division = division;
    }

    /// Every track is in ascending start-tick order.
    pub open spec fn wf(&self) -> bool {
        &&& self@.len() <= usize::MAX
        &&& forall|t: int| 0 <= t < self@.len() ==> sorted_by_start(#[trigger] self@[t])
    }

    /// A document with `track_count` empty tracks.
    pub fn new(track_count: usize, division: u16) -> (d: Self)
        ensures
            d@ == Seq::new(track_count as nat, |i: int| Seq::<NoteEvent>::empty()),
            d.div() == division,
            d.wf(),
    {
        let mut tracks: Vec<Vec<NoteEvent>> = Vec::new();
        let mut i: usize = 0;
        while i < track_count
            invariant
                i <= track_count,
                tracks@.len() == i,
                forall|j: int| 0 <= j < i ==> (#[trigger] tracks@[j])@ == Seq::<NoteEvent>::empty(),
            decreases track_count - i,
        {
            tracks.push(Vec::new());
            i = i + 1;
        }
        let d = MidiDocument { division, tracks };
        assert(d@ =~= Seq::new(track_count as nat, |i: int| Seq::<NoteEvent>::empty()));
        d
    }

    /// Number of tracks.
    pub fn track_count(&self) -> (n: usize)
        ensures
            n == self@.len(),
    {
        self.tracks.len()
    }

    /// Read access to the note lists of all tracks.
    pub fn tracks(&self) -> (t: &Vec<Vec<NoteEvent>>)
        ensures
            t@.len() == self@.len(),
            forall|i: int| 0 <= i < self@.len() ==> (#[trigger] t@[i])@ == self@[i],
    {
        &self.tracks
    }

    /// Copy of the notes of `track` (empty when the track does not exist).
    pub fn track_notes(&self, track: usize) -> (notes: Vec<NoteEvent>)
        ensures
            notes@ == (if track < self@.len() { self@[track as int] } else { Seq::empty() }),
    {
        let mut out: Vec<NoteEvent> = Vec::new();
        if track < self.tracks.len() {
            let src = &self.tracks[track];
            let mut i: usize = 0;
            while i < src.len()
                invariant
                    i <= src@.len(),
                    out@ == src@.take(i as int),
                decreases src@.len() - i,
            {
                out.push(src[i]);
                i = i + 1;
                assert(out@ =~= src@.take(i as int));
            }
            assert(src@.take(src@.len() as int) =~= src@);
        }
        out
    }

    /// A deep copy of the document.
    pub fn duplicate(&self) -> (d: Self)
        ensures
            d@ == self@,
            d.div() == self.div(),
    {
        let mut tracks: Vec<Vec<NoteEvent>> = Vec::new();
        let mut t: usize = 0;
        while t < self.tracks.len()
            invariant
                t <= self.tracks@.len(),
                tracks@.len() == t,
                forall|j: int| 0 <= j < t ==> (#[trigger] tracks@[j])@ == self.tracks@[j]@,
            decreases self.tracks@.len() - t,
        {
            let copy = self.track_notes(t);
            assert(self@[t as int] == self.tracks@[t as int]@);
            tracks.push(copy);
            t = t + 1;
        }
        let d = MidiDocument { division: self.division, tracks };
        assert(d@ =~= self@);
        d
    }

    /// Ordered position at which a note starting at `tick` goes into `track`.
    fn insert_index(notes: &Vec<NoteEvent>, tick: u32) -> (i: usize)
        ensures
            i == insert_pos(notes@, tick),
            i <= notes@.len(),
    {
        let mut i = notes.len();
        assert(notes@.take(i as int) =~= notes@);
        while i > 0 && notes[i - 1].start_tick > tick
            invariant
                i <= notes@.len(),
                insert_pos(notes@, tick) == insert_pos(notes@.take(i as int), tick),
            decreases i,
        {
            assert(notes@.take(i as int).drop_last() =~= notes@.take(i - 1));
            i = i - 1;
        }
        if i > 0 {
            assert(notes@.take(i as int).last() == notes@[i - 1]);
        }
        i
    }

    /// Inserts `note` into `track` after every note starting at or before it.
    /// Returns `false` (document unchanged) when the track does not exist.
    pub fn insert_note(&mut self, track: usize, note: NoteEvent) -> (inserted: bool)
        ensures
            inserted == (track < old(self)@.len()),
            inserted ==> final(self)@ == old(self)@.update(
                track as int,
                insert_sorted(old(self)@[track as int], note),
            ),
            !inserted ==> final(self)@ == old(self)@,
            final(self).div() == old(self).div(),
            old(self).wf() ==> final(self).wf(),
    {
        if track >= self.tracks.len() {
            return false;
        }
        proof {
            if self.wf() {
                lemma_insert_sorted_keeps_order(self@[track as int], note);
            }
        }
        let pos = Self::insert_index(&self.tracks[track], note.start_tick);
        self.tracks[track].insert(pos, note);
        assert(self@ =~= old(self)@.update(track as int, insert_sorted(old(self)@[track as int], note)));
        true
    }

    /// Removes the note at `index` of `track`, returning it.
    pub fn remove_note(&mut self, track: usize, index: usize) -> (removed: Option<NoteEvent>)
        ensures
            removed is Some == (track < old(self)@.len() && index < old(self)@[track as int].len()),
            removed is Some ==> removed->0 == old(self)@[track as int][index as int]
                && final(self)@ == old(self)@.update(track as int, old(self)@[track as int].remove(index as int)),
            removed is None ==> final(self)@ == old(self)@,
            final(self).div() == old(self).div(),
            old(self).wf() ==> final(self).wf(),
    {
        if track >= self.tracks.len() || index >= self.tracks[track].len() {
            return None;
        }
        let n = self.tracks[track].remove(index);
        assert(self@ =~= old(self)@.update(track as int, old(self)@[track as int].remove(index as int)));
        proof {
            if old(self).wf() {
                let s0 = old(self)@[track as int];
                let r = s0.remove(index as int);
                assert(sorted_by_start(s0));
                assert forall|i: int, j: int| 0 <= i <= j < r.len() implies r[i].start_tick <= r[j].start_tick by {
                    let ii = if i < index { i } else { i + 1 };
                    let jj = if j < index { j } else { j + 1 };
                    assert(r[i] == s0[ii] && r[j] == s0[jj]);
                }
                assert forall|t: int| 0 <= t < self@.len() implies sorted_by_start(#[trigger] self@[t]) by {
                    if t != track {
                        assert(self@[t] == old(self)@[t]);
                    }
                }
            }
        }
        Some(n)
    }

    /// Removes from `track` the notes at the (strictly increasing) positions `indices`,
    /// returning how many were removed.
    pub fn remove_notes_merged(&mut self, track: usize, indices: &Vec<usize>) -> (removed: usize)
        requires
            track < old(self)@.len(),
            strictly_increasing_below(indices@, old(self)@[track as int].len() as int),
        ensures
            removed == indices@.len(),
            final(self)@[track as int].len() == old(self)@[track as int].len() - removed,
            final(self)@ == old(self)@.update(
                track as int,
                keep_where(old(self)@[track as int], |i: int| !indices@.contains(i as usize)),
            ),
            final(self).div() == old(self).div(),
            old(self).wf() ==> final(self).wf(),
    {
        let ghost keep = |i: int| !indices@.contains(i as usize);
        let src = &self.tracks[track];
        let mut out: Vec<NoteEvent> = Vec::new();
        let mut p: usize = 0;
        let mut i: usize = 0;
        while i < src.len()
            invariant
                i <= src@.len(),
                p <= indices@.len(),
                strictly_increasing_below(indices@, src@.len() as int),
                forall|q: int| 0 <= q < p ==> indices@[q] < i,
                forall|q: int| p <= q < indices@.len() ==> indices@[q] >= i,
                out@ == keep_where(src@.take(i as int), keep),
                out@.len() == i - p,
                keep == (|i: int| !indices@.contains(i as usize)),
            decreases src@.len() - i,
        {
            let skip = p < indices.len() && indices[p] == i;
            proof {
                assert(src@.take(i + 1).drop_last() =~= src@.take(i as int));
                assert(src@.take(i + 1).last() == src@[i as int]);
                if !skip {
                    assert forall|q: int| 0 <= q < indices@.len() implies indices@[q] != i by {
                        if q > p {
                            assert(indices@[p as int] < indices@[q]);
                        }
                    }
                    assert(!indices@.contains(i));
                } else {
                    assert(indices@.contains(i));
                }
            }
            if skip {
                p = p + 1;
            } else {
                out.push(src[i]);
            }
            i = i + 1;
        }
        proof {
            assert(src@.take(src@.len() as int) =~= src@);
            if p < indices@.len() {
                assert(indices@[p as int] < src@.len());
            }
        }
        self.tracks[track] = out;
        assert(self@ =~= old(self)@.update(track as int, keep_where(old(self)@[track as int], keep)));
        proof {
            if old(self).wf() {
                assert(sorted_by_start(old(self)@[track as int]));
                lemma_keep_where_sorted(old(self)@[track as int], keep);
                assert forall|t: int| 0 <= t < self@.len() implies sorted_by_start(#[trigger] self@[t]) by {
                    if t != track {
                        assert(self@[t] == old(self)@[t]);
                    }
                }
            }
        }
        p
    }

    /// Replaces the notes of an existing track.
    pub fn set_track_notes(&mut self, track: usize, notes: Vec<NoteEvent>)
        requires
            track < old(self)@.len(),
        ensures
            final(self)@ == old(self)@.update(track as int, notes@),
            final(self).div() == old(self).div(),
    {
        self.tracks[track] = notes;
        assert(self@ =~= old(self)@.update(track as int, notes@));
    }

    /// Whether every track is in ascending start-tick order.
    pub fn is_well_formed(&self) -> (b: bool)
        ensures
            b == self.wf(),
    {
        assert(self@.len() == self.tracks@.len());
        let mut t: usize = 0;
        while t < self.tracks.len()
            invariant
                t <= self@.len(),
                self@.len() == self.tracks@.len(),
                forall|u: int| 0 <= u < t ==> sorted_by_start(#[trigger] self@[u]),
            decreases self@.len() - t,
        {
            let notes = &self.tracks[t];
            assert(notes@ == self@[t as int]);
            let mut i: usize = 1;
            if notes.len() > 0 {
                while i < notes.len()
                    invariant
                        1 <= i <= notes@.len(),
                        t < self@.len(),
                        notes@ == self@[t as int],
                        sorted_by_start(notes@.take(i as int)),
                    decreases notes@.len() - i,
                {
                    if notes[i - 1].start_tick > notes[i].start_tick {
                        assert(!sorted_by_start(self@[t as int])) by {
                            assert(notes@[i - 1].start_tick > notes@[i as int].start_tick);
                        }
                        return false;
                    }
                    proof {
                        let p = notes@.take(i as int);
                        let q = notes@.take(i + 1);
                        assert forall|a: int, b: int| 0 <= a <= b < q.len() implies q[a].start_tick <= q[b].start_tick by {
                            if b < i {
                                assert(q[a] == p[a] && q[b] == p[b]);
                            } else if a < b {
                                assert(q[a] == p[a]);
                                assert(p[a].start_tick <= p[i - 1].start_tick);
                            }
                        }
                    }
                    i = i + 1;
                }
                assert(notes@.take(notes@.len() as int) =~= notes@);
            }
            t = t + 1;
        }
        true
    }

    /// Largest end tick over all notes of the document (0 when it holds none).
    pub fn tracks_max_end_tick(&self) -> (m: u32)
        ensures
            m == max_end_tracks(self@),
    {
        let mut m: u32 = 0;
        let mut t: usize = 0;
        while t < self.tracks.len()
            invariant
                t <= self@.len(),
                self@.len() == self.tracks@.len(),
                m == max_end_tracks(self@.take(t as int)),
            decreases self@.len() - t,
        {
            let notes = &self.tracks[t];
            assert(notes@ == self@[t as int]);
            let mut e: u32 = 0;
            let mut i: usize = 0;
            while i < notes.len()
                invariant
                    i <= notes@.len(),
                    e == max_end(notes@.take(i as int)),
                decreases notes@.len() - i,
            {
                assert(notes@.take(i + 1).drop_last() =~= notes@.take(i as int));
                if notes[i].end_tick > e {
                    e = notes[i].end_tick;
                }
                i = i + 1;
            }
            assert(notes@.take(notes@.len() as int) =~= notes@);
            assert(self@.take(t + 1).drop_last() =~= self@.take(t as int));
            assert(self@.take(t + 1).last() == self@[t as int]);
            if e > m {
                m = e;
            }
            t = t + 1;
        }
        assert(self@.take(self@.len() as int) =~= self@);
        m
    }
}

} // verus!
