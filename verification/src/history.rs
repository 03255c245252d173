//! Undo / redo history of document snapshots; a snapshot taken before a move
//! also records which note values the move took and where it put them.

use crate::document::{sorted_by_start, MidiDocument};
use crate::note::NoteEvent;
use vstd::prelude::*;

verus! {

/// The observable state of an (optional) document: its PPQN and its tracks.
pub type DocState = Option<(u16, Seq<Seq<NoteEvent>>)>;

/// State of an optional document.
pub open spec fn state_of(d: Option<MidiDocument>) -> DocState {
    match d {
        Some(doc) => Some((doc.div(), doc@)),
        None => None,
    }
}

/// A stored document state is that of a well-formed document: its track
/// count fits in `usize` and every track is sorted.
pub open spec fn state_wf(s: DocState) -> bool {
    match s {
        Some((_, t)) => t.len() <= usize::MAX && forall|i: int| 0 <= i < t.len() ==> sorted_by_start(#[trigger] t[i]),
        None => true,
    }
}

/// Deep copy of an optional document.
pub fn copy_doc(d: &Option<MidiDocument>) -> (c: Option<MidiDocument>)
    ensures
        state_of(c) == state_of(*d),
{
    match d {
        Some(doc) => Some(doc.duplicate()),
        None => None,
    }
}

/// The note values a move took (`originals`) and the values it put in their
/// place (`moved`).
pub type MoveNotes = Option<(Seq<NoteEvent>, Seq<NoteEvent>)>;

/// A history entry: a document snapshot and, for a move, its notes.
pub type Entry = (Option<MidiDocument>, Option<(Vec<NoteEvent>, Vec<NoteEvent>)>);

/// Move notes of an entry.
pub open spec fn moves_of(e: Entry) -> MoveNotes {
    match e.1 {
        Some((o, m)) => Some((o@, m@)),
        None => None,
    }
}

/// Copy of a list of notes.
fn copy_notes(v: &Vec<NoteEvent>) -> (c: Vec<NoteEvent>)
    ensures
        c@ == v@,
{
    let mut c: Vec<NoteEvent> = Vec::new();
    let mut i: usize = 0;
    while i < v.len()
        invariant
            i <= v@.len(),
            c@ == v@.take(i as int),
        decreases v@.len() - i,
    {
        c.push(v[i]);
        i = i + 1;
        assert(c@ =~= v@.take(i as int));
    }
    assert(v@.take(i as int) =~= v@);
    c
}

/// Undo and redo stacks; the last element of each stack is the most recent.
pub struct History {
    undo_stack: Vec<Entry>,
    redo_stack: Vec<Entry>,
}

impl History {
    /// States that undo would restore, oldest first.
    pub closed spec fn undo_states(&self) -> Seq<DocState> {
        self.undo_stack@.map_values(|e: Entry| state_of(e.0))
    }

    /// States that redo would restore, oldest first.
    pub closed spec fn redo_states(&self) -> Seq<DocState> {
        self.redo_stack@.map_values(|e: Entry| state_of(e.0))
    }

    /// Move notes of the undo entries, oldest first (`None`: not a move).
    pub closed spec fn undo_moves(&self) -> Seq<MoveNotes> {
        self.undo_stack@.map_values(|e: Entry| moves_of(e))
    }

    /// Move notes of the redo entries, oldest first (`None`: not a move).
    pub closed spec fn redo_moves(&self) -> Seq<MoveNotes> {
        self.redo_stack@.map_values(|e: Entry| moves_of(e))
    }

    /// Move notes of the entry undo would restore (`None` without one).
    pub open spec fn undo_move_back(&self) -> MoveNotes {
        if self.undo_moves().len() > 0 {
            self.undo_moves().last()
        } else {
            None
        }
    }

    /// Move notes of the entry redo would restore (`None` without one).
    pub open spec fn redo_move_back(&self) -> MoveNotes {
        if self.redo_moves().len() > 0 {
            self.redo_moves().last()
        } else {
            None
        }
    }

    /// `post` is this history with an undo point for document `d` recorded
    /// (not a move) and the redo stack dropped.
    pub open spec fn pushed(&self, post: History, d: Option<MidiDocument>) -> bool {
        &&& post.undo_states() == self.undo_states().push(state_of(d))
        &&& post.undo_moves() == self.undo_moves().push(None)
        &&& post.redo_states().len() == 0
        &&& post.redo_moves().len() == 0
    }

    /// `post` is this history with the undo point of a move recorded: document
    /// `d`, the note values `originals` the move took and `moved` it put; the
    /// redo stack is dropped.
    pub open spec fn pushed_move(&self, post: History, d: Option<MidiDocument>, originals: Seq<NoteEvent>, moved: Seq<NoteEvent>) -> bool {
        &&& post.undo_states() == self.undo_states().push(state_of(d))
        &&& post.undo_moves() == self.undo_moves().push(Some((originals, moved)))
        &&& post.redo_states().len() == 0
        &&& post.redo_moves().len() == 0
    }

    /// `post` is this history with only its redo stack dropped (an undo point
    /// recorded, then dropped again because the edit changed nothing).
    pub open spec fn redo_dropped(&self, post: History) -> bool {
        &&& post.undo_states() == self.undo_states()
        &&& post.undo_moves() == self.undo_moves()
        &&& post.redo_states().len() == 0
        &&& post.redo_moves().len() == 0
    }

    /// Every stored state has sorted tracks.
    pub open spec fn wf(&self) -> bool {
        &&& forall|i: int| 0 <= i < self.undo_states().len() ==> state_wf(#[trigger] self.undo_states()[i])
        &&& forall|i: int| 0 <= i < self.redo_states().len() ==> state_wf(#[trigger] self.redo_states()[i])
    }

    /// An empty history.
    pub fn new() -> (h: Self)
        ensures
            h.undo_states() == Seq::<DocState>::empty(),
            h.redo_states() == Seq::<DocState>::empty(),
            h.undo_moves() == Seq::<MoveNotes>::empty(),
            h.redo_moves() == Seq::<MoveNotes>::empty(),
            h.wf(),
    {
        let h = History { undo_stack: Vec::new(), redo_stack: Vec::new() };
        assert(h.undo_states() =~= Seq::<DocState>::empty());
        assert(h.redo_states() =~= Seq::<DocState>::empty());
        assert(h.undo_moves() =~= Seq::<MoveNotes>::empty());
        assert(h.redo_moves() =~= Seq::<MoveNotes>::empty());
        h
    }

    /// Whether every stored state has sorted tracks.
    pub fn is_well_formed(&self) -> (b: bool)
        ensures
            b == self.wf(),
    {
        let u = Self::stack_well_formed(&self.undo_stack);
        let r = Self::stack_well_formed(&self.redo_stack);
        proof {
            if !u {
                let i = choose|i: int| 0 <= i < self.undo_stack@.len() && !state_wf(#[trigger] state_of(self.undo_stack@[i].0));
                assert(self.undo_states()[i] == state_of(self.undo_stack@[i].0));
            }
            if !r {
                let i = choose|i: int| 0 <= i < self.redo_stack@.len() && !state_wf(#[trigger] state_of(self.redo_stack@[i].0));
                assert(self.redo_states()[i] == state_of(self.redo_stack@[i].0));
            }
            if u && r {
                assert forall|i: int| 0 <= i < self.undo_states().len() implies state_wf(#[trigger] self.undo_states()[i]) by {
                    assert(self.undo_states()[i] == state_of(self.undo_stack@[i].0));
                }
                assert forall|i: int| 0 <= i < self.redo_states().len() implies state_wf(#[trigger] self.redo_states()[i]) by {
                    assert(self.redo_states()[i] == state_of(self.redo_stack@[i].0));
                }
            }
        }
        u && r
    }

    /// Whether every document of `stack` is well formed.
    fn stack_well_formed(stack: &Vec<Entry>) -> (b: bool)
        ensures
            b == (forall|i: int| 0 <= i < stack@.len() ==> state_wf(#[trigger] state_of(stack@[i].0))),
    {
        let mut i: usize = 0;
        while i < stack.len()
            invariant
                i <= stack@.len(),
                forall|j: int| 0 <= j < i ==> state_wf(#[trigger] state_of(stack@[j].0)),
            decreases stack@.len() - i,
        {
            match &stack[i].0 {
                None => {},
                Some(d) => {
                    if !d.is_well_formed() {
                        assert(!state_wf(state_of(stack@[i as int].0)));
                        return false;
                    }
                },
            }
            i = i + 1;
        }
        true
    }

    /// Whether there is a state to undo to.
    pub fn can_undo(&self) -> (b: bool)
        ensures
            b == (self.undo_states().len() > 0),
    {
        self.undo_stack.len() > 0
    }

    /// Whether there is a state to redo to.
    pub fn can_redo(&self) -> (b: bool)
        ensures
            b == (self.redo_states().len() > 0),
    {
        self.redo_stack.len() > 0
    }

    /// Records `current` as an undo point; a new edit discards the redo stack.
    pub fn push(&mut self, current: &Option<MidiDocument>)
        requires
            old(self).wf(),
            state_wf(state_of(*current)),
        ensures
            final(self).undo_states() == old(self).undo_states().push(state_of(*current)),
            final(self).redo_states() == Seq::<DocState>::empty(),
            final(self).undo_moves() == old(self).undo_moves().push(None),
            final(self).redo_moves() == Seq::<MoveNotes>::empty(),
            final(self).wf(),
    {
        let snap = copy_doc(current);
        self.undo_stack.push((snap, None));
        self.redo_stack.clear();
        assert(self.undo_states() =~= old(self).undo_states().push(state_of(*current)));
        assert(self.redo_states() =~= Seq::<DocState>::empty());
        assert(self.undo_moves() =~= old(self).undo_moves().push(None));
        assert(self.redo_moves() =~= Seq::<MoveNotes>::empty());
    }

    /// Records `current` as the undo point of a move that takes the note
    /// values `originals` and puts `moved` in their place.
    pub fn push_move(&mut self, current: &Option<MidiDocument>, originals: Vec<NoteEvent>, moved: Vec<NoteEvent>)
        requires
            old(self).wf(),
            state_wf(state_of(*current)),
        ensures
            final(self).undo_states() == old(self).undo_states().push(state_of(*current)),
            final(self).redo_states() == Seq::<DocState>::empty(),
            final(self).undo_moves() == old(self).undo_moves().push(Some((originals@, moved@))),
            final(self).redo_moves() == Seq::<MoveNotes>::empty(),
            final(self).wf(),
    {
        let snap = copy_doc(current);
        let ghost o = originals@;
        let ghost m = moved@;
        self.undo_stack.push((snap, Some((originals, moved))));
        self.redo_stack.clear();
        assert(self.undo_states() =~= old(self).undo_states().push(state_of(*current)));
        assert(self.redo_states() =~= Seq::<DocState>::empty());
        assert(self.undo_moves() =~= old(self).undo_moves().push(Some((o, m))));
        assert(self.redo_moves() =~= Seq::<MoveNotes>::empty());
    }

    /// Move notes of the entry undo would restore.
    pub fn last_undo_move(&self) -> (r: Option<(Vec<NoteEvent>, Vec<NoteEvent>)>)
        ensures
            self.undo_move_back() == match r {
                Some((o, m)) => Some((o@, m@)),
                None => None,
            },
    {
        let n = self.undo_stack.len();
        if n == 0 {
            return None;
        }
        assert(self.undo_moves().last() == moves_of(self.undo_stack@[n - 1]));
        match &self.undo_stack[n - 1].1 {
            None => None,
            Some((o, m)) => Some((copy_notes(o), copy_notes(m))),
        }
    }

    /// Move notes of the entry redo would restore.
    pub fn last_redo_move(&self) -> (r: Option<(Vec<NoteEvent>, Vec<NoteEvent>)>)
        ensures
            self.redo_move_back() == match r {
                Some((o, m)) => Some((o@, m@)),
                None => None,
            },
    {
        let n = self.redo_stack.len();
        if n == 0 {
            return None;
        }
        assert(self.redo_moves().last() == moves_of(self.redo_stack@[n - 1]));
        match &self.redo_stack[n - 1].1 {
            None => None,
            Some((o, m)) => Some((copy_notes(o), copy_notes(m))),
        }
    }

    /// Drops the most recent undo point (an edit that changed nothing).
    pub fn discard_last(&mut self)
        ensures
            final(self).undo_states() == (if old(self).undo_states().len() > 0 {
                old(self).undo_states().drop_last()
            } else {
                old(self).undo_states()
            }),
            final(self).undo_moves() == (if old(self).undo_moves().len() > 0 {
                old(self).undo_moves().drop_last()
            } else {
                old(self).undo_moves()
            }),
            final(self).redo_states() == old(self).redo_states(),
            final(self).redo_moves() == old(self).redo_moves(),
            old(self).wf() ==> final(self).wf(),
    {
        if self.undo_stack.len() > 0 {
            let _ = self.undo_stack.pop();
            assert(self.undo_states() =~= old(self).undo_states().drop_last());
            assert(self.undo_moves() =~= old(self).undo_moves().drop_last());
            proof {
                if old(self).wf() {
                    assert forall|i: int| 0 <= i < self.undo_states().len() implies state_wf(#[trigger] self.undo_states()[i]) by {
                        assert(self.undo_states()[i] == old(self).undo_states()[i]);
                    }
                }
            }
        }
    }

    /// Restores the most recent undo point into `current`, keeping the replaced
    /// state for redo (with the same move notes). Returns `false` (nothing
    /// changed) when there is none.
    pub fn undo(&mut self, current: &mut Option<MidiDocument>) -> (done: bool)
        requires
            old(self).wf(),
            state_wf(state_of(*old(current))),
        ensures
            done == (old(self).undo_states().len() > 0),
            done ==> state_of(*final(current)) == old(self).undo_states().last()
                && final(self).undo_states() == old(self).undo_states().drop_last()
                && final(self).redo_states() == old(self).redo_states().push(state_of(*old(current)))
                && final(self).undo_moves() == old(self).undo_moves().drop_last()
                && final(self).redo_moves() == old(self).redo_moves().push(old(self).undo_moves().last()),
            !done ==> *final(current) == *old(current) && *final(self) == *old(self),
            final(self).wf(),
            state_wf(state_of(*final(current))),
    {
        if self.undo_stack.len() == 0 {
            return false;
        }
        let prev = self.undo_stack.pop().unwrap();
        proof {
            assert(old(self).undo_states()[old(self).undo_states().len() - 1] == state_of(prev.0));
            assert(old(self).undo_moves()[old(self).undo_moves().len() - 1] == moves_of(prev));
        }
        let (doc, moves) = prev;
        let mut cur = doc;
        std::mem::swap(current, &mut cur);
        self.redo_stack.push((cur, moves));
        assert(self.undo_states() =~= old(self).undo_states().drop_last());
        assert(self.redo_states() =~= old(self).redo_states().push(state_of(*old(current))));
        assert(self.undo_moves() =~= old(self).undo_moves().drop_last());
        assert(self.redo_moves() =~= old(self).redo_moves().push(old(self).undo_moves().last()));
        true
    }

    /// Re-applies the most recently undone state into `current`, keeping the
    /// replaced state for undo (with the same move notes). Returns `false`
    /// (nothing changed) when there is none.
    pub fn redo(&mut self, current: &mut Option<MidiDocument>) -> (done: bool)
        requires
            old(self).wf(),
            state_wf(state_of(*old(current))),
        ensures
            done == (old(self).redo_states().len() > 0),
            done ==> state_of(*final(current)) == old(self).redo_states().last()
                && final(self).redo_states() == old(self).redo_states().drop_last()
                && final(self).undo_states() == old(self).undo_states().push(state_of(*old(current)))
                && final(self).redo_moves() == old(self).redo_moves().drop_last()
                && final(self).undo_moves() == old(self).undo_moves().push(old(self).redo_moves().last()),
            !done ==> *final(current) == *old(current) && *final(self) == *old(self),
            final(self).wf(),
            state_wf(state_of(*final(current))),
    {
        if self.redo_stack.len() == 0 {
            return false;
        }
        let next = self.redo_stack.pop().unwrap();
        proof {
            assert(old(self).redo_states()[old(self).redo_states().len() - 1] == state_of(next.0));
            assert(old(self).redo_moves()[old(self).redo_moves().len() - 1] == moves_of(next));
        }
        let (doc, moves) = next;
        let mut cur = doc;
        std::mem::swap(current, &mut cur);
        self.undo_stack.push((cur, moves));
        assert(self.redo_states() =~= old(self).redo_states().drop_last());
        assert(self.undo_states() =~= old(self).undo_states().push(state_of(*old(current))));
        assert(self.redo_moves() =~= old(self).redo_moves().drop_last());
        assert(self.undo_moves() =~= old(self).undo_moves().push(old(self).redo_moves().last()));
        true
    }
}

} // verus!
