//! The editor state and its basic operations: modifier keys, remote cursors,
//! history, pending drags and their commit.

use crate::document::{total_notes, MidiDocument};
use crate::history::{state_of, History};
use crate::note::NoteEvent;
use crate::selection::ArrangeSelection;
use vstd::prelude::*;
use vstd::string::StringExecFns;

verus! {

/// Highest key of the default keyboard (128 visible keys).
pub const DEFAULT_MAX_KEY: u8 = 127;

/// A batch drag of selected piano-roll notes waiting to be committed.
pub struct DragState {
    /// Indices (into the current track) of the dragged notes.
    pub selected: Vec<usize>,
    /// Tick offset of the drag.
    pub delta_tick: i64,
    /// Key offset of the drag.
    pub delta_key: i16,
}

impl DragState {
    /// A drag of `selected` by the given offsets.
    pub fn new(selected: Vec<usize>, delta_tick: i64, delta_key: i16) -> (d: Self)
        ensures
            d.selected@ == selected@,
            d.delta_tick == delta_tick,
            d.delta_key == delta_key,
    {
        DragState { selected, delta_tick, delta_key }
    }

    /// Whether the drag moves nothing.
    pub fn is_delta_zero(&self) -> (b: bool)
        ensures
            b == (self.delta_tick == 0 && self.delta_key == 0),
    {
        self.delta_tick == 0 && self.delta_key == 0
    }
}

/// A local edit announced to collaborators.
#[derive(Clone, Copy, PartialEq, Eq, Debug, Structural)]
pub enum CollabEvent {
    /// `note` (as it was before the move) moved by the given offsets in `track`.
    NoteMoved { note: NoteEvent, delta_tick: i64, delta_key: i16, track: usize },
    /// `note` added to `track`.
    NoteAdded { note: NoteEvent, track: usize },
    /// `note` deleted from `track`.
    NoteDeleted { note: NoteEvent, track: usize },
}

/// Pointer of a remote collaborator, in screen pixels.
pub struct RemoteCursor {
    pub user_id: String,
    pub x: i32,
    pub y: i32,
    pub color: String,
    pub username: String,
}

/// Whether a cursor belongs to a user other than `id`.
pub open spec fn other_user(id: Seq<char>) -> spec_fn(RemoteCursor) -> bool {
    |r: RemoteCursor| r.user_id@ != id
}

/// Cursors whose user is not `id`.
pub open spec fn cursors_without(c: Seq<RemoteCursor>, id: Seq<char>) -> Seq<RemoteCursor> {
    c.filter(other_user(id))
}

/// Position of `t` in the visual order: the first index holding `t`.
pub open spec fn is_first_index(order: Seq<usize>, t: usize, i: int) -> bool {
    &&& 0 <= i < order.len()
    &&& order[i] == t
    &&& forall|j: int| 0 <= j < i ==> order[j] != t
}

/// Visual position (sidebar row) of document track `t`; `t` itself when the
/// visual order does not list it.
pub open spec fn visual_of(order: Seq<usize>, t: usize) -> usize {
    if exists|i: int| is_first_index(order, t, i) {
        (choose|i: int| is_first_index(order, t, i)) as usize
    } else {
        t
    }
}

/// Document track shown at visual row `v`; `v` itself past the end of the order.
pub open spec fn doc_track_at(order: Seq<usize>, v: usize) -> usize {
    if v < order.len() {
        order[v as int]
    } else {
        v
    }
}

/// The editor: document, track order, selections, history and interaction flags.
pub struct Editor {
    /// The document (single source of truth for notes); `None` before a project is loaded.
    pub document: Option<MidiDocument>,
    /// Document track index shown at each visual row.
    pub track_visual_order: Vec<usize>,
    /// Document track edited in the piano roll.
    pub current_track: usize,
    /// Selection of the arrangement view.
    pub arrange_selection: ArrangeSelection,
    /// Selection of the piano roll: indices into the current track.
    pub selected_notes: Vec<usize>,
    /// Tick at which pasted notes are anchored (the playback indicator).
    pub playback_tick: u32,
    /// Highest key that edits may produce.
    pub max_key: u8,
    /// Undo / redo history of the document.
    pub history: History,
    /// Batch drag awaiting commit.
    pub pending_drag_state: Option<DragState>,
    /// Batch copy-drag awaiting commit.
    pub pending_copy_drag_state: Option<DragState>,
    /// Result (modified note count) of a started commit, not yet polled.
    pub async_commit: Option<usize>,
    /// Whether an earlier remote selection locks the local one (remote wins).
    pub local_selection_locked: bool,
    /// Remote collaborators' pointers, one per user.
    pub remote_cursors: Vec<RemoteCursor>,
    /// Ctrl key state reported by the window.
    pub ctrl_pressed: bool,
    /// Shift key state reported by the window.
    pub shift_pressed: bool,
    /// Notes (or their ghosts) changed: the note layer must be redrawn.
    pub notes_changed: bool,
    /// The spatial note index must be rebuilt.
    pub note_index_dirty: bool,
    /// Whether the cached grid drawing is still valid.
    pub grid_cache_valid: bool,
    /// Edits to announce to collaborators, oldest first; the host sends them
    /// and clears the list.
    pub collab_outbox: Vec<CollabEvent>,
}

impl Editor {
    /// The document and the history hold sorted tracks only.
    pub open spec fn wf(&self) -> bool {
        &&& (self.document matches Some(d) ==> d.wf())
        &&& self.history.wf()
    }

    /// Tracks of the document (none without a document).
    pub open spec fn doc_tracks(&self) -> Seq<Seq<NoteEvent>> {
        match self.document {
            Some(d) => d@,
            None => Seq::empty(),
        }
    }

    /// Notes of document track `t` (empty when it does not exist).
    pub open spec fn track_of(&self, t: int) -> Seq<NoteEvent> {
        if 0 <= t < self.doc_tracks().len() {
            self.doc_tracks()[t]
        } else {
            Seq::empty()
        }
    }

    /// Visual row of document track `t`.
    pub open spec fn visual(&self, t: usize) -> usize {
        visual_of(self.track_visual_order@, t)
    }

    /// Document track of visual row `v`.
    pub open spec fn doc_track(&self, v: usize) -> usize {
        doc_track_at(self.track_visual_order@, v)
    }

    /// Whether a batch drag, copy-drag or commit is pending.
    pub open spec fn spec_has_pending_drag(&self) -> bool {
        self.pending_drag_state is Some || self.pending_copy_drag_state is Some || self.async_commit is Some
    }

    /// Whether the document and every stored history state have sorted tracks
    /// (the condition the editing operations rely on).
    pub fn is_well_formed(&self) -> (b: bool)
        ensures
            b == self.wf(),
    {
        let doc_ok = match &self.document {
            None => true,
            Some(d) => d.is_well_formed(),
        };
        doc_ok && self.history.is_well_formed()
    }

    /// Number of notes in the document, when it fits in `usize`.
    pub fn total_note_count(&self) -> (n: Option<usize>)
        ensures
            n is Some <==> total_notes(self.doc_tracks()) <= usize::MAX,
            n matches Some(v) ==> v == total_notes(self.doc_tracks()),
    {
        let doc = match &self.document {
            None => return Some(0),
            Some(d) => d,
        };
        let tracks = doc.tracks();
        let mut sum: usize = 0;
        let mut t: usize = 0;
        while t < tracks.len()
            invariant
                t <= tracks@.len(),
                tracks@.len() == self.doc_tracks().len(),
                forall|i: int| 0 <= i < self.doc_tracks().len() ==> (#[trigger] tracks@[i])@ == self.doc_tracks()[i],
                sum == total_notes(self.doc_tracks().take(t as int)),
            decreases tracks@.len() - t,
        {
            let ghost d = self.doc_tracks();
            assert(d.take(t + 1).drop_last() =~= d.take(t as int));
            proof {
                lemma_total_prefix(d, t + 1);
            }
            let len = tracks[t].len();
            if sum > usize::MAX - len {
                proof {
                    lemma_total_prefix(d, t + 1);
                }
                return None;
            }
            sum = sum + len;
            t = t + 1;
        }
        assert(self.doc_tracks().take(t as int) =~= self.doc_tracks());
        Some(sum)
    }

    /// A fresh editor: no document, empty selections and history, keys released.
    pub fn new() -> (e: Self)
        ensures
            e.document is None,
            e.track_visual_order@ == Seq::<usize>::empty(),
            e.current_track == 0,
            e.arrange_selection.spec_is_empty(),
            e.selected_notes@ == Seq::<usize>::empty(),
            e.playback_tick == 0,
            e.max_key == DEFAULT_MAX_KEY,
            e.history.undo_states().len() == 0,
            e.history.redo_states().len() == 0,
            e.history.undo_moves().len() == 0,
            e.history.redo_moves().len() == 0,
            !e.spec_has_pending_drag(),
            !e.local_selection_locked,
            e.remote_cursors@.len() == 0,
            !e.ctrl_pressed,
            !e.shift_pressed,
            !e.notes_changed,
            !e.note_index_dirty,
            e.grid_cache_valid,
            e.collab_outbox@.len() == 0,
            e.wf(),
    {
        Editor {
            document: None,
            track_visual_order: Vec::new(),
            current_track: 0,
            arrange_selection: ArrangeSelection::new(),
            selected_notes: Vec::new(),
            playback_tick: 0,
            max_key: DEFAULT_MAX_KEY,
            history: History::new(),
            pending_drag_state: None,
            pending_copy_drag_state: None,
            async_commit: None,
            local_selection_locked: false,
            remote_cursors: Vec::new(),
            ctrl_pressed: false,
            shift_pressed: false,
            notes_changed: false,
            note_index_dirty: false,
            grid_cache_valid: true,
            collab_outbox: Vec::new(),
        }
    }

    /// Records the Ctrl key state (window-level channel).
    pub fn set_ctrl_pressed(&mut self, pressed: bool)
        ensures
            *final(self) == (Editor { ctrl_pressed: pressed, ..*old(self) }),
    {
        self.ctrl_pressed = pressed;
    }

    /// Whether Ctrl is held (window-level channel).
    pub fn ctrl_pressed(&self) -> (b: bool)
        ensures
            b == self.ctrl_pressed,
    {
        self.ctrl_pressed
    }

    /// Records the Shift key state (window-level channel).
    pub fn set_shift_pressed(&mut self, pressed: bool)
        ensures
            *final(self) == (Editor { shift_pressed: pressed, ..*old(self) }),
    {
        self.shift_pressed = pressed;
    }

    /// Whether Shift is held (window-level channel).
    pub fn shift_pressed(&self) -> (b: bool)
        ensures
            b == self.shift_pressed,
    {
        self.shift_pressed
    }

    /// Sets (or replaces) the pointer of remote user `user_id`.
    pub fn update_remote_cursor(&mut self, user_id: String, x: i32, y: i32, color: String, username: String)
        ensures
            final(self).remote_cursors@ == cursors_without(old(self).remote_cursors@, user_id@).push(
                RemoteCursor { user_id, x, y, color, username },
            ),
            *final(self) == (Editor { remote_cursors: final(self).remote_cursors, ..*old(self) }),
    {
        Self::drop_cursor(&mut self.remote_cursors, &user_id);
        self.remote_cursors.push(RemoteCursor { user_id, x, y, color, username });
    }

    /// Removes the pointer of remote user `user_id` and invalidates the grid drawing.
    pub fn remove_remote_cursor(&mut self, user_id: &str)
        ensures
            final(self).remote_cursors@ == cursors_without(old(self).remote_cursors@, user_id@),
            *final(self) == (Editor {
                remote_cursors: final(self).remote_cursors,
                grid_cache_valid: false,
                ..*old(self)
            }),
    {
        let id = String::from_str(user_id);
        Self::drop_cursor(&mut self.remote_cursors, &id);
        self.grid_cache_valid = false;
    }

    /// Keeps the cursors whose user is not `id`.
    fn drop_cursor(cursors: &mut Vec<RemoteCursor>, id: &String)
        ensures
            final(cursors)@ == cursors_without(old(cursors)@, id@),
    {
        let ghost orig = cursors@;
        let ghost pred = other_user(id@);
        let mut rest: Vec<RemoteCursor> = Vec::new();
        std::mem::swap(cursors, &mut rest);
        let mut kept: Vec<RemoteCursor> = Vec::new();
        let ghost mut i: int = 0;
        while rest.len() > 0
            invariant
                0 <= i <= orig.len(),
                rest@ == orig.skip(i),
                kept@ == orig.take(i).filter(pred),
                pred == other_user(id@),
            decreases rest@.len(),
        {
            let c = rest.remove(0);
            proof {
                assert(c == orig[i]);
                assert(orig.take(i + 1).drop_last() =~= orig.take(i));
                assert(orig.take(i + 1).last() == orig[i]);
                assert(rest@ =~= orig.skip(i + 1));
            }
            let same = c.user_id == *id;
            proof {
                assert(orig.take(i + 1) =~= orig.take(i).push(orig[i]));
                orig.take(i).lemma_filter_push(orig[i], pred);
                assert(pred(c) == !same);
            }
            if !same {
                kept.push(c);
            }
            proof {
                i = i + 1;
            }
        }
        assert(orig.take(orig.len() as int) =~= orig);
        *cursors = kept;
    }

    /// Marks the note data as changed: redraw and rebuild the spatial index.
    pub fn mark_notes_changed(&mut self)
        ensures
            *final(self) == (Editor { notes_changed: true, note_index_dirty: true, ..*old(self) }),
    {
        self.notes_changed = true;
        self.note_index_dirty = true;
    }

    /// Marks only the ghost positions as changed: redraw without rebuilding the spatial index.
    pub fn mark_ghost_dirty(&mut self)
        ensures
            *final(self) == (Editor { notes_changed: true, grid_cache_valid: false, ..*old(self) }),
    {
        self.notes_changed = true;
        self.grid_cache_valid = false;
    }

    /// Visual row of document track `track`, if the visual order lists it.
    pub fn visual_position_of(&self, track: usize) -> (v: Option<usize>)
        ensures
            v matches Some(i) ==> is_first_index(self.track_visual_order@, track, i as int),
            v is None ==> forall|j: int|
                0 <= j < self.track_visual_order@.len() ==> self.track_visual_order@[j] != track,
            (match v {
                Some(i) => i,
                None => track,
            }) == self.visual(track),
    {
        let ghost order = self.track_visual_order@;
        let mut i: usize = 0;
        while i < self.track_visual_order.len()
            invariant
                i <= order.len(),
                order == self.track_visual_order@,
                forall|j: int| 0 <= j < i ==> order[j] != track,
            decreases order.len() - i,
        {
            if self.track_visual_order[i] == track {
                proof {
                    assert(is_first_index(order, track, i as int));
                    let c = choose|k: int| is_first_index(order, track, k);
                    if c < i {
                        assert(order[c] != track);
                    }
                    if c > i {
                        assert(order[i as int] != track);
                    }
                }
                return Some(i);
            }
            i = i + 1;
        }
        None
    }

    /// Visual row of document track `track` (the track itself when not listed).
    pub fn visual_pos(&self, track: usize) -> (v: usize)
        ensures
            v == self.visual(track),
    {
        match self.visual_position_of(track) {
            Some(i) => i,
            None => track,
        }
    }

    /// Document track shown at visual row `visual`.
    pub fn document_track_at(&self, visual: usize) -> (t: usize)
        ensures
            t == self.doc_track(visual),
    {
        if visual < self.track_visual_order.len() {
            self.track_visual_order[visual]
        } else {
            visual
        }
    }

    /// Number of document tracks (0 without a document).
    pub fn track_count(&self) -> (n: usize)
        ensures
            n == self.doc_tracks().len(),
    {
        match &self.document {
            Some(d) => d.track_count(),
            None => 0,
        }
    }

    /// PPQN of the document (480 without a document).
    pub fn division(&self) -> (d: u16)
        ensures
            d == self.spec_division(),
    {
        match &self.document {
            Some(doc) => doc.division(),
            None => 480,
        }
    }

    /// PPQN of the document (480 without a document).
    pub open spec fn spec_division(&self) -> u16 {
        match self.document {
            Some(doc) => doc.div(),
            None => 480,
        }
    }

    /// Copy of the notes of document track `track` (empty when it does not exist).
    pub fn track_notes(&self, track: usize) -> (notes: Vec<NoteEvent>)
        ensures
            notes@ == self.track_of(track as int),
    {
        match &self.document {
            Some(d) => d.track_notes(track),
            None => Vec::new(),
        }
    }

    /// Inserts `note` into document track `track` at its ordered position.
    pub fn insert_note(&mut self, track: usize, note: NoteEvent) -> (inserted: bool)
        requires
            old(self).wf(),
        ensures
            final(self).wf(),
            inserted == (track < old(self).doc_tracks().len()),
            final(self).doc_tracks() == (if inserted {
                old(self).doc_tracks().update(
                    track as int,
                    crate::document::insert_sorted(old(self).doc_tracks()[track as int], note),
                )
            } else {
                old(self).doc_tracks()
            }),
            final(self).spec_division() == old(self).spec_division(),
            *final(self) == (Editor { document: final(self).document, ..*old(self) }),
    {
        match &mut self.document {
            Some(d) => d.insert_note(track, note),
            None => false,
        }
    }

    /// Records the current document as an undo point.
    pub fn push_history(&mut self)
        requires
            old(self).wf(),
        ensures
            old(self).history.pushed(final(self).history, old(self).document),
            final(self).wf(),
            *final(self) == (Editor { history: final(self).history, ..*old(self) }),
    {
        self.history.push(&self.document);
    }

    /// Records the current document as the undo point of a move that takes
    /// the note values `originals` and puts `moved` in their place.
    pub fn push_history_move(&mut self, originals: Vec<NoteEvent>, moved: Vec<NoteEvent>)
        requires
            old(self).wf(),
        ensures
            old(self).history.pushed_move(final(self).history, old(self).document, originals@, moved@),
            final(self).wf(),
            *final(self) == (Editor { history: final(self).history, ..*old(self) }),
    {
        self.history.push_move(&self.document, originals, moved);
    }

    /// Drops the most recent undo point (used when an edit changed nothing).
    pub fn discard_last_history(&mut self)
        requires
            old(self).wf(),
        ensures
            final(self).history.undo_states() == (if old(self).history.undo_states().len() > 0 {
                old(self).history.undo_states().drop_last()
            } else {
                old(self).history.undo_states()
            }),
            final(self).history.undo_moves() == (if old(self).history.undo_moves().len() > 0 {
                old(self).history.undo_moves().drop_last()
            } else {
                old(self).history.undo_moves()
            }),
            final(self).history.redo_states() == old(self).history.redo_states(),
            final(self).history.redo_moves() == old(self).history.redo_moves(),
            final(self).wf(),
            *final(self) == (Editor { history: final(self).history, ..*old(self) }),
    {
        self.history.discard_last();
    }

    /// Whether undo is available.
    pub fn can_undo(&self) -> (b: bool)
        ensures
            b == (self.history.undo_states().len() > 0),
    {
        self.history.can_undo()
    }

    /// Whether redo is available.
    pub fn can_redo(&self) -> (b: bool)
        ensures
            b == (self.history.redo_states().len() > 0),
    {
        self.history.can_redo()
    }

    /// Whether a batch drag, copy-drag or commit is pending.
    pub fn has_pending_drag(&self) -> (b: bool)
        ensures
            b == self.spec_has_pending_drag(),
    {
        self.pending_drag_state.is_some() || self.pending_copy_drag_state.is_some()
            || self.async_commit.is_some()
    }

    /// Whether an edit is in progress (a pending drag, copy-drag or commit):
    /// undo, redo, save, play and export wait for it.
    pub fn is_editing(&self) -> (b: bool)
        ensures
            b == self.spec_has_pending_drag(),
    {
        self.has_pending_drag()
    }

    /// Drops the pending batch drag and copy-drag (not a started commit).
    pub fn clear_pending_drag(&mut self)
        ensures
            *final(self) == (Editor {
                pending_drag_state: None,
                pending_copy_drag_state: None,
                ..*old(self)
            }),
    {
        self.pending_drag_state = None;
        self.pending_copy_drag_state = None;
    }

    /// Whether the piano-roll selection holds any index.
    pub fn has_selection(&self) -> (b: bool)
        ensures
            b == (self.selected_notes@.len() > 0),
    {
        self.selected_notes.len() > 0
    }

    /// Clears the piano-roll selection.
    pub fn selection_clear(&mut self)
        ensures
            *final(self) == (Editor { selected_notes: final(self).selected_notes, ..*old(self) }),
            final(self).selected_notes@ == Seq::<usize>::empty(),
    {
        self.selected_notes.clear();
    }

    /// Makes `track` the current track; both selections are cleared so that
    /// commands act on the new track.
    pub fn switch_to_track(&mut self, track: usize)
        ensures
            final(self).current_track == track,
            final(self).arrange_selection.spec_is_empty(),
            final(self).selected_notes@ == Seq::<usize>::empty(),
            *final(self) == (Editor {
                current_track: track,
                arrange_selection: final(self).arrange_selection,
                selected_notes: final(self).selected_notes,
                ..*old(self)
            }),
    {
        self.current_track = track;
        self.arrange_selection.clear();
        self.selected_notes.clear();
    }
}

/// The total over a prefix is at most the total over the whole document.
proof fn lemma_total_prefix(d: Seq<Seq<NoteEvent>>, k: int)
    requires
        0 <= k <= d.len(),
    ensures
        total_notes(d.take(k)) <= total_notes(d),
    decreases d.len() - k,
{
    if k < d.len() {
        lemma_total_prefix(d, k + 1);
        assert(d.take(k + 1).drop_last() =~= d.take(k));
    } else {
        assert(d.take(k) =~= d);
    }
}

} // verus!
