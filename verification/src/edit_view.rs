//! Edit view arbitration (piano roll vs. arrangement) and the view-independent
//! snapshot of selected notes.

use crate::note::NoteEvent;
use vstd::prelude::*;

verus! {

/// The editing view a command acts on; it decides which selection is used.
#[derive(Clone, Copy, PartialEq, Eq, Debug, Hash, Structural)]
pub enum EditView {
    /// Piano roll: single-track editing, selection is an index set of the current track.
    PianoRoll,
    /// Arrangement: cross-track editing, selection is rectangles / a frozen exact set.
    Arrangement,
}

impl Default for EditView {
    fn default() -> (v: Self)
        ensures
            v == EditView::PianoRoll,
    {
        EditView::PianoRoll
    }
}

impl EditView {
    /// Whether this is the arrangement view.
    pub fn is_arrangement(self) -> (b: bool)
        ensures
            b == (self == EditView::Arrangement),
    {
        match self {
            EditView::Arrangement => true,
            EditView::PianoRoll => false,
        }
    }

    /// Whether the selection of this view naturally spans several tracks.
    pub fn selection_is_cross_track(self) -> (b: bool)
        ensures
            b == (self == EditView::Arrangement),
    {
        self.is_arrangement()
    }

    /// Display name of the view (for logs and diagnostics).
    pub fn as_str(self) -> (s: &'static str)
        ensures
            self == EditView::PianoRoll ==> s@ == "钢琴卷帘"@,
            self == EditView::Arrangement ==> s@ == "工程走带"@,
    {
        match self {
            EditView::PianoRoll => "钢琴卷帘",
            EditView::Arrangement => "工程走带",
        }
    }
}

/// Groups of notes as `(document_track, notes)` pairs, viewed as sequences.
pub open spec fn groups_view(g: Seq<(usize, Vec<NoteEvent>)>) -> Seq<(usize, Seq<NoteEvent>)> {
    g.map_values(|p: (usize, Vec<NoteEvent>)| (p.0, p.1@))
}

/// Total number of notes over all groups.
pub open spec fn group_total(g: Seq<(usize, Seq<NoteEvent>)>) -> int
    decreases g.len(),
{
    if g.len() == 0 {
        0
    } else {
        group_total(g.drop_last()) + g.last().1.len()
    }
}

/// `group_total` never goes down when a group is added, and is zero exactly
/// when every group is empty.
pub proof fn lemma_group_total(g: Seq<(usize, Seq<NoteEvent>)>)
    ensures
        group_total(g) >= 0,
        (group_total(g) == 0) == (forall|i: int| 0 <= i < g.len() ==> (#[trigger] g[i]).1.len() == 0),
    decreases g.len(),
{
    if g.len() > 0 {
        let d = g.drop_last();
        lemma_group_total(d);
        assert forall|i: int| 0 <= i < d.len() implies (#[trigger] d[i]) == g[i] by {}
        if group_total(g) == 0 {
            assert forall|i: int| 0 <= i < g.len() implies (#[trigger] g[i]).1.len() == 0 by {
                if i < g.len() - 1 {
                    assert(d[i] == g[i]);
                }
            }
        }
        if forall|i: int| 0 <= i < g.len() ==> (#[trigger] g[i]).1.len() == 0 {
            assert(g[g.len() - 1].1.len() == 0);
            assert forall|i: int| 0 <= i < d.len() implies (#[trigger] d[i]).1.len() == 0 by {
                assert(d[i] == g[i]);
            }
        }
    }
}

/// View-independent snapshot of selected notes, grouped by document track.
pub struct SelectionSnapshot {
    view: EditView,
    tracks: Vec<(usize, Vec<NoteEvent>)>,
}

impl SelectionSnapshot {
    /// The view that produced the snapshot.
    pub closed spec fn spec_view(&self) -> EditView {
        self.view
    }

    /// The groups of the snapshot.
    pub closed spec fn groups(&self) -> Seq<(usize, Seq<NoteEvent>)> {
        groups_view(self.tracks@)
    }

    /// An empty snapshot for `view`.
    pub fn empty(view: EditView) -> (s: Self)
        ensures
            s.spec_view() == view,
            s.groups() == Seq::<(usize, Seq<NoteEvent>)>::empty(),
    {
        let s = SelectionSnapshot { view, tracks: Vec::new() };
        assert(s.groups() =~= Seq::<(usize, Seq<NoteEvent>)>::empty());
        s
    }

    /// A snapshot of `tracks` produced by `view`.
    pub fn new(view: EditView, tracks: Vec<(usize, Vec<NoteEvent>)>) -> (s: Self)
        ensures
            s.spec_view() == view,
            s.groups() == groups_view(tracks@),
    {
        SelectionSnapshot { view, tracks }
    }

    /// The view that produced the snapshot.
    pub fn view(&self) -> (v: EditView)
        ensures
            v == self.spec_view(),
    {
        self.view
    }

    /// Whether no note at all is selected (groups may exist but be empty).
    pub fn is_empty(&self) -> (b: bool)
        ensures
            b == (forall|i: int| 0 <= i < self.groups().len() ==> (#[trigger] self.groups()[i]).1.len() == 0),
    {
        let mut i: usize = 0;
        while i < self.tracks.len()
            invariant
                i <= self.tracks@.len(),
                self.groups().len() == self.tracks@.len(),
                forall|j: int| 0 <= j < i ==> (#[trigger] self.groups()[j]).1.len() == 0,
            decreases self.tracks@.len() - i,
        {
            assert(self.groups()[i as int].1 == self.tracks@[i as int].1@);
            if self.tracks[i].1.len() != 0 {
                return false;
            }
            i = i + 1;
        }
        true
    }

    /// Number of selected notes over all groups.
    pub fn note_count(&self) -> (n: usize)
        requires
            group_total(self.groups()) <= usize::MAX,
        ensures
            n == group_total(self.groups()),
    {
        let mut n: usize = 0;
        let mut i: usize = 0;
        while i < self.tracks.len()
            invariant
                i <= self.tracks@.len(),
                self.groups().len() == self.tracks@.len(),
                group_total(self.groups()) <= usize::MAX,
                n == group_total(self.groups().take(i as int)),
            decreases self.tracks@.len() - i,
        {
            let ghost g = self.groups();
            assert(g.take(i + 1).drop_last() =~= g.take(i as int));
            assert(g.take(i + 1).last() == g[i as int]);
            assert(g[i as int].1 == self.tracks@[i as int].1@);
            proof {
                lemma_group_total_prefix(g, i + 1);
            }
            n = n + self.tracks[i].1.len();
            i = i + 1;
        }
        assert(self.groups().take(i as int) =~= self.groups());
        n
    }

    /// Number of groups (tracks) in the snapshot.
    pub fn track_count(&self) -> (n: usize)
        ensures
            n == self.groups().len(),
    {
        self.tracks.len()
    }

    /// The groups of the snapshot.
    pub fn tracks(&self) -> (t: &Vec<(usize, Vec<NoteEvent>)>)
        ensures
            groups_view(t@) == self.groups(),
    {
        &self.tracks
    }

    /// Consumes the snapshot and returns its groups.
    pub fn into_tracks(self) -> (t: Vec<(usize, Vec<NoteEvent>)>)
        ensures
            groups_view(t@) == self.groups(),
    {
        self.tracks
    }
}

/// The total over a prefix is at most the total over the whole sequence.
proof fn lemma_group_total_prefix(g: Seq<(usize, Seq<NoteEvent>)>, k: int)
    requires
        0 <= k <= g.len(),
    ensures
        group_total(g.take(k)) <= group_total(g),
    decreases g.len() - k,
{
    if k < g.len() {
        lemma_group_total_prefix(g, k + 1);
        assert(g.take(k + 1).drop_last() =~= g.take(k));
        lemma_group_total(g.take(k + 1));
    } else {
        assert(g.take(k) =~= g);
    }
}

} // verus!
