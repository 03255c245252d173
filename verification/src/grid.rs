//! Canvas programs of the piano roll and the values their hit tests report.

use crate::editor::Editor;
use vstd::prelude::*;

verus! {

/// Program of the horizontal piano-roll grid: it reads the editor it draws.
pub struct PianoRollGrid<'a> {
    /// The editor shown by the grid.
    pub editor: &'a Editor,
}

impl<'a> PianoRollGrid<'a> {
    /// A grid program bound to `editor`.
    pub fn new(editor: &'a Editor) -> (g: Self)
        ensures
            *g.editor == *editor,
    {
        PianoRollGrid { editor }
    }
}

/// Program of the vertical piano-roll grid (keyboard at the bottom): it
/// reads the editor it draws.
pub struct VerticalRollGrid<'a> {
    /// The editor shown by the grid.
    pub editor: &'a Editor,
}

impl<'a> VerticalRollGrid<'a> {
    /// A vertical grid program bound to `editor`.
    pub fn new(editor: &'a Editor) -> (g: Self)
        ensures
            *g.editor == *editor,
    {
        VerticalRollGrid { editor }
    }
}

/// Where a pointer falls on the loop range of the ruler.
#[derive(Clone, Copy, PartialEq, Eq, Debug, Structural)]
pub enum LoopHitTest {
    /// Outside the loop range.
    Miss,
    /// On the start handle.
    StartHandle,
    /// On the end handle.
    EndHandle,
    /// Inside the loop range.
    Body,
}

} // verus!
