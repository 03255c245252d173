//! Values reported by the arrangement track list.

use vstd::prelude::*;

verus! {

/// The per-track button a click in the track list landed on.
#[derive(Clone, Copy, PartialEq, Eq, Debug, Structural)]
pub enum MuteSoloButton {
    /// The mute button.
    Mute,
    /// The solo button.
    Solo,
}

} // verus!
