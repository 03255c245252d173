//! Note events as stored in a MIDI document track.

use vstd::prelude::*;

verus! {

/// A note event: start/end tick (end exclusive), key, velocity and channel.
#[derive(Clone, Copy, PartialEq, Eq, Debug, Structural)]
pub struct NoteEvent {
    pub start_tick: u32,
    pub end_tick: u32,
    pub key: u8,
    pub velocity: u8,
    pub channel: u8,
}

impl NoteEvent {
    /// Builds a note event from its fields.
    pub fn new(start_tick: u32, end_tick: u32, key: u8, velocity: u8, channel: u8) -> (n: Self)
        ensures
            n == (NoteEvent { start_tick, end_tick, key, velocity, channel }),
    {
        NoteEvent { start_tick, end_tick, key, velocity, channel }
    }

    /// A note never ends before it starts.
    pub open spec fn wf(self) -> bool {
        self.start_tick <= self.end_tick
    }

    /// Duration of the note in ticks.
    pub fn length(&self) -> (len: u32)
        requires
            self.wf(),
        ensures
            len == self.end_tick - self.start_tick,
    {
        self.end_tick - self.start_tick
    }
}

} // verus!
