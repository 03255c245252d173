//! Keyboard colours during playback: each key takes the colour of the last
//! track with a note sounding on it at the playback tick.

use crate::editor::Editor;
use crate::note::NoteEvent;
use vstd::prelude::*;

verus! {

/// Whether note `n` sounds at `tick`: it has started and not yet ended.
pub open spec fn sounds_at(n: NoteEvent, tick: u32) -> bool {
    n.start_tick <= tick && tick < n.end_tick
}

/// Whether one of the first `i` notes of `s` has key `k` and sounds at `tick`.
pub open spec fn key_sounds_in(s: Seq<NoteEvent>, k: int, tick: u32, i: int) -> bool {
    exists|j: int| 0 <= j < i && j < s.len() && s[j].key == k && #[trigger] sounds_at(s[j], tick)
}

/// Whether a note of `s` with key `k` sounds at `tick`.
pub open spec fn key_sounds(s: Seq<NoteEvent>, k: int, tick: u32) -> bool {
    key_sounds_in(s, k, tick, s.len() as int)
}

/// Bytes `4k .. 4k + 4` of `c` are `col`.
pub open spec fn key_painted(c: Seq<u8>, k: int, col: Seq<u8>) -> bool {
    forall|m: int| 0 <= m < 4 ==> #[trigger] c[4 * k + m] == col[m]
}

/// Track `t` is the last track (highest index) of `tracks` with a note of
/// key `k` sounding at `tick`.
pub open spec fn is_top_track(tracks: Seq<Seq<NoteEvent>>, k: int, tick: u32, t: int) -> bool {
    &&& 0 <= t < tracks.len()
    &&& key_sounds(tracks[t], k, tick)
    &&& forall|u: int| t < u < tracks.len() ==> !#[trigger] key_sounds(tracks[u], k, tick)
}

/// Key `k` of the colour table `c`: 0 when no note of `tracks` sounds on it
/// at `tick`, else the colour of the last track with a note sounding there.
pub open spec fn key_color_ok(c: Seq<u8>, tracks: Seq<Seq<NoteEvent>>, colors: Seq<Seq<u8>>, tick: u32, k: int) -> bool {
    &&& (forall|t: int| 0 <= t < tracks.len() ==> !#[trigger] key_sounds(tracks[t], k, tick))
        ==> key_painted(c, k, seq![0u8, 0u8, 0u8, 0u8])
    &&& (exists|t: int| 0 <= t < tracks.len() && #[trigger] key_sounds(tracks[t], k, tick))
        ==> exists|t: int| #[trigger] is_top_track(tracks, k, tick, t) && key_painted(c, k, colors[t])
}

/// The colour table `c` (four bytes per key, 256 keys) for the tracks
/// `tracks` with colours `colors` at playback tick `tick`: while stopped
/// (`tick == 0`) every byte is 0; otherwise a key on which no note sounds is
/// 0 and a key on which notes sound has the colour of the last of their
/// tracks.
pub open spec fn key_colors_at(c: Seq<u8>, tracks: Seq<Seq<NoteEvent>>, colors: Seq<Seq<u8>>, tick: u32) -> bool {
    &&& c.len() == 1024
    &&& tick == 0 ==> forall|i: int| 0 <= i < 1024 ==> #[trigger] c[i] == 0
    &&& tick > 0 ==> forall|k: int| 0 <= k < 256 ==> #[trigger] key_color_ok(c, tracks, colors, tick, k)
}

/// Views of the track colours.
pub open spec fn color_views(colors: Seq<[u8; 4]>) -> Seq<Seq<u8>> {
    colors.map_values(|a: [u8; 4]| a@)
}

/// A table of 1024 zero bytes.
fn zero_colors() -> (c: Vec<u8>)
    ensures
        c@.len() == 1024,
        forall|i: int| 0 <= i < 1024 ==> #[trigger] c@[i] == 0,
{
    let mut c: Vec<u8> = Vec::new();
    let mut i: usize = 0;
    while i < 1024
        invariant
            i <= 1024,
            c@.len() == i,
            forall|j: int| 0 <= j < i ==> #[trigger] c@[j] == 0,
        decreases 1024 - i,
    {
        c.push(0);
        i = i + 1;
    }
    c
}

/// Paints the four bytes of key `k` with `col`.
fn paint_key(c: &mut Vec<u8>, k: u8, col: [u8; 4])
    requires
        old(c)@.len() == 1024,
    ensures
        final(c)@.len() == 1024,
        key_painted(final(c)@, k as int, col@),
        forall|i: int| 0 <= i < 1024 && !(4 * k <= i < 4 * k + 4) ==> #[trigger] final(c)@[i] == old(c)@[i],
{
    let base: usize = 4 * (k as usize);
    c.set(base, col[0]);
    c.set(base + 1, col[1]);
    c.set(base + 2, col[2]);
    c.set(base + 3, col[3]);
    assert forall|m: int| 0 <= m < 4 implies #[trigger] c@[4 * k + m] == col@[m] by {
        assert(4 * k + m == base + m);
    }
}

/// The keyboard colour table for `tracks` (each sorted by start tick) with
/// track colours `track_colors`, at playback tick `tick`.
pub fn key_colors_for(tracks: &Vec<Vec<NoteEvent>>, track_colors: &Vec<[u8; 4]>, tick: u32) -> (c: Vec<u8>)
    requires
        track_colors@.len() == tracks@.len(),
        forall|t: int| 0 <= t < tracks@.len() ==> crate::document::sorted_by_start(#[trigger] tracks@[t]@),
    ensures
        key_colors_at(c@, tracks@.map_values(|v: Vec<NoteEvent>| v@), color_views(track_colors@), tick),
{
    let ghost ts = tracks@.map_values(|v: Vec<NoteEvent>| v@);
    let ghost cols = color_views(track_colors@);
    let mut c = zero_colors();
    if tick == 0 {
        return c;
    }
    // owner[k]: the track whose colour key `k` carries, -1 while none.
    let ghost mut owner: Seq<int> = Seq::new(256, |k: int| -1);
    let mut t: usize = 0;
    while t < tracks.len()
        invariant
            t <= tracks@.len(),
            tick > 0,
            ts == tracks@.map_values(|v: Vec<NoteEvent>| v@),
            cols == color_views(track_colors@),
            track_colors@.len() == tracks@.len(),
            forall|u: int| 0 <= u < tracks@.len() ==> crate::document::sorted_by_start(#[trigger] tracks@[u]@),
            c@.len() == 1024,
            owner.len() == 256,
            forall|k: int| 0 <= k < 256 ==> {
                &&& owner[k] == -1 ==> key_painted(c@, k, seq![0u8, 0u8, 0u8, 0u8])
                &&& owner[k] != -1 ==> 0 <= owner[k] < t && key_sounds(ts[owner[k]], k, tick)
                    && key_painted(c@, k, cols[owner[k]])
                &&& owner[k] >= -1
                &&& forall|u: int| owner[k] < u < t ==> !#[trigger] key_sounds(ts[u], k, tick)
            },
        decreases tracks@.len() - t,
    {
        let notes = &tracks[t];
        let col = track_colors[t];
        assert(ts[t as int] == notes@);
        assert(cols[t as int] == col@);
        assert(crate::document::sorted_by_start(tracks@[t as int]@));
        let mut i: usize = 0;
        while i < notes.len() && notes[i].start_tick <= tick
            invariant
                i <= notes@.len(),
                t < tracks@.len(),
                tick > 0,
                ts == tracks@.map_values(|v: Vec<NoteEvent>| v@),
                cols == color_views(track_colors@),
                ts[t as int] == notes@,
                cols[t as int] == col@,
                crate::document::sorted_by_start(notes@),
                track_colors@.len() == tracks@.len(),
                c@.len() == 1024,
                owner.len() == 256,
                forall|k: int| 0 <= k < 256 ==> {
                    &&& owner[k] == -1 ==> key_painted(c@, k, seq![0u8, 0u8, 0u8, 0u8])
                    &&& owner[k] != -1 ==> 0 <= owner[k] <= t && key_sounds(ts[owner[k]], k, tick)
                        && key_painted(c@, k, cols[owner[k]])
                    &&& owner[k] >= -1
                    &&& forall|u: int| owner[k] < u < t ==> !#[trigger] key_sounds(ts[u], k, tick)
                    &&& owner[k] < t ==> !key_sounds_in(notes@, k, tick, i as int)
                },
            decreases notes@.len() - i,
        {
            let n = notes[i];
            if n.end_tick > tick {
                let ghost c0 = c@;
                paint_key(&mut c, n.key, col);
                proof {
                    assert(sounds_at(notes@[i as int], tick));
                    assert(key_sounds(notes@, n.key as int, tick));
                    let o = owner;
                    owner = owner.update(n.key as int, t as int);
                    assert forall|k: int| 0 <= k < 256 && k != n.key implies {
                        &&& owner[k] == -1 ==> key_painted(c@, k, seq![0u8, 0u8, 0u8, 0u8])
                        &&& owner[k] != -1 ==> key_painted(c@, k, cols[owner[k]])
                    } by {
                        assert forall|m: int| 0 <= m < 4 implies #[trigger] c@[4 * k + m] == c0[4 * k + m] by {
                            assert(!(4 * n.key <= 4 * k + m < 4 * n.key + 4));
                        }
                        if o[k] == -1 {
                            assert forall|m: int| 0 <= m < 4 implies #[trigger] c@[4 * k + m] == seq![0u8, 0u8, 0u8, 0u8][m] by {
                                assert(c0[4 * k + m] == seq![0u8, 0u8, 0u8, 0u8][m]);
                            }
                        } else {
                            assert forall|m: int| 0 <= m < 4 implies #[trigger] c@[4 * k + m] == cols[owner[k]][m] by {
                                assert(c0[4 * k + m] == cols[o[k]][m]);
                            }
                        }
                    }
                }
            }
            proof {
                assert forall|k: int| 0 <= k < 256 && owner[k] < t implies !key_sounds_in(notes@, k, tick, i + 1) by {
                    if key_sounds_in(notes@, k, tick, i + 1) {
                        let j = choose|j: int| 0 <= j < i + 1 && j < notes@.len() && notes@[j].key == k && #[trigger] sounds_at(notes@[j], tick);
                        if j == i {
                            assert(notes@[j].key == n.key);
                        }
                    }
                }
            }
            i = i + 1;
        }
        proof {
            assert forall|k: int| 0 <= k < 256 && owner[k] < t implies !key_sounds(ts[t as int], k, tick) by {
                if key_sounds(notes@, k, tick) {
                    let j = choose|j: int| 0 <= j < notes@.len() && j < notes@.len() && notes@[j].key == k && #[trigger] sounds_at(notes@[j], tick);
                    if j >= i {
                        assert(notes@[i as int].start_tick <= notes@[j].start_tick);
                    }
                }
            }
        }
        t = t + 1;
    }
    proof {
        assert(ts =~= tracks@.map_values(|v: Vec<NoteEvent>| v@));
        assert forall|k: int| 0 <= k < 256 implies #[trigger] key_color_ok(c@, ts, cols, tick, k) by {
            if owner[k] != -1 {
                let u = owner[k];
                assert(0 <= u < ts.len());
                assert(is_top_track(ts, k, tick, u));
                assert(key_painted(c@, k, cols[u]));
            } else if exists|u: int| 0 <= u < ts.len() && #[trigger] key_sounds(ts[u], k, tick) {
                let u = choose|u: int| 0 <= u < ts.len() && #[trigger] key_sounds(ts[u], k, tick);
                assert(!key_sounds(ts[u], k, tick));
            }
        }
    }
    c
}

/// The tracks' note lists as sequences.
pub open spec fn track_views(tracks: Seq<Vec<NoteEvent>>) -> Seq<Seq<NoteEvent>> {
    tracks.map_values(|v: Vec<NoteEvent>| v@)
}

/// Incremental scan behind the playback key colours: for each track, the
/// prefix of notes already scanned (all started by the last tick), and the
/// scanned notes still sounding at the last tick.
pub struct PlaybackScan {
    /// Tick of the last scan.
    last_tick: u32,
    /// Per track, how many of its notes have been scanned.
    scan_idx: Vec<usize>,
    /// Scanned notes still sounding at the last tick, as (track, position).
    active: Vec<(usize, usize)>,
}

impl PlaybackScan {
    /// Tick of the last scan.
    pub closed spec fn at_tick(&self) -> u32 {
        self.last_tick
    }

    /// Tick of the last scan.
    pub fn last_tick(&self) -> (t: u32)
        ensures
            t == self.at_tick(),
    {
        self.last_tick
    }

    /// The scan state describes `tracks` at `self.last_tick`: each scanned
    /// note has started by then, and the active list holds exactly the
    /// scanned notes that have not ended by then.
    pub closed spec fn valid_for(&self, tracks: Seq<Seq<NoteEvent>>) -> bool {
        &&& self.scan_idx@.len() == tracks.len()
        &&& forall|t: int| 0 <= t < tracks.len() ==> #[trigger] self.scan_idx@[t] <= tracks[t].len()
        &&& forall|t: int, j: int| 0 <= t < tracks.len() && 0 <= j < self.scan_idx@[t]
            ==> #[trigger] tracks[t][j].start_tick <= self.last_tick
        &&& forall|q: int| 0 <= q < self.active@.len() ==> {
            let e = #[trigger] self.active@[q];
            &&& e.0 < tracks.len()
            &&& e.1 < self.scan_idx@[e.0 as int]
            &&& tracks[e.0 as int][e.1 as int].end_tick > self.last_tick
        }
        &&& forall|t: int, j: int| 0 <= t < tracks.len() && 0 <= j < self.scan_idx@[t]
            && #[trigger] tracks[t][j].end_tick > self.last_tick ==> self.active@.contains((t as usize, j as usize))
    }

    /// A scan that has seen nothing yet (playback at tick 0), for any
    /// document with `track_count` tracks.
    pub fn new(track_count: usize) -> (s: Self)
        ensures
            s.at_tick() == 0,
            forall|tracks: Seq<Seq<NoteEvent>>| tracks.len() == track_count ==> #[trigger] s.valid_for(tracks),
    {
        let mut scan_idx: Vec<usize> = Vec::new();
        let mut i: usize = 0;
        while i < track_count
            invariant
                i <= track_count,
                scan_idx@.len() == i,
                forall|j: int| 0 <= j < i ==> #[trigger] scan_idx@[j] == 0,
            decreases track_count - i,
        {
            scan_idx.push(0);
            i = i + 1;
        }
        PlaybackScan { last_tick: 0, scan_idx, active: Vec::new() }
    }

    /// Forgets what was scanned (playback stopped): the scan restarts from
    /// tick 0 for a document with as many tracks as before.
    pub fn clear(&mut self)
        ensures
            final(self).at_tick() == 0,
            forall|tracks: Seq<Seq<NoteEvent>>| #[trigger] old(self).valid_for(tracks) ==> final(self).valid_for(tracks),
    {
        let n = self.scan_idx.len();
        *self = PlaybackScan::new(n);
    }

    /// Scans, in every track, the notes that have started by `tick` since the
    /// last scan, adding those still sounding at `tick` to the active list.
    fn scan_to(&mut self, tracks: &Vec<Vec<NoteEvent>>, tick: u32)
        requires
            old(self).valid_for(track_views(tracks@)),
            old(self).last_tick <= tick,
            forall|t: int| 0 <= t < tracks@.len() ==> crate::document::sorted_by_start(#[trigger] tracks@[t]@),
        ensures
            final(self).last_tick == old(self).last_tick,
            final(self).scan_idx@.len() == tracks@.len(),
            forall|t: int| 0 <= t < tracks@.len() ==> #[trigger] final(self).scan_idx@[t] <= tracks@[t]@.len(),
            forall|t: int, j: int| 0 <= t < tracks@.len() && 0 <= j < final(self).scan_idx@[t]
                ==> #[trigger] tracks@[t]@[j].start_tick <= tick,
            forall|t: int, j: int| 0 <= t < tracks@.len() && final(self).scan_idx@[t] <= j < tracks@[t]@.len()
                ==> #[trigger] tracks@[t]@[j].start_tick > tick,
            forall|q: int| 0 <= q < final(self).active@.len() ==> {
                let e = #[trigger] final(self).active@[q];
                &&& e.0 < tracks@.len()
                &&& e.1 < final(self).scan_idx@[e.0 as int]
                &&& tracks@[e.0 as int]@[e.1 as int].end_tick > old(self).last_tick
            },
            forall|t: int, j: int| 0 <= t < tracks@.len() && 0 <= j < final(self).scan_idx@[t]
                && #[trigger] tracks@[t]@[j].end_tick > tick ==> final(self).active@.contains((t as usize, j as usize)),
    {
        let ghost ts = track_views(tracks@);
        let ghost o = *self;
        assert forall|t: int| 0 <= t < tracks@.len() implies #[trigger] ts[t] == tracks@[t]@ by {}
        let mut t: usize = 0;
        while t < tracks.len()
            invariant
                t <= tracks@.len(),
                ts == track_views(tracks@),
                forall|u: int| 0 <= u < tracks@.len() ==> #[trigger] ts[u] == tracks@[u]@,
                forall|u: int| 0 <= u < tracks@.len() ==> crate::document::sorted_by_start(#[trigger] tracks@[u]@),
                o.valid_for(ts),
                o.last_tick <= tick,
                self.last_tick == o.last_tick,
                self.scan_idx@.len() == tracks@.len(),
                forall|u: int| t <= u < tracks@.len() ==> #[trigger] self.scan_idx@[u] == o.scan_idx@[u],
                forall|u: int| 0 <= u < t ==> o.scan_idx@[u] <= #[trigger] self.scan_idx@[u] <= tracks@[u]@.len(),
                forall|u: int, j: int| 0 <= u < t && 0 <= j < self.scan_idx@[u]
                    ==> #[trigger] tracks@[u]@[j].start_tick <= tick,
                forall|u: int, j: int| 0 <= u < t && self.scan_idx@[u] <= j < tracks@[u]@.len()
                    ==> #[trigger] tracks@[u]@[j].start_tick > tick,
                self.active@.len() >= o.active@.len(),
                forall|q: int| 0 <= q < o.active@.len() ==> #[trigger] self.active@[q] == o.active@[q],
                forall|q: int| o.active@.len() <= q < self.active@.len() ==> {
                    let e = #[trigger] self.active@[q];
                    &&& e.0 < t
                    &&& e.1 < self.scan_idx@[e.0 as int]
                    &&& tracks@[e.0 as int]@[e.1 as int].end_tick > tick
                },
                forall|u: int, j: int| 0 <= u < t && 0 <= j < self.scan_idx@[u]
                    && #[trigger] tracks@[u]@[j].end_tick > tick ==> self.active@.contains((u as usize, j as usize)),
            decreases tracks@.len() - t,
        {
            let notes = &tracks[t];
            let start = self.scan_idx[t];
            let ghost a0 = self.active@;
            let ghost s0 = self.scan_idx@;
            let mut i: usize = start;
            while i < notes.len() && notes[i].start_tick <= tick
                invariant
                    start <= i <= notes@.len(),
                    notes@ == tracks@[t as int]@,
                    t < tracks@.len(),
                    self.scan_idx@ == s0,
                    self.last_tick == o.last_tick,
                    s0.len() == tracks@.len(),
                    start == s0[t as int],
                    forall|j: int| start <= j < i ==> #[trigger] notes@[j].start_tick <= tick,
                    self.active@.len() >= a0.len(),
                    forall|q: int| 0 <= q < a0.len() ==> #[trigger] self.active@[q] == a0[q],
                    forall|q: int| a0.len() <= q < self.active@.len() ==> {
                        let e = #[trigger] self.active@[q];
                        &&& e.0 == t
                        &&& start <= e.1 < i
                        &&& notes@[e.1 as int].end_tick > tick
                    },
                    forall|j: int| start <= j < i && #[trigger] notes@[j].end_tick > tick ==> self.active@.contains((t, j as usize)),
                decreases notes@.len() - i,
            {
                if notes[i].end_tick > tick {
                    let ghost before = self.active@;
                    self.active.push((t, i));
                    proof {
                        assert(self.active@[before.len() as int] == (t, i));
                        assert forall|j: int| start <= j < i + 1 && #[trigger] notes@[j].end_tick > tick implies self.active@.contains((t, j as usize)) by {
                            if j < i {
                                let q = choose|q: int| 0 <= q < before.len() && before[q] == (t, j as usize);
                                assert(self.active@[q] == (t, j as usize));
                            }
                        }
                    }
                }
                i = i + 1;
            }
            proof {
                assert forall|j: int| i <= j < notes@.len() implies #[trigger] notes@[j].start_tick > tick by {
                    assert(notes@[i as int].start_tick <= notes@[j].start_tick);
                }
            }
            self.scan_idx.set(t, i);
            proof {
                assert forall|u: int, j: int| 0 <= u < t + 1 && 0 <= j < self.scan_idx@[u]
                    && #[trigger] tracks@[u]@[j].end_tick > tick implies self.active@.contains((u as usize, j as usize)) by {
                    if u < t {
                        let q = choose|q: int| 0 <= q < a0.len() && a0[q] == (u as usize, j as usize);
                        assert(self.active@[q] == (u as usize, j as usize));
                    } else if j < start {
                        assert(ts[u][j].end_tick > o.last_tick);
                        assert(o.active@.contains((u as usize, j as usize)));
                        let q = choose|q: int| 0 <= q < o.active@.len() && o.active@[q] == (u as usize, j as usize);
                        assert(self.active@[q] == (u as usize, j as usize));
                    }
                }
                assert forall|u: int, j: int| 0 <= u < t + 1 && 0 <= j < self.scan_idx@[u]
                    implies #[trigger] tracks@[u]@[j].start_tick <= tick by {
                    if u == t && j < start {
                        assert(ts[u][j].start_tick <= o.last_tick);
                    }
                }
            }
            t = t + 1;
        }
        proof {
            assert forall|q: int| 0 <= q < self.active@.len() implies {
                let e = #[trigger] self.active@[q];
                &&& e.0 < tracks@.len()
                &&& e.1 < self.scan_idx@[e.0 as int]
                &&& tracks@[e.0 as int]@[e.1 as int].end_tick > o.last_tick
            } by {
                if q < o.active@.len() {
                    let e = o.active@[q];
                    assert(ts[e.0 as int] == tracks@[e.0 as int]@);
                }
            }
        }
    }
}

/// Key of the note that scan entry `e` refers to.
pub open spec fn entry_key(tracks: Seq<Seq<NoteEvent>>, e: (usize, usize)) -> int {
    tracks[e.0 as int][e.1 as int].key as int
}

/// Key `k` of `c` after painting `active`: 0 when no entry has key `k`, else
/// the colour of the highest track among the entries with key `k`.
pub open spec fn entries_painted(c: Seq<u8>, tracks: Seq<Seq<NoteEvent>>, colors: Seq<Seq<u8>>, active: Seq<(usize, usize)>, k: int) -> bool {
    &&& (forall|q: int| 0 <= q < active.len() ==> entry_key(tracks, #[trigger] active[q]) != k)
        ==> key_painted(c, k, seq![0u8, 0u8, 0u8, 0u8])
    &&& (exists|q: int| 0 <= q < active.len() && entry_key(tracks, #[trigger] active[q]) == k)
        ==> exists|q: int| 0 <= q < active.len() && entry_key(tracks, #[trigger] active[q]) == k
            && key_painted(c, k, colors[active[q].0 as int])
            && forall|r: int| 0 <= r < active.len() && entry_key(tracks, #[trigger] active[r]) == k
                ==> active[r].0 <= active[q].0
}

/// The colour table of the notes listed in `active`: each key takes the
/// colour of the highest track among its entries.
fn paint_active(tracks: &Vec<Vec<NoteEvent>>, track_colors: &Vec<[u8; 4]>, active: &Vec<(usize, usize)>) -> (c: Vec<u8>)
    requires
        track_colors@.len() == tracks@.len(),
        forall|q: int| 0 <= q < active@.len() ==> (#[trigger] active@[q]).0 < tracks@.len()
            && active@[q].1 < tracks@[active@[q].0 as int]@.len(),
    ensures
        c@.len() == 1024,
        forall|k: int| 0 <= k < 256 ==> #[trigger] entries_painted(c@, track_views(tracks@), color_views(track_colors@), active@, k),
{
    let ghost ts = track_views(tracks@);
    let ghost cols = color_views(track_colors@);
    let mut c = zero_colors();
    // tops[k]: track of the entry whose colour key `k` carries.
    let mut tops: Vec<Option<usize>> = Vec::new();
    let mut k0: usize = 0;
    while k0 < 256
        invariant
            k0 <= 256,
            tops@.len() == k0,
            forall|k: int| 0 <= k < k0 ==> #[trigger] tops@[k] is None,
        decreases 256 - k0,
    {
        tops.push(None);
        k0 = k0 + 1;
    }
    // owner[k]: the entry whose colour key `k` carries, -1 while none.
    let ghost mut owner: Seq<int> = Seq::new(256, |k: int| -1);
    let mut q: usize = 0;
    while q < active.len()
        invariant
            q <= active@.len(),
            ts == track_views(tracks@),
            cols == color_views(track_colors@),
            track_colors@.len() == tracks@.len(),
            forall|r: int| 0 <= r < active@.len() ==> (#[trigger] active@[r]).0 < tracks@.len()
                && active@[r].1 < tracks@[active@[r].0 as int]@.len(),
            c@.len() == 1024,
            owner.len() == 256,
            tops@.len() == 256,
            forall|k: int| #![trigger owner[k]] 0 <= k < 256 ==> {
                &&& owner[k] == -1 ==> key_painted(c@, k, seq![0u8, 0u8, 0u8, 0u8])
                    && tops@[k] is None
                    && forall|r: int| 0 <= r < q ==> entry_key(ts, #[trigger] active@[r]) != k
                &&& owner[k] != -1 ==> 0 <= owner[k] < q && entry_key(ts, active@[owner[k]]) == k
                    && key_painted(c@, k, cols[active@[owner[k]].0 as int])
                    && tops@[k] == Some(active@[owner[k]].0)
                    && forall|r: int| 0 <= r < q && entry_key(ts, #[trigger] active@[r]) == k
                        ==> active@[r].0 <= active@[owner[k]].0
            },
        decreases active@.len() - q,
    {
        let (t, j) = active[q];
        let n = tracks[t][j];
        let col = track_colors[t];
        let key = n.key as usize;
        proof {
            assert(ts[t as int] == tracks@[t as int]@);
            assert(cols[t as int] == col@);
            assert(entry_key(ts, active@[q as int]) == n.key);
        }
        let paint = match tops[key] {
            None => true,
            Some(b) => t >= b,
        };
        if paint {
            let ghost c0 = c@;
            paint_key(&mut c, n.key, col);
            tops.set(key, Some(t));
            proof {
                let o = owner;
                owner = owner.update(n.key as int, q as int);
                assert forall|k: int| 0 <= k < 256 && k != n.key implies {
                    &&& owner[k] == -1 ==> key_painted(c@, k, seq![0u8, 0u8, 0u8, 0u8])
                    &&& owner[k] != -1 ==> key_painted(c@, k, cols[active@[owner[k]].0 as int])
                } by {
                    assert forall|m: int| 0 <= m < 4 implies #[trigger] c@[4 * k + m] == c0[4 * k + m] by {
                        assert(!(4 * n.key <= 4 * k + m < 4 * n.key + 4));
                    }
                    if o[k] == -1 {
                        assert forall|m: int| 0 <= m < 4 implies #[trigger] c@[4 * k + m] == seq![0u8, 0u8, 0u8, 0u8][m] by {
                            assert(c0[4 * k + m] == seq![0u8, 0u8, 0u8, 0u8][m]);
                        }
                    } else {
                        assert forall|m: int| 0 <= m < 4 implies #[trigger] c@[4 * k + m] == cols[active@[owner[k]].0 as int][m] by {
                            assert(c0[4 * k + m] == cols[active@[o[k]].0 as int][m]);
                        }
                    }
                }
                assert forall|r: int| 0 <= r < q + 1 && entry_key(ts, #[trigger] active@[r]) == n.key
                    implies active@[r].0 <= active@[owner[n.key as int]].0 by {
                    if r < q {
                        assert(o[n.key as int] != -1);
                    }
                }
            }
        } else {
            proof {
                assert forall|r: int| 0 <= r < q + 1 && entry_key(ts, #[trigger] active@[r]) == n.key
                    implies active@[r].0 <= active@[owner[n.key as int]].0 by {
                    if r == q {
                        assert(owner[n.key as int] != -1);
                    }
                }
            }
        }
        q = q + 1;
    }
    proof {
        assert forall|k: int| 0 <= k < 256 implies #[trigger] entries_painted(c@, ts, cols, active@, k) by {
            if owner[k] != -1 {
                let r = owner[k];
                assert(entry_key(ts, active@[r]) == k);
            } else if exists|r: int| 0 <= r < active@.len() && entry_key(ts, #[trigger] active@[r]) == k {
                let r = choose|r: int| 0 <= r < active@.len() && entry_key(ts, #[trigger] active@[r]) == k;
                assert(entry_key(ts, active@[r]) != k);
            }
        }
    }
    c
}

impl PlaybackScan {
    /// Moves the scan forward to `tick`: notes started since the last scan are
    /// scanned and notes that have ended leave the active list. Returns the
    /// keyboard colours at `tick`: the same table the full scan
    /// `key_colors_for` gives (see `lemma_key_colors_unique`).
    pub fn advance(&mut self, tracks: &Vec<Vec<NoteEvent>>, track_colors: &Vec<[u8; 4]>, tick: u32) -> (c: Vec<u8>)
        requires
            old(self).valid_for(track_views(tracks@)),
            old(self).at_tick() <= tick,
            track_colors@.len() == tracks@.len(),
            forall|t: int| 0 <= t < tracks@.len() ==> crate::document::sorted_by_start(#[trigger] tracks@[t]@),
        ensures
            final(self).valid_for(track_views(tracks@)),
            final(self).at_tick() == tick,
            key_colors_at(c@, track_views(tracks@), color_views(track_colors@), tick),
    {
        let ghost ts = track_views(tracks@);
        let ghost cols = color_views(track_colors@);
        assert forall|t: int| 0 <= t < tracks@.len() implies #[trigger] ts[t] == tracks@[t]@ by {}
        let n_tracks = tracks.len();
        self.scan_to(tracks, tick);
        let ghost scanned = self.active@;
        let mut kept: Vec<(usize, usize)> = Vec::new();
        let mut q: usize = 0;
        while q < self.active.len()
            invariant
                q <= scanned.len(),
                self.active@ == scanned,
                forall|r: int| 0 <= r < scanned.len() ==> {
                    let e = #[trigger] scanned[r];
                    &&& e.0 < tracks@.len()
                    &&& e.1 < self.scan_idx@[e.0 as int]
                    &&& self.scan_idx@[e.0 as int] <= tracks@[e.0 as int]@.len()
                },
                forall|r: int| 0 <= r < kept@.len() ==> {
                    let e = #[trigger] kept@[r];
                    &&& scanned.contains(e)
                    &&& tracks@[e.0 as int]@[e.1 as int].end_tick > tick
                },
                forall|r: int| 0 <= r < q && tracks@[scanned[r].0 as int]@[scanned[r].1 as int].end_tick > tick
                    ==> kept@.contains(#[trigger] scanned[r]),
            decreases scanned.len() - q,
        {
            let (t, j) = self.active[q];
            if tracks[t][j].end_tick > tick {
                let ghost before = kept@;
                kept.push((t, j));
                proof {
                    assert(kept@[before.len() as int] == (t, j));
                    assert(scanned[q as int] == (t, j));
                    assert forall|r: int| 0 <= r < q + 1 && tracks@[scanned[r].0 as int]@[scanned[r].1 as int].end_tick > tick
                        implies kept@.contains(#[trigger] scanned[r]) by {
                        if r < q {
                            let x = choose|x: int| 0 <= x < before.len() && before[x] == scanned[r];
                            assert(kept@[x] == scanned[r]);
                        }
                    }
                }
            }
            q = q + 1;
        }
        self.active = kept;
        self.last_tick = tick;
        proof {
            assert forall|r: int| 0 <= r < self.active@.len() implies {
                let e = #[trigger] self.active@[r];
                &&& e.0 < ts.len()
                &&& e.1 < self.scan_idx@[e.0 as int]
                &&& ts[e.0 as int][e.1 as int].end_tick > self.last_tick
            } by {
                let e = self.active@[r];
                let x = choose|x: int| 0 <= x < scanned.len() && scanned[x] == e;
                assert(scanned[x].0 < tracks@.len());
            }
            assert forall|t: int, j: int| 0 <= t < ts.len() && 0 <= j < self.scan_idx@[t]
                && #[trigger] ts[t][j].end_tick > self.last_tick implies self.active@.contains((t as usize, j as usize)) by {
                assert(ts[t] == tracks@[t]@);
                assert(tracks@[t]@[j].end_tick > tick);
                assert(scanned.contains((t as usize, j as usize)));
                let x = choose|x: int| 0 <= x < scanned.len() && scanned[x] == (t as usize, j as usize);
                assert(scanned[x].0 as int == t && scanned[x].1 as int == j);
                assert(kept@.contains(scanned[x]));
            }
            assert forall|t: int, j: int| 0 <= t < ts.len() && 0 <= j < self.scan_idx@[t]
                implies #[trigger] ts[t][j].start_tick <= self.last_tick by {
                assert(tracks@[t]@[j].start_tick <= tick);
            }
            assert forall|t: int| 0 <= t < ts.len() implies #[trigger] self.scan_idx@[t] <= ts[t].len() by {
                assert(self.scan_idx@[t] <= tracks@[t]@.len());
            }
            assert(self.valid_for(ts));
        }
        if tick == 0 {
            return zero_colors();
        }
        let c = paint_active(tracks, track_colors, &self.active);
        proof {
            assert forall|k: int| 0 <= k < 256 implies #[trigger] key_color_ok(c@, ts, cols, tick, k) by {
                assert(entries_painted(c@, ts, cols, self.active@, k));
                // An active entry sounds at `tick`.
                assert forall|r: int| 0 <= r < self.active@.len() implies {
                    let e = #[trigger] self.active@[r];
                    key_sounds(ts[e.0 as int], entry_key(ts, e), tick)
                } by {
                    let e = self.active@[r];
                    assert(sounds_at(ts[e.0 as int][e.1 as int], tick));
                }
                if exists|t: int| 0 <= t < ts.len() && #[trigger] key_sounds(ts[t], k, tick) {
                    let t = choose|t: int| 0 <= t < ts.len() && #[trigger] key_sounds(ts[t], k, tick);
                    let j = choose|j: int| 0 <= j < ts[t].len() && j < ts[t].len() && ts[t][j].key == k && #[trigger] sounds_at(ts[t][j], tick);
                    if j >= self.scan_idx@[t] {
                        assert(tracks@[t]@[j].start_tick > tick);
                    }
                    assert(self.active@.contains((t as usize, j as usize)));
                    assert((t as usize) as int == t && (j as usize) as int == j);
                    let x = choose|x: int| 0 <= x < self.active@.len() && self.active@[x] == (t as usize, j as usize);
                    assert(entry_key(ts, self.active@[x]) == k);
                    let y = choose|y: int| 0 <= y < self.active@.len() && entry_key(ts, #[trigger] self.active@[y]) == k
                        && key_painted(c@, k, cols[self.active@[y].0 as int])
                        && forall|r: int| 0 <= r < self.active@.len() && entry_key(ts, #[trigger] self.active@[r]) == k
                            ==> self.active@[r].0 <= self.active@[y].0;
                    let e = self.active@[y];
                    assert(key_sounds(ts[e.0 as int], k, tick));
                    assert forall|u: int| e.0 < u < ts.len() implies !#[trigger] key_sounds(ts[u], k, tick) by {
                        if key_sounds(ts[u], k, tick) {
                            let j2 = choose|j2: int| 0 <= j2 < ts[u].len() && j2 < ts[u].len() && ts[u][j2].key == k
                                && #[trigger] sounds_at(ts[u][j2], tick);
                            if j2 >= self.scan_idx@[u] {
                                assert(tracks@[u]@[j2].start_tick > tick);
                            }
                            assert(self.active@.contains((u as usize, j2 as usize)));
                            assert((u as usize) as int == u && (j2 as usize) as int == j2);
                            let x2 = choose|x2: int| 0 <= x2 < self.active@.len() && self.active@[x2] == (u as usize, j2 as usize);
                            assert(entry_key(ts, self.active@[x2]) == k);
                            assert(self.active@[x2].0 <= e.0);
                        }
                    }
                    assert(is_top_track(ts, k, tick, e.0 as int));
                } else {
                    assert forall|r: int| 0 <= r < self.active@.len() implies entry_key(ts, #[trigger] self.active@[r]) != k by {
                        let e = self.active@[r];
                        assert(key_sounds(ts[e.0 as int], entry_key(ts, e), tick));
                    }
                }
            }
        }
        c
    }
}

impl Editor {
    /// Keyboard colours at playback tick `tick`, four bytes per key: each key
    /// on which a note sounds takes the colour (from `track_colors`, one per
    /// document track) of the last track with a note sounding there; other keys are
    /// 0, and every key is 0 while playback is stopped (`tick == 0`).
    pub fn playback_key_colors(&self, tick: u32, track_colors: &Vec<[u8; 4]>) -> (c: Vec<u8>)
        requires
            self.wf(),
            track_colors@.len() == self.doc_tracks().len(),
        ensures
            key_colors_at(c@, self.doc_tracks(), color_views(track_colors@), tick),
    {
        match &self.document {
            None => {
                let c = zero_colors();
                proof {
                    assert forall|k: int| 0 <= k < 256 implies #[trigger] key_color_ok(c@, self.doc_tracks(), color_views(track_colors@), tick, k) by {
                        assert forall|m: int| 0 <= m < 4 implies #[trigger] c@[4 * k + m] == seq![0u8, 0u8, 0u8, 0u8][m] by {
                            assert(c@[4 * k + m] == 0);
                        }
                    }
                }
                c
            },
            Some(doc) => {
                let tracks = doc.tracks();
                proof {
                    assert(tracks@.map_values(|v: Vec<NoteEvent>| v@) =~= self.doc_tracks());
                    assert forall|t: int| 0 <= t < tracks@.len() implies crate::document::sorted_by_start(#[trigger] tracks@[t]@) by {
                        assert(tracks@[t]@ == doc@[t]);
                    }
                }
                key_colors_for(tracks, track_colors, tick)
            },
        }
    }
}

impl Editor {
    /// Refreshes the keyboard colours for playback tick `tick` with the scan
    /// `scan`. Playback stopped (`tick == 0`): the scan restarts and every key
    /// is 0. Without a document nothing changes (`None`). Otherwise the scan
    /// is rebuilt from the start when the document changed (`doc_changed`),
    /// when the tick went back, or when it jumped ahead by more than
    /// `SEEK_THRESHOLD_TICKS`; else it moves forward from its last tick.
    pub fn update_playback_key_colors(&self, scan: &mut PlaybackScan, tick: u32, track_colors: &Vec<[u8; 4]>, doc_changed: bool) -> (c: Option<Vec<u8>>)
        requires
            self.wf(),
            track_colors@.len() == self.doc_tracks().len(),
            !doc_changed ==> old(scan).valid_for(self.doc_tracks()),
        ensures
            tick == 0 ==> (c matches Some(v) && v@ == Seq::new(1024, |i: int| 0u8))
                && final(scan).at_tick() == 0
                && final(scan).valid_for(self.doc_tracks()),
            tick > 0 && self.document is None ==> c is None && *final(scan) == *old(scan),
            tick > 0 && self.document is Some ==> (c matches Some(v)
                && key_colors_at(v@, self.doc_tracks(), color_views(track_colors@), tick))
                && final(scan).valid_for(self.doc_tracks())
                && final(scan).at_tick() == tick,
    {
        if tick == 0 {
            *scan = PlaybackScan::new(self.track_count());
            let z = zero_colors();
            assert(z@ =~= Seq::new(1024, |i: int| 0u8));
            return Some(z);
        }
        let doc = match &self.document {
            None => return None,
            Some(d) => d,
        };
        let tracks = doc.tracks();
        proof {
            assert(track_views(tracks@) =~= self.doc_tracks());
            assert forall|t: int| 0 <= t < tracks@.len() implies crate::document::sorted_by_start(#[trigger] tracks@[t]@) by {
                assert(tracks@[t]@ == doc@[t]);
            }
        }
        let last = scan.last_tick();
        if doc_changed || tick < last || tick - last > SEEK_THRESHOLD_TICKS {
            *scan = PlaybackScan::new(tracks.len());
        }
        Some(scan.advance(tracks, track_colors, tick))
    }
}

/// A forward jump of more than this many ticks is a seek: the playback scan
/// starts over instead of moving forward.
pub const SEEK_THRESHOLD_TICKS: u32 = 5000;

} // verus!
