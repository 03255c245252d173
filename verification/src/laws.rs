//! Properties of the editor that span several operations.

use crate::arrange_edit::{insert_entries, miss_pred, moved_note, razor_entries, razor_left, razor_right, straddles};
use crate::commit::{drag_entries, drag_sources, dragged_key, dragged_note, entry_notes};
use crate::arrange_clipboard::{lemma_min_start_key, min_key, min_start};
use crate::binary_clipboard::{binary_record_of, BinaryHeader, BinaryRecord, ARRANGEMENT_BINARY_MARK};
use crate::clip_payload::{channel_of, note_complete, resample, source_division, span, velocity_of, ClipNote, ClipboardPayload};
use crate::document::{insert_pos, lemma_insert_pos, max_end, max_end_tracks};
use crate::roll_clipboard::{on_track, roll_clip_note};
use crate::selection::{rect_hit, SelRect};
use crate::editor::{cursors_without, doc_track_at, is_first_index, other_user, visual_of, Editor, RemoteCursor};
use crate::history::state_of;
use crate::note::NoteEvent;
use crate::playback::{is_top_track, key_color_ok, key_colors_at, key_painted, key_sounds};
use vstd::prelude::*;

verus! {

/// Undoing right after an edit that recorded an undo point restores the
/// document as it was before the edit, and the undo stack as it was.
pub proof fn lemma_edit_then_undo(pre: Editor, mid: Editor, post: Editor, done: bool)
    requires
        mid.history.undo_states() == pre.history.undo_states().push(state_of(pre.document)),
        !mid.spec_has_pending_drag(),
        mid.after_poll().undo_result(post, done),
    ensures
        done,
        state_of(post.document) == state_of(pre.document),
        post.history.undo_states() == pre.history.undo_states(),
        post.history.redo_states() == mid.history.redo_states().push(state_of(mid.document)),
{
    assert(mid.after_poll() == mid);
    assert(pre.history.undo_states().push(state_of(pre.document)).drop_last() =~= pre.history.undo_states());
}

/// Redo right after an undo re-applies the undone document and gives back
/// both stacks as they were before the undo.
pub proof fn lemma_undo_then_redo(pre: Editor, mid: Editor, post: Editor, redone: bool)
    requires
        !pre.spec_has_pending_drag(),
        pre.undo_result(mid, true),
        mid.redo_result(post, redone),
    ensures
        redone,
        state_of(post.document) == state_of(pre.document),
        post.history.undo_states() == pre.history.undo_states(),
        post.history.redo_states() == pre.history.redo_states(),
{
    assert(pre.history.redo_states().push(state_of(pre.document)).drop_last() =~= pre.history.redo_states());
    assert(pre.history.undo_states().drop_last().push(pre.history.undo_states().last()) =~= pre.history.undo_states());
}

/// Undo right after a committed batch drag brings back the document as it
/// was before the drag.
pub proof fn lemma_drag_commit_then_undo(pre: Editor, mid: Editor, post: Editor, done: bool)
    requires
        pre.async_commit is None,
        pre.drag_commit_result(mid, true),
        mid.after_poll().undo_result(post, done),
        mid.pending_copy_drag_state is None,
    ensures
        done,
        state_of(post.document) == state_of(pre.document),
{
    let polled = mid.after_poll();
    assert(polled.history == mid.history);
    assert(pre.history.undo_states().push(state_of(pre.document)).drop_last() =~= pre.history.undo_states());
}

/// Committing the edit in progress leaves no commit under way: save, play
/// and export see the committed document.
pub proof fn lemma_commit_current_edit_settles(pre: Editor, e: Editor, started: bool, post: Editor, copied: bool)
    requires
        pre.drag_commit_result(e, started),
        e.after_poll().copy_commit_result(post, copied),
    ensures
        post.async_commit is None,
{
}

/// After deleting the notes covered by the arrangement selection, the
/// selection covers no note of the document.
pub proof fn lemma_delete_leaves_no_hit(pre: Editor, post: Editor, deleted: usize, t: int, i: int)
    requires
        pre.delete_result(post, deleted),
        0 <= t < pre.doc_tracks().len(),
        0 <= i < post.doc_tracks()[t].len(),
    ensures
        !pre.arrange_selection.spec_contains(
            pre.visual(t as usize) as u16,
            post.doc_tracks()[t][i].start_tick,
            post.doc_tracks()[t][i].key,
        ),
{
    let s = pre.track_of(t);
    let p = miss_pred(pre.arrange_selection, pre.visual(t as usize) as u16);
    assert(post.doc_tracks()[t] == s.filter(p));
    let n = post.doc_tracks()[t][i];
    assert(s.filter(p).contains(n));
    s.lemma_filter_contains_rev(p, n);
}

/// The visual row of a track that the visual order lists leads back to it.
pub proof fn lemma_visual_doc_track_inverse(order: Seq<usize>, t: usize)
    requires
        order.contains(t),
        order.len() <= usize::MAX,
    ensures
        doc_track_at(order, visual_of(order, t)) == t,
        visual_of(order, t) < order.len(),
{
    let j = choose|j: int| 0 <= j < order.len() && order[j] == t;
    lemma_first_index_exists(order, t, j);
    let i = choose|i: int| is_first_index(order, t, i);
    assert(is_first_index(order, t, i));
    assert(visual_of(order, t) == i as usize);
    assert(order[i] == t);
}

/// A listed track has a first position in the order.
proof fn lemma_first_index_exists(order: Seq<usize>, t: usize, j: int)
    requires
        0 <= j < order.len(),
        order[j] == t,
    ensures
        exists|i: int| is_first_index(order, t, i),
    decreases j,
{
    if exists|k: int| 0 <= k < j && order[k] == t {
        let k = choose|k: int| 0 <= k < j && order[k] == t;
        lemma_first_index_exists(order, t, k);
    } else {
        assert(is_first_index(order, t, j));
    }
}

/// Pasting whole beats across PPQNs keeps the beat count: `k` beats at
/// `src` ticks per beat become `k` beats at `target` ticks per beat.
pub proof fn lemma_resample_whole_beats(k: nat, src: u16, target: u16)
    requires
        src > 0,
    ensures
        resample(k * src, src, target) == k * target,
{
    if src != target {
        let x: int = k * src;
        assert(x >= 0) by (nonlinear_arith)
            requires
                x == k * src,
                k >= 0,
                src > 0,
        ;
        assert(2 * (x * target) + src == (2 * src) * (k * target) + src) by (nonlinear_arith)
            requires
                x == k * src,
        ;
        assert(((2 * src) * (k * target) + src) / (2 * src as int) == k * target) by (nonlinear_arith)
            requires
                src > 0,
                k >= 0,
                target >= 0,
        ;
    }
}

/// A razor cut at `tick` through note `n` yields two pieces that meet at
/// `tick`, start and end where `n` does, and together last as long as `n`.
pub proof fn lemma_razor_pieces(n: NoteEvent, tick: u32)
    requires
        straddles(n, tick),
    ensures
        razor_left(n, tick).start_tick == n.start_tick,
        razor_left(n, tick).end_tick == tick,
        razor_right(n, tick).start_tick == tick,
        razor_right(n, tick).end_tick == n.end_tick,
        span(razor_left(n, tick)) + span(razor_right(n, tick)) == span(n),
        razor_left(n, tick).key == n.key && razor_right(n, tick).key == n.key,
        razor_left(n, tick).velocity == n.velocity && razor_right(n, tick).velocity == n.velocity,
        razor_left(n, tick).channel == n.channel && razor_right(n, tick).channel == n.channel,
{
}

/// Removing a remote user's pointer right after setting it leaves the
/// pointers of every other user exactly as they were.
pub proof fn lemma_cursor_update_then_remove(c: Seq<RemoteCursor>, r: RemoteCursor)
    ensures
        cursors_without(cursors_without(c, r.user_id@).push(r), r.user_id@) == cursors_without(c, r.user_id@),
{
    let id = r.user_id@;
    let p = other_user(id);
    let once = c.filter(p);
    once.lemma_filter_push(r, p);
    assert(once.push(r).filter(p) == once.filter(p));
    lemma_filter_idempotent(c, p);
}

/// Filtering twice by the same predicate is filtering once.
proof fn lemma_filter_idempotent(c: Seq<RemoteCursor>, p: spec_fn(RemoteCursor) -> bool)
    ensures
        c.filter(p).filter(p) == c.filter(p),
    decreases c.len(),
{
    reveal(Seq::filter);
    if c.len() > 0 {
        lemma_filter_idempotent(c.drop_last(), p);
        let f = c.drop_last().filter(p);
        if p(c.last()) {
            f.lemma_filter_push(c.last(), p);
        }
    }
}

/// A copied note, in its clipboard form relative to origin tick `ot` and key
/// `ok`, pasted in the piano roll of an editor with the same PPQN whose
/// playback tick is `ot`, is the note itself.
proof fn lemma_roll_paste_clip_note(b: Editor, n: NoteEvent, ot: u32, ok: u8)
    requires
        ot <= n.start_tick <= n.end_tick,
        ok <= n.key <= b.max_key,
        b.playback_tick == ot,
    ensures
        b.roll_paste_note(roll_clip_note(n, ot, ok), ok as u16, b.spec_division()) == n,
{
    let c = roll_clip_note(n, ot, ok);
    assert(c.tick->0 as int == n.start_tick - ot);
    assert(c.length->0 as int == n.end_tick - n.start_tick);
    assert((c.key->0) as u16 == n.key - ok);
    assert(velocity_of(c) == n.velocity);
    assert(channel_of(c) == n.channel);
}

/// The clipboard forms of the notes `s` (relative to `ot`, `ok`) pasted in the
/// piano roll under the same conditions are the notes `s`.
proof fn lemma_roll_paste_clip_notes(b: Editor, s: Seq<NoteEvent>, ot: u32, ok: u8)
    requires
        forall|i: int| 0 <= i < s.len() ==> ot <= (#[trigger] s[i]).start_tick <= s[i].end_tick && ok <= s[i].key <= b.max_key,
        b.playback_tick == ot,
    ensures
        b.roll_paste_notes(s.map_values(|n: NoteEvent| roll_clip_note(n, ot, ok)), ok as u16, b.spec_division()) == s,
    decreases s.len(),
{
    let f = |n: NoteEvent| roll_clip_note(n, ot, ok);
    if s.len() > 0 {
        let init = s.drop_last();
        assert(s.map_values(f).drop_last() =~= init.map_values(f));
        lemma_roll_paste_clip_notes(b, init, ot, ok);
        lemma_roll_paste_clip_note(b, s.last(), ot, ok);
        assert(s =~= init.push(s.last()));
    } else {
        assert(s.map_values(f) =~= Seq::<ClipNote>::empty());
    }
}

/// Copy and paste in the piano roll keep length and data: pasting a
/// piano-roll copy into an editor with the same PPQN, with the playback tick
/// at the copy's origin tick, yields exactly the copied notes (notes that do
/// not end before they start, with keys the target allows).
pub proof fn lemma_roll_copy_paste_roundtrip(a: Editor, b: Editor, q: ClipboardPayload)
    requires
        a.roll_copy_of(q, a.current_track, a.spec_division()),
        b.spec_division() == a.spec_division(),
        b.playback_tick == min_start(on_track(a.roll_selected(), a.current_track)),
        forall|i: int| 0 <= i < a.roll_selected().len() ==> (#[trigger] a.roll_selected()[i]).start_tick
            <= a.roll_selected()[i].end_tick && a.roll_selected()[i].key <= b.max_key,
    ensures
        q.notes is Some && q.origin_key is Some,
        b.roll_paste_notes(q.notes->0@, (q.origin_key->0) as u16, source_division(&q)) == a.roll_selected(),
{
    let s = a.roll_selected();
    let e = on_track(s, a.current_track);
    lemma_min_start_key(e);
    assert forall|i: int| 0 <= i < s.len() implies min_start(e) <= (#[trigger] s[i]).start_tick <= s[i].end_tick
        && min_key(e) <= s[i].key <= b.max_key by {
        assert(e[i].1 == s[i]);
    }
    lemma_roll_paste_clip_notes(b, s, min_start(e), min_key(e));
}

/// A copied arrangement note pasted back under the copy's anchor lands on its
/// own track as the note itself.
proof fn lemma_arrange_paste_clip_note(a: Editor, b: Editor, x: (usize, NoteEvent), ot: u32, ok: u8, ov: usize)
    requires
        ot <= x.1.start_tick <= x.1.end_tick,
        ok <= x.1.key <= b.max_key,
        b.playback_tick == ot,
        b.spec_anchor_visual() == ov,
        b.track_visual_order@ == a.track_visual_order@,
        a.track_visual_order@.len() <= usize::MAX,
        a.track_visual_order@.contains(x.0),
        ov <= a.visual(x.0) < b.doc_tracks().len() <= i64::MAX,
    ensures
        b.arrange_paste_entry(a.arrange_clip_note(x, ot, ok, ov), ok as u16, b.spec_division()) == Some(x),
{
    let c = a.arrange_clip_note(x, ot, ok, ov);
    assert(c.tick->0 as int == x.1.start_tick - ot);
    assert(c.length->0 as int == x.1.end_tick - x.1.start_tick);
    assert((c.key->0) as u16 == x.1.key - ok);
    assert(velocity_of(c) == x.1.velocity);
    assert(channel_of(c) == x.1.channel);
    assert(c.track->0 as int == a.visual(x.0) - ov);
    lemma_visual_doc_track_inverse(a.track_visual_order@, x.0);
    assert(b.doc_track(a.visual(x.0)) == x.0);
}

/// The clipboard forms of the copied arrangement notes `e` pasted back under
/// the copy's anchor are the notes `e` on their own tracks.
proof fn lemma_arrange_paste_clip_notes(a: Editor, b: Editor, e: Seq<(usize, NoteEvent)>, ot: u32, ok: u8, ov: usize)
    requires
        forall|i: int| 0 <= i < e.len() ==> {
            &&& ot <= (#[trigger] e[i]).1.start_tick <= e[i].1.end_tick
            &&& ok <= e[i].1.key <= b.max_key
            &&& a.track_visual_order@.contains(e[i].0)
            &&& ov <= a.visual(e[i].0) < b.doc_tracks().len()
        },
        b.doc_tracks().len() <= i64::MAX,
        b.playback_tick == ot,
        b.spec_anchor_visual() == ov,
        b.track_visual_order@ == a.track_visual_order@,
        a.track_visual_order@.len() <= usize::MAX,
    ensures
        b.arrange_paste_entries(
            e.map_values(|x: (usize, NoteEvent)| a.arrange_clip_note(x, ot, ok, ov)),
            ok as u16,
            b.spec_division(),
        ) == e,
    decreases e.len(),
{
    let f = |x: (usize, NoteEvent)| a.arrange_clip_note(x, ot, ok, ov);
    if e.len() > 0 {
        let init = e.drop_last();
        assert(e.map_values(f).drop_last() =~= init.map_values(f));
        lemma_arrange_paste_clip_notes(a, b, init, ot, ok, ov);
        lemma_arrange_paste_clip_note(a, b, e.last(), ot, ok, ov);
        assert(e =~= init.push(e.last()));
    } else {
        assert(e.map_values(f) =~= Seq::<ClipNote>::empty());
    }
}

/// Copy and paste in the arrangement view keep the visual layout, length and
/// data: pasting an arrangement copy into an editor with the same PPQN and
/// visual track order, anchored at the copy's lowest visual row and with the
/// playback tick at its origin tick, inserts exactly the copied notes on
/// their own tracks (tracks the order lists on rows that exist; notes that do
/// not end before they start, with keys the target allows).
pub proof fn lemma_arrange_copy_paste_roundtrip(a: Editor, b: Editor, q: ClipboardPayload)
    requires
        a.arrange_copy_of(q),
        b.spec_division() == a.spec_division(),
        b.track_visual_order@ == a.track_visual_order@,
        a.track_visual_order@.len() <= usize::MAX,
        b.doc_tracks().len() <= i64::MAX,
        b.spec_anchor_visual() == a.min_visual(a.arrange_clip_notes()),
        b.playback_tick == min_start(a.arrange_clip_notes()),
        forall|i: int| 0 <= i < a.arrange_clip_notes().len() ==> {
            let x = #[trigger] a.arrange_clip_notes()[i];
            &&& x.1.start_tick <= x.1.end_tick
            &&& x.1.key <= b.max_key
            &&& a.track_visual_order@.contains(x.0)
            &&& a.visual(x.0) < b.doc_tracks().len()
        },
    ensures
        b.arrange_paste_plan(&q) == Some(a.arrange_clip_notes()),
{
    let e = a.arrange_clip_notes();
    let ot = min_start(e);
    let ok = min_key(e);
    let ov = a.min_visual(e);
    lemma_min_start_key(e);
    a.lemma_min_visual(e);
    assert forall|i: int| 0 <= i < q.notes->0@.len() implies note_complete(#[trigger] q.notes->0@[i]) by {
        assert(q.notes->0@[i] == a.arrange_clip_note(e[i], ot, ok, ov));
    }
    lemma_arrange_paste_clip_notes(a, b, e, ot, ok, ov);
    assert((q.origin_key->0) as u16 == ok as u16);
    assert(source_division(&q) == b.spec_division());
}

/// Selecting everything in the arrangement view covers every note that starts
/// before it ends, has a MIDI key and sits on a listed visual row.
pub proof fn lemma_select_all_covers(pre: Editor, post: Editor, t: int, i: int)
    requires
        pre.arrange_select_all_notes_result(post, true),
        0 <= t < pre.doc_tracks().len() <= 0x1_0000,
        0 <= i < pre.doc_tracks()[t].len(),
        pre.doc_tracks()[t][i].start_tick < pre.doc_tracks()[t][i].end_tick,
        pre.doc_tracks()[t][i].key <= 127,
        pre.visual(t as usize) < pre.doc_tracks().len(),
    ensures
        post.arrange_selection.spec_contains(
            pre.visual(t as usize) as u16,
            pre.doc_tracks()[t][i].start_tick,
            pre.doc_tracks()[t][i].key,
        ),
{
    let n = pre.doc_tracks()[t][i];
    lemma_max_end_tracks(pre.doc_tracks(), t, i);
    assert(rect_hit(post.arrange_selection.rects@[0], pre.visual(t as usize) as u16, n.start_tick, n.key));
}

/// Every note ends at or before the largest end tick of the document.
proof fn lemma_max_end_tracks(d: Seq<Seq<NoteEvent>>, t: int, i: int)
    requires
        0 <= t < d.len(),
        0 <= i < d[t].len(),
    ensures
        d[t][i].end_tick <= max_end_tracks(d),
    decreases d.len(),
{
    if t < d.len() - 1 {
        lemma_max_end_tracks(d.drop_last(), t, i);
        assert(d.drop_last()[t] == d[t]);
    } else {
        lemma_max_end(d[t], i);
    }
}

/// Every note of a track ends at or before its largest end tick.
proof fn lemma_max_end(s: Seq<NoteEvent>, i: int)
    requires
        0 <= i < s.len(),
    ensures
        s[i].end_tick <= max_end(s),
    decreases s.len(),
{
    if i < s.len() - 1 {
        lemma_max_end(s.drop_last(), i);
        assert(s.drop_last()[i] == s[i]);
    }
}

/// Moving a note by `dt` ticks and then by `-dt` brings it back, as long as
/// neither move reaches an end of the tick range.
pub proof fn lemma_move_then_back(n: NoteEvent, dt: i64)
    requires
        n.start_tick <= n.end_tick,
        0 <= n.start_tick + dt,
        n.end_tick + dt <= u32::MAX,
        dt > i64::MIN,
    ensures
        moved_note(moved_note(n, dt), (-dt) as i64) == n,
{
}

/// Inserting entries keeps every note the track held and never shortens it.
pub proof fn lemma_insert_entries_keeps(s: Seq<NoteEvent>, e: Seq<(usize, NoteEvent)>, t: usize, x: NoteEvent)
    requires
        s.contains(x),
    ensures
        insert_entries(s, e, t).contains(x),
        insert_entries(s, e, t).len() >= s.len(),
    decreases e.len(),
{
    if e.len() > 0 {
        lemma_insert_entries_keeps(s, e.drop_last(), t, x);
        let p = insert_entries(s, e.drop_last(), t);
        if e.last().0 == t {
            let pos = insert_pos(p, e.last().1.start_tick);
            lemma_insert_pos(p, e.last().1.start_tick);
            let i = choose|i: int| 0 <= i < p.len() && p[i] == x;
            let r = p.insert(pos, e.last().1);
            if i < pos {
                assert(r[i] == x);
            } else {
                assert(r[i + 1] == x);
            }
        }
    }
}

/// A committed copy-drag keeps every note of the current track: the copies
/// are added next to the originals.
pub proof fn lemma_copy_commit_keeps_originals(pre: Editor, post: Editor, done: bool, i: int)
    requires
        pre.copy_commit_result(post, done),
        done,
        0 <= i < pre.current_notes().len(),
    ensures
        post.current_notes().contains(pre.current_notes()[i]),
{
    let s = pre.current_notes();
    let ds = pre.pending_copy_drag_state->0;
    assert(s.contains(s[i]));
    lemma_insert_entries_keeps(
        s,
        drag_entries(s, ds.selected@, ds.delta_tick, ds.delta_key, pre.max_key, pre.current_track, s.len() as int),
        pre.current_track,
        s[i],
    );
}

/// Pasting the binary form of an arrangement copy lands every note where
/// pasting its text form does (for copies whose visual offsets fit the
/// binary record).
pub proof fn lemma_binary_paste_matches_text(a: Editor, b: Editor, q: ClipboardPayload)
    requires
        a.arrange_copy_of(q),
        forall|i: int| 0 <= i < a.arrange_clip_notes().len() ==> a.visual((#[trigger] a.arrange_clip_notes()[i]).0)
            - a.min_visual(a.arrange_clip_notes()) < 0x1_0000,
    ensures
        ({
            let e = a.arrange_clip_notes();
            let ot = min_start(e);
            let ok = min_key(e);
            let ov = a.min_visual(e);
            let h = BinaryHeader {
                division: a.spec_division(),
                origin_tick: ot,
                origin_key: ok,
                track_hint: ARRANGEMENT_BINARY_MARK,
                count: e.len() as u64,
            };
            let recs = e.map_values(|x: (usize, NoteEvent)| binary_record_of(x.1, ot, ok, (a.visual(x.0) - ov) as u16));
            b.arrange_binary_entries(h, recs) == b.arrange_paste_entries(q.notes->0@, (q.origin_key->0) as u16, source_division(&q))
        }),
{
    let e = a.arrange_clip_notes();
    lemma_min_start_key(e);
    a.lemma_min_visual(e);
    lemma_binary_text_entries(a, b, e, min_start(e), min_key(e), a.min_visual(e));
}

/// Induction step of `lemma_binary_paste_matches_text` over the copied notes.
proof fn lemma_binary_text_entries(a: Editor, b: Editor, e: Seq<(usize, NoteEvent)>, ot: u32, ok: u8, ov: usize)
    requires
        forall|i: int| 0 <= i < e.len() ==> {
            &&& ot <= (#[trigger] e[i]).1.start_tick
            &&& ok <= e[i].1.key
            &&& ov <= a.visual(e[i].0)
            &&& a.visual(e[i].0) - ov < 0x1_0000
        },
    ensures
        ({
            let h = BinaryHeader {
                division: a.spec_division(),
                origin_tick: ot,
                origin_key: ok,
                track_hint: ARRANGEMENT_BINARY_MARK,
                count: e.len() as u64,
            };
            let fb = |x: (usize, NoteEvent)| binary_record_of(x.1, ot, ok, (a.visual(x.0) - ov) as u16);
            let fj = |x: (usize, NoteEvent)| a.arrange_clip_note(x, ot, ok, ov);
            b.arrange_binary_entries(h, e.map_values(fb)) == b.arrange_paste_entries(e.map_values(fj), ok as u16, a.spec_division())
        }),
    decreases e.len(),
{
    let fb = |x: (usize, NoteEvent)| binary_record_of(x.1, ot, ok, (a.visual(x.0) - ov) as u16);
    let fj = |x: (usize, NoteEvent)| a.arrange_clip_note(x, ot, ok, ov);
    let h = BinaryHeader {
        division: a.spec_division(),
        origin_tick: ot,
        origin_key: ok,
        track_hint: ARRANGEMENT_BINARY_MARK,
        count: e.len() as u64,
    };
    if e.len() > 0 {
        let init = e.drop_last();
        let hi = BinaryHeader { count: init.len() as u64, ..h };
        lemma_binary_text_entries(a, b, init, ot, ok, ov);
        lemma_binary_entries_count(b, hi, h, init.map_values(fb));
        assert(e.map_values(fb).drop_last() =~= init.map_values(fb));
        assert(e.map_values(fj).drop_last() =~= init.map_values(fj));
        let x = e.last();
        let r = fb(x);
        let c = fj(x);
        assert(c.tick->0 as int == r.tick_offset);
        assert(c.length->0 as int == r.length);
        assert((c.key->0) as u16 == r.key_offset as u16);
        assert(velocity_of(c) == r.velocity);
        assert(channel_of(c) == r.channel);
        assert(c.track->0 as int == r.track);
        assert(b.arrange_binary_entry(h, r) == b.arrange_paste_entry(c, ok as u16, a.spec_division()));
    } else {
        assert(e.map_values(fb) =~= Seq::<BinaryRecord>::empty());
        assert(e.map_values(fj) =~= Seq::<ClipNote>::empty());
    }
}

/// The record count of the header plays no part in placing the records.
proof fn lemma_binary_entries_count(b: Editor, h1: BinaryHeader, h2: BinaryHeader, recs: Seq<BinaryRecord>)
    requires
        h1.division == h2.division,
        h1.origin_key == h2.origin_key,
    ensures
        b.arrange_binary_entries(h1, recs) == b.arrange_binary_entries(h2, recs),
    decreases recs.len(),
{
    if recs.len() > 0 {
        lemma_binary_entries_count(b, h1, h2, recs.drop_last());
    }
}

/// The keyboard colours at a tick are determined by the notes, the track
/// colours and the tick alone: two tables for the same notes at the same
/// tick are equal. So the incremental scan (`PlaybackScan::advance`, whatever
/// ticks it went through before) and a fresh full scan
/// (`Editor::playback_key_colors`) give the same colours.
pub proof fn lemma_key_colors_unique(
    c1: Seq<u8>,
    c2: Seq<u8>,
    tracks: Seq<Seq<NoteEvent>>,
    colors: Seq<Seq<u8>>,
    tick: u32,
)
    requires
        key_colors_at(c1, tracks, colors, tick),
        key_colors_at(c2, tracks, colors, tick),
    ensures
        c1 == c2,
{
    assert forall|i: int| 0 <= i < 1024 implies c1[i] == c2[i] by {
        let k = i / 4;
        let m = i % 4;
        assert(i == 4 * k + m);
        if tick == 0 {
            assert(c1[i] == 0 && c2[i] == 0);
        } else {
            assert(key_color_ok(c1, tracks, colors, tick, k));
            assert(key_color_ok(c2, tracks, colors, tick, k));
            if exists|t: int| 0 <= t < tracks.len() && #[trigger] key_sounds(tracks[t], k, tick) {
                let a = choose|t: int| #[trigger] is_top_track(tracks, k, tick, t) && key_painted(c1, k, colors[t]);
                let b = choose|t: int| #[trigger] is_top_track(tracks, k, tick, t) && key_painted(c2, k, colors[t]);
                if a < b {
                    assert(!key_sounds(tracks[b], k, tick));
                } else if b < a {
                    assert(!key_sounds(tracks[a], k, tick));
                }
                assert(c1[4 * k + m] == colors[a][m]);
                assert(c2[4 * k + m] == colors[b][m]);
            } else {
                assert(c1[4 * k + m] == seq![0u8, 0u8, 0u8, 0u8][m]);
                assert(c2[4 * k + m] == seq![0u8, 0u8, 0u8, 0u8][m]);
            }
        }
    }
    assert(c1 =~= c2);
}

/// The arrangement selection has selected notes (what
/// `Editor::arrangement_has_selected_notes` returns) exactly when some note
/// of some document track lies in the selection at that track's visual row
/// (the last row at which the visual order lists the track, else the track's
/// own index).
pub proof fn lemma_has_selected_notes_iff_covered(e: Editor)
    ensures
        (e.spec_hit_groups().len() > 0) == exists|t: int, i: int|
            0 <= t < e.doc_tracks().len() && 0 <= i < e.track_of(t).len()
                && #[trigger] e.arrange_selection.spec_contains(
                    e.scan_visual(t as usize) as u16,
                    e.track_of(t)[i].start_tick,
                    e.track_of(t)[i].key,
                ),
{
    let covered = exists|t: int, i: int|
        0 <= t < e.doc_tracks().len() && 0 <= i < e.track_of(t).len()
            && #[trigger] e.arrange_selection.spec_contains(
                e.scan_visual(t as usize) as u16,
                e.track_of(t)[i].start_tick,
                e.track_of(t)[i].key,
            );
    if e.document is None {
        assert(e.doc_tracks().len() == 0);
    } else if e.arrange_selection.spec_is_empty() {
        if covered {
            let (t, i) = choose|t: int, i: int|
                0 <= t < e.doc_tracks().len() && 0 <= i < e.track_of(t).len()
                    && #[trigger] e.arrange_selection.spec_contains(
                        e.scan_visual(t as usize) as u16,
                        e.track_of(t)[i].start_tick,
                        e.track_of(t)[i].key,
                    );
            assert(e.arrange_selection.spec_contains(
                e.scan_visual(t as usize) as u16,
                e.track_of(t)[i].start_tick,
                e.track_of(t)[i].key,
            ));
        }
    } else {
        lemma_hit_groups_nonempty(e, e.doc_tracks().len() as int);
        if covered {
            let (t, i) = choose|t: int, i: int|
                0 <= t < e.doc_tracks().len() && 0 <= i < e.track_of(t).len()
                    && #[trigger] e.arrange_selection.spec_contains(
                        e.scan_visual(t as usize) as u16,
                        e.track_of(t)[i].start_tick,
                        e.track_of(t)[i].key,
                    );
            lemma_track_hits_nonempty(e, t);
        } else {
            assert forall|t: int| 0 <= t < e.doc_tracks().len() implies #[trigger] e.track_hits(t).len() == 0 by {
                lemma_track_hits_nonempty(e, t);
                if e.track_hits(t).len() > 0 {
                    let i = choose|i: int| 0 <= i < e.track_of(t).len() && e.arrange_selection.spec_contains(
                        e.scan_visual(t as usize) as u16,
                        e.track_of(t)[i].start_tick,
                        e.track_of(t)[i].key,
                    );
                    assert(e.arrange_selection.spec_contains(
                        e.scan_visual(t as usize) as u16,
                        e.track_of(t)[i].start_tick,
                        e.track_of(t)[i].key,
                    ));
                }
            }
        }
    }
}

/// The hit groups of the first `k` tracks are non-empty exactly when one of
/// those tracks has a hit.
proof fn lemma_hit_groups_nonempty(e: Editor, k: int)
    ensures
        (e.hit_groups_upto(k).len() > 0) == exists|t: int| 0 <= t < k && #[trigger] e.track_hits(t).len() > 0,
    decreases k,
{
    if k > 0 {
        lemma_hit_groups_nonempty(e, k - 1);
        if e.hit_groups_upto(k - 1).len() > 0 {
            let t = choose|t: int| 0 <= t < k - 1 && #[trigger] e.track_hits(t).len() > 0;
            assert(e.track_hits(t).len() > 0);
        }
    }
}

/// A track has hits exactly when one of its notes lies in the selection at
/// the track's visual row.
proof fn lemma_track_hits_nonempty(e: Editor, t: int)
    ensures
        (e.track_hits(t).len() > 0) == exists|i: int| 0 <= i < e.track_of(t).len() && e.arrange_selection.spec_contains(
            e.scan_visual(t as usize) as u16,
            e.track_of(t)[i].start_tick,
            e.track_of(t)[i].key,
        ),
{
    let s = e.track_of(t);
    let p = crate::arrange_query::hit_pred(e.arrange_selection, e.scan_visual(t as usize) as u16);
    if e.track_hits(t).len() > 0 {
        s.lemma_filter_pred(p, 0);
        let x = s.filter(p)[0];
        assert(s.filter(p).contains(x));
        s.lemma_filter_contains_rev(p, x);
        let i = choose|i: int| 0 <= i < s.len() && s[i] == x;
        assert(p(s[i]));
    }
    if exists|i: int| 0 <= i < s.len() && e.arrange_selection.spec_contains(
        e.scan_visual(t as usize) as u16,
        s[i].start_tick,
        s[i].key,
    ) {
        let i = choose|i: int| 0 <= i < s.len() && e.arrange_selection.spec_contains(
            e.scan_visual(t as usize) as u16,
            s[i].start_tick,
            s[i].key,
        );
        assert(p(s[i]));
        s.lemma_filter_contains(p, i);
    }
}

/// The arrangement paste anchor, when the selection has rectangles, is the
/// lowest of their lower visual rows: at most the lower row of every
/// rectangle, and equal to the lower row of one of them.
pub proof fn lemma_anchor_is_lowest_rect_row(e: Editor)
    requires
        e.arrange_selection.rects@.len() > 0,
    ensures
        forall|i: int| 0 <= i < e.arrange_selection.rects@.len()
            ==> e.spec_anchor_visual() <= (#[trigger] e.arrange_selection.rects@[i]).4,
        exists|j: int| 0 <= j < e.arrange_selection.rects@.len()
            && e.spec_anchor_visual() == (#[trigger] e.arrange_selection.rects@[j]).4,
{
    let r = e.arrange_selection.rects@;
    lemma_min_rect_row(r);
    assert(!e.arrange_selection.spec_is_empty());
}

/// The smallest lower row of non-empty rectangles `r` is one of their lower
/// rows and at most each of them.
proof fn lemma_min_rect_row(r: Seq<SelRect>)
    requires
        r.len() > 0,
    ensures
        crate::arrange_query::min_rect_visual(r) is Some,
        forall|i: int| 0 <= i < r.len() ==> crate::arrange_query::min_rect_visual(r)->0 <= (#[trigger] r[i]).4,
        exists|j: int| 0 <= j < r.len() && crate::arrange_query::min_rect_visual(r)->0 == (#[trigger] r[j]).4,
    decreases r.len(),
{
    let d = r.drop_last();
    if d.len() == 0 {
        assert(r[0] == r.last());
    } else {
        lemma_min_rect_row(d);
        let m = crate::arrange_query::min_rect_visual(d)->0;
        assert forall|i: int| 0 <= i < r.len() implies crate::arrange_query::min_rect_visual(r)->0 <= (#[trigger] r[i]).4 by {
            if i < d.len() {
                assert(r[i] == d[i]);
            }
        }
        let j = choose|j: int| 0 <= j < d.len() && m == (#[trigger] d[j]).4;
        assert(r[j] == d[j]);
        assert(r[r.len() - 1] == r.last());
    }
}

/// The lowest visual row of copied notes is the row of one of them and at
/// most the row of each.
proof fn lemma_min_visual_attained(e: Editor, c: Seq<(usize, NoteEvent)>)
    requires
        c.len() > 0,
    ensures
        exists|i: int| 0 <= i < c.len() && e.min_visual(c) == e.visual((#[trigger] c[i]).0),
        forall|i: int| 0 <= i < c.len() ==> e.min_visual(c) <= e.visual((#[trigger] c[i]).0),
    decreases c.len(),
{
    e.lemma_min_visual(c);
    let d = c.drop_last();
    if d.len() == 0 {
        assert(c[0] == c.last());
    } else {
        lemma_min_visual_attained(e, d);
        let j = choose|j: int| 0 <= j < d.len() && e.min_visual(d) == e.visual((#[trigger] d[j]).0);
        assert(c[j] == d[j]);
        assert(c[c.len() - 1] == c.last());
    }
}

/// The payload of an arrangement copy of at least one note is anchored at
/// the visual row of one of the copied notes, the lowest: that note has
/// track offset 0 and every note a track offset of at least 0.
pub proof fn lemma_arrange_copy_origin(e: Editor, q: ClipboardPayload)
    requires
        e.arrange_copy_of(q),
        e.arrange_clip_notes().len() > 0,
    ensures
        exists|i: int| 0 <= i < e.arrange_clip_notes().len()
            && q.origin_track == Some(e.visual((#[trigger] e.arrange_clip_notes()[i]).0) as u64)
            && q.notes->0@[i].track == Some(0i64),
        q.notes->0@.len() == e.arrange_clip_notes().len(),
        forall|i: int| 0 <= i < e.arrange_clip_notes().len() ==> {
            let x = #[trigger] e.arrange_clip_notes()[i];
            &&& q.origin_track->0 <= e.visual(x.0)
            &&& q.notes->0@[i].track == Some((e.visual(x.0) - q.origin_track->0) as i64)
        },
{
    let c = e.arrange_clip_notes();
    lemma_min_visual_attained(e, c);
    let ov = e.min_visual(c);
    let i = choose|i: int| 0 <= i < c.len() && ov == e.visual((#[trigger] c[i]).0);
    assert(q.notes->0@[i].track == Some((e.visual(c[i].0) - ov) as i64));
    assert forall|j: int| 0 <= j < c.len() implies {
        let x = #[trigger] c[j];
        &&& q.origin_track->0 <= e.visual(x.0)
        &&& q.notes->0@[j].track == Some((e.visual(x.0) - q.origin_track->0) as i64)
    } by {
        assert(q.notes->0@[j].track == Some((e.visual(c[j].0) - ov) as i64));
        assert(ov <= e.visual(c[j].0));
    }
}

/// A razor cut of the notes `l` at `tick` into track `t` puts, for each cut
/// note, its part from `tick` on and its part before `tick`; both parts keep
/// the note's key, velocity and channel.
pub proof fn lemma_razor_entries_keep_notes(l: Seq<NoteEvent>, tick: u32, t: usize)
    ensures
        razor_entries(l, tick, t).len() == 2 * l.len(),
        forall|i: int| #![trigger l[i]] 0 <= i < l.len() ==> {
            let right = razor_entries(l, tick, t)[2 * (l.len() - 1 - i)];
            let left = razor_entries(l, tick, t)[2 * (l.len() - 1 - i) + 1];
            &&& right.0 == t && left.0 == t
            &&& right.1 == (NoteEvent {
                start_tick: tick,
                end_tick: l[i].end_tick,
                key: l[i].key,
                velocity: l[i].velocity,
                channel: l[i].channel,
            })
            &&& left.1 == (NoteEvent {
                start_tick: l[i].start_tick,
                end_tick: tick,
                key: l[i].key,
                velocity: l[i].velocity,
                channel: l[i].channel,
            })
        },
    decreases l.len(),
{
    if l.len() > 0 {
        let d = l.drop_last();
        lemma_razor_entries_keep_notes(d, tick, t);
        let r = razor_entries(l, tick, t);
        let rd = razor_entries(d, tick, t);
        assert forall|i: int| #![trigger l[i]] 0 <= i < l.len() implies {
            let right = r[2 * (l.len() - 1 - i)];
            let left = r[2 * (l.len() - 1 - i) + 1];
            &&& right.0 == t && left.0 == t
            &&& right.1 == (NoteEvent {
                start_tick: tick,
                end_tick: l[i].end_tick,
                key: l[i].key,
                velocity: l[i].velocity,
                channel: l[i].channel,
            })
            &&& left.1 == (NoteEvent {
                start_tick: l[i].start_tick,
                end_tick: tick,
                key: l[i].key,
                velocity: l[i].velocity,
                channel: l[i].channel,
            })
        } by {
            if i < d.len() {
                assert(l[i] == d[i]);
                assert(r[2 * (l.len() - 1 - i)] == rd[2 * (d.len() - 1 - i)]);
                assert(r[2 * (l.len() - 1 - i) + 1] == rd[2 * (d.len() - 1 - i) + 1]);
            } else {
                assert(l[i] == l.last());
            }
        }
    }
}

/// A dragged note keeps the velocity and channel of the note it comes from;
/// its start is the old start moved by `dt` (clamped to the tick range), its
/// key the old key moved by `dk` (clamped to `[0, max_key]`), and it keeps
/// its length when that fits.
pub proof fn lemma_dragged_note_fields(n: NoteEvent, dt: i64, dk: i16, max_key: u8)
    ensures
        dragged_note(n, dt, dk, max_key).velocity == n.velocity,
        dragged_note(n, dt, dk, max_key).channel == n.channel,
        dragged_note(n, dt, dk, max_key).start_tick == (if n.start_tick + dt < 0 {
            0
        } else if n.start_tick + dt > u32::MAX {
            u32::MAX as int
        } else {
            n.start_tick + dt
        }),
        dragged_note(n, dt, dk, max_key).key == (if n.key + dk < 0 {
            0
        } else if n.key + dk > max_key {
            max_key as int
        } else {
            n.key + dk
        }),
        n.start_tick <= n.end_tick && dragged_note(n, dt, dk, max_key).start_tick + (n.end_tick - n.start_tick) <= u32::MAX
            ==> dragged_note(n, dt, dk, max_key).end_tick - dragged_note(n, dt, dk, max_key).start_tick == n.end_tick - n.start_tick,
{
}

/// `placed` is the note a drag by `dk` keys into track `t` makes of `src`:
/// addressed to `t`, same velocity and channel, key moved by `dk` and
/// clamped to `[0, max_key]`.
pub open spec fn drag_keeps(src: NoteEvent, placed: (usize, NoteEvent), t: usize, dk: i16, max_key: u8) -> bool {
    &&& placed.0 == t
    &&& placed.1.velocity == src.velocity
    &&& placed.1.channel == src.channel
    &&& placed.1.key == (if src.key + dk < 0 {
        0
    } else if src.key + dk > max_key {
        max_key as int
    } else {
        src.key + dk
    })
}

/// In a batch drag, the `j`-th placed note comes from the `j`-th taken note:
/// same velocity and channel, key moved by the drag's key offset (clamped).
pub proof fn lemma_drag_entries_keep_notes(s: Seq<NoteEvent>, sel: Seq<usize>, dt: i64, dk: i16, max_key: u8, t: usize, k: int)
    requires
        k <= s.len(),
    ensures
        drag_entries(s, sel, dt, dk, max_key, t, k).len() == drag_sources(s, sel, k).len(),
        forall|j: int| 0 <= j < drag_sources(s, sel, k).len() ==> #[trigger] drag_keeps(
            drag_sources(s, sel, k)[j],
            drag_entries(s, sel, dt, dk, max_key, t, k)[j],
            t,
            dk,
            max_key,
        ),
    decreases k,
{
    if k > 0 {
        lemma_drag_entries_keep_notes(s, sel, dt, dk, max_key, t, k - 1);
        lemma_dragged_note_fields(s[k - 1], dt, dk, max_key);
        let ps = drag_sources(s, sel, k - 1);
        let pe = drag_entries(s, sel, dt, dk, max_key, t, k - 1);
        let cs = drag_sources(s, sel, k);
        let ce = drag_entries(s, sel, dt, dk, max_key, t, k);
        assert forall|j: int| 0 <= j < cs.len() implies #[trigger] drag_keeps(cs[j], ce[j], t, dk, max_key) by {
            if j < ps.len() {
                assert(cs[j] == ps[j]);
                assert(ce[j] == pe[j]);
                assert(drag_keeps(ps[j], pe[j], t, dk, max_key));
            }
        }
    }
}

/// `x` is what a speed change makes of the note at position `p` of track
/// `t`: addressed to `t`, same key, velocity and channel, and start and end
/// given by a retime of `g` for one of the first `k` covered notes, the one
/// at position `p`.
pub open spec fn speed_keeps(e: Editor, t: int, g: Seq<Option<(u32, u32)>>, k: int, p: usize, x: (usize, NoteEvent)) -> bool {
    let src = e.track_of(t)[p as int];
    &&& x.0 == t as usize
    &&& x.1.key == src.key
    &&& x.1.velocity == src.velocity
    &&& x.1.channel == src.channel
    &&& exists|q: int| 0 <= q < k && e.hit_positions(t)[q] == p
        && #[trigger] crate::speed_change::retime_at(g, q) == Some((x.1.start_tick, x.1.end_tick))
}

/// A speed change alters only the start and end of each retimed note: the
/// `j`-th retimed entry of track `t` keeps the key, velocity and channel of
/// the `j`-th retimed note of the track, and takes the start and end its
/// retime gives.
pub proof fn lemma_speed_entries_keep_notes(e: Editor, t: int, g: Seq<Option<(u32, u32)>>, k: int)
    requires
        k <= e.hit_positions(t).len(),
    ensures
        e.speed_entries(t, g, k).len() == e.speed_mods(t, g, k).len(),
        forall|j: int| 0 <= j < e.speed_mods(t, g, k).len() ==> #[trigger] speed_keeps(
            e,
            t,
            g,
            k,
            e.speed_mods(t, g, k)[j],
            e.speed_entries(t, g, k)[j],
        ),
    decreases k,
{
    if k > 0 {
        lemma_speed_entries_keep_notes(e, t, g, k - 1);
        let pm = e.speed_mods(t, g, k - 1);
        let pe = e.speed_entries(t, g, k - 1);
        let cm = e.speed_mods(t, g, k);
        let ce = e.speed_entries(t, g, k);
        assert forall|j: int| 0 <= j < cm.len() implies #[trigger] speed_keeps(e, t, g, k, cm[j], ce[j]) by {
            if j < pm.len() {
                assert(cm[j] == pm[j]);
                assert(ce[j] == pe[j]);
                assert(speed_keeps(e, t, g, k - 1, pm[j], pe[j]));
                let q = choose|q: int| 0 <= q < k - 1 && e.hit_positions(t)[q] == pm[j]
                    && #[trigger] crate::speed_change::retime_at(g, q) == Some((pe[j].1.start_tick, pe[j].1.end_tick));
                assert(crate::speed_change::retime_at(g, q) == Some((ce[j].1.start_tick, ce[j].1.end_tick)));
            } else {
                assert(crate::speed_change::retime_at(g, k - 1) == Some((ce[j].1.start_tick, ce[j].1.end_tick)));
            }
        }
    }
}

} // verus!
