use ui_editor::document::MidiDocument;
use ui_editor::edit_view::{EditView, SelectionSnapshot};
use ui_editor::commit::CommitPoll;
use ui_editor::editor::{CollabEvent, DragState, Editor};
use ui_editor::grid::{LoopHitTest, PianoRollGrid, VerticalRollGrid};
use ui_editor::note::NoteEvent;
use ui_editor::track_list::MuteSoloButton;

fn note(start: u32, end: u32, key: u8) -> NoteEvent {
    NoteEvent::new(start, end, key, 100, 0)
}

fn editor_with_track(notes: &[NoteEvent]) -> Editor {
    let mut editor = Editor::new();
    let mut doc = MidiDocument::new(2, 480);
    for n in notes {
        doc.insert_note(0, *n);
    }
    editor.document = Some(doc);
    editor
}

#[test]
fn test_ctrl_pressed_defaults_false() {
    let editor = Editor::new();
    assert!(!editor.ctrl_pressed());
}

#[test]
fn test_ctrl_pressed_set_and_get() {
    let mut editor = Editor::new();
    editor.set_ctrl_pressed(true);
    assert!(editor.ctrl_pressed());
    editor.set_ctrl_pressed(false);
    assert!(!editor.ctrl_pressed());
}

#[test]
fn test_shift_pressed_set_and_get() {
    let mut editor = Editor::new();
    assert!(!editor.shift_pressed());
    editor.set_shift_pressed(true);
    assert!(editor.shift_pressed());
}

#[test]
fn test_view_predicates() {
    assert!(EditView::Arrangement.is_arrangement());
    assert!(!EditView::PianoRoll.is_arrangement());
    assert!(EditView::Arrangement.selection_is_cross_track());
    assert!(!EditView::PianoRoll.selection_is_cross_track());
    assert_eq!(EditView::PianoRoll.as_str(), "钢琴卷帘");
    assert_eq!(EditView::Arrangement.as_str(), "工程走带");
    assert_eq!(EditView::default(), EditView::PianoRoll);
}

#[test]
fn test_empty_snapshot_is_empty_for_both_views() {
    for view in [EditView::PianoRoll, EditView::Arrangement] {
        let s = SelectionSnapshot::empty(view);
        assert!(s.is_empty(), "{view:?} 的空快照应判空");
        assert_eq!(s.note_count(), 0);
        assert_eq!(s.track_count(), 0);
        assert_eq!(s.view(), view, "空快照应保留视图信息");
    }
}

#[test]
fn test_snapshot_with_empty_track_groups_is_empty() {
    let s = SelectionSnapshot::new(EditView::Arrangement, vec![(0, Vec::new())]);
    assert!(s.is_empty(), "结构非空但无命中音符时必须判空，否则菜单能点却无对象可操作");
    assert_eq!(s.track_count(), 1, "分组数仍应如实报告");
}

#[test]
fn test_snapshot_counts() {
    let n = |tick, key| NoteEvent::new(tick, tick + 10, key, 100, 0);
    let s = SelectionSnapshot::new(
        EditView::Arrangement,
        vec![(0, vec![n(0, 60), n(10, 62)]), (2, vec![n(20, 64)])],
    );
    assert!(!s.is_empty());
    assert_eq!(s.note_count(), 3);
    assert_eq!(s.track_count(), 2);
    assert_eq!(s.into_tracks().len(), 2);
}

#[test]
fn test_remote_cursor_update_replaces_and_remove_drops() {
    let mut editor = Editor::new();
    editor.update_remote_cursor("a".to_string(), 1, 2, "#f00".to_string(), "Ann".to_string());
    editor.update_remote_cursor("b".to_string(), 3, 4, "#0f0".to_string(), "Bob".to_string());
    editor.update_remote_cursor("a".to_string(), 5, 6, "#f00".to_string(), "Ann".to_string());
    assert_eq!(editor.remote_cursors.len(), 2);
    assert_eq!(editor.remote_cursors[0].user_id, "b");
    assert_eq!(editor.remote_cursors[1].x, 5);
    editor.remove_remote_cursor("a");
    assert_eq!(editor.remote_cursors.len(), 1);
    assert_eq!(editor.remote_cursors[0].user_id, "b");
    assert!(!editor.grid_cache_valid);
}

#[test]
fn test_dirty_marks() {
    let mut editor = Editor::new();
    editor.mark_ghost_dirty();
    assert!(editor.notes_changed);
    assert!(!editor.grid_cache_valid);
    assert!(!editor.note_index_dirty);
    editor.mark_notes_changed();
    assert!(editor.note_index_dirty);
}

#[test]
fn test_visual_position_and_document_track() {
    let mut editor = editor_with_track(&[]);
    editor.track_visual_order = vec![1, 0];
    assert_eq!(editor.visual_position_of(0), Some(1));
    assert_eq!(editor.visual_position_of(5), None);
    assert_eq!(editor.visual_pos(5), 5);
    assert_eq!(editor.document_track_at(0), 1);
    assert_eq!(editor.document_track_at(7), 7);
    assert_eq!(editor.track_count(), 2);
    assert_eq!(editor.division(), 480);
    assert_eq!(Editor::new().division(), 480);
}

#[test]
fn test_commit_pending_drag_moves_selected_notes() {
    let mut editor = editor_with_track(&[note(0, 100, 60), note(200, 300, 62)]);
    editor.pending_drag_state = Some(DragState::new(vec![1], 480, 2));
    assert!(editor.has_pending_drag());
    assert!(editor.commit_pending_drag());
    assert_eq!(editor.async_commit, Some(1));
    assert_eq!(editor.track_notes(0), vec![note(0, 100, 60), note(680, 780, 64)]);
    assert_eq!(editor.poll_async_commit(), Some(1));
    assert!(editor.pending_drag_state.is_none());
    assert!(!editor.has_pending_drag());
    assert!(editor.notes_changed);
    assert_eq!(editor.poll_async_commit(), None);
    assert!(editor.undo());
    assert_eq!(editor.track_notes(0), vec![note(0, 100, 60), note(200, 300, 62)]);
    assert!(editor.redo());
    assert_eq!(editor.track_notes(0), vec![note(0, 100, 60), note(680, 780, 64)]);
}

#[test]
fn test_commit_pending_drag_zero_delta_is_dropped() {
    let mut editor = editor_with_track(&[note(0, 100, 60)]);
    editor.pending_drag_state = Some(DragState::new(vec![0], 0, 0));
    assert!(!editor.commit_pending_drag());
    assert!(editor.pending_drag_state.is_none());
    assert!(!editor.can_undo());
}

#[test]
fn test_commit_pending_drag_clamps_key_and_tick() {
    let mut editor = editor_with_track(&[note(100, 200, 120)]);
    editor.pending_drag_state = Some(DragState::new(vec![0], -500, 20));
    assert!(editor.commit_pending_drag());
    assert_eq!(editor.track_notes(0), vec![note(0, 100, 127)]);
}

#[test]
fn test_commit_pending_drag_yields_to_remote_lock() {
    let mut editor = editor_with_track(&[note(0, 100, 60)]);
    editor.local_selection_locked = true;
    editor.pending_drag_state = Some(DragState::new(vec![0], 10, 0));
    assert!(!editor.commit_pending_drag());
    assert!(editor.pending_drag_state.is_some());
    assert_eq!(editor.track_notes(0), vec![note(0, 100, 60)]);
}

#[test]
fn test_commit_pending_copy_selects_copies_only() {
    let mut editor = editor_with_track(&[note(0, 100, 60), note(200, 300, 62)]);
    editor.selected_notes = vec![0];
    editor.pending_copy_drag_state = Some(DragState::new(vec![0], 150, 0));
    assert!(editor.commit_pending_copy());
    assert_eq!(
        editor.track_notes(0),
        vec![note(0, 100, 60), note(150, 250, 60), note(200, 300, 62)]
    );
    assert_eq!(editor.selected_notes, vec![1]);
    assert!(editor.pending_copy_drag_state.is_none());
    assert!(editor.can_undo());
}

#[test]
fn test_commit_current_edit_commits_drag_and_copy() {
    let mut editor = editor_with_track(&[note(0, 100, 60)]);
    assert!(!editor.is_editing());
    assert!(!editor.commit_current_edit());
    editor.pending_drag_state = Some(DragState::new(vec![0], 100, 0));
    assert!(editor.is_editing());
    assert!(editor.commit_current_edit());
    assert!(editor.async_commit.is_none(), "保存前不得留有进行中的提交");
    assert!(editor.pending_drag_state.is_none());
    assert_eq!(editor.track_notes(0), vec![note(100, 200, 60)]);
    assert!(!editor.is_editing());
}

#[test]
fn test_commit_current_edit_reports_only_changed_notes() {
    let mut editor = editor_with_track(&[note(0, 100, 60)]);
    editor.pending_drag_state = Some(DragState::new(vec![0], 0, 0));
    assert!(editor.is_editing());
    assert!(!editor.commit_current_edit(), "a zero-offset drag commits nothing");
    assert!(editor.pending_drag_state.is_none());
    assert_eq!(editor.track_notes(0), vec![note(0, 100, 60)]);
    editor.pending_drag_state = Some(DragState::new(vec![0], -50, 0));
    assert!(!editor.commit_current_edit(), "a note clamped at tick 0 does not move");
    assert_eq!(editor.track_notes(0), vec![note(0, 100, 60)]);
    editor.pending_copy_drag_state = Some(DragState::new(vec![0], 200, 0));
    assert!(editor.commit_current_edit());
    assert_eq!(editor.track_notes(0), vec![note(0, 100, 60), note(200, 300, 60)]);
}

#[test]
fn test_undo_blocked_while_copy_pending() {
    let mut editor = editor_with_track(&[note(0, 100, 60)]);
    editor.push_history();
    editor.pending_copy_drag_state = Some(DragState::new(vec![0], 10, 0));
    assert!(!editor.undo());
    assert!(editor.can_undo());
    editor.clear_pending_drag();
    assert!(editor.undo());
    assert!(!editor.can_undo());
    assert!(editor.can_redo());
}

#[test]
fn test_undo_remaps_selection_by_value() {
    let mut editor = editor_with_track(&[note(0, 10, 60), note(100, 110, 62)]);
    editor.selected_notes = vec![1];
    editor.push_history();
    editor.insert_note(0, note(50, 60, 61));
    editor.selected_notes = vec![2];
    assert!(editor.undo());
    assert_eq!(editor.selected_notes, vec![1], "撤销后选区按值重映射");
    assert!(!editor.grid_cache_valid);
}

#[test]
fn test_undo_without_history_fails() {
    let mut editor = editor_with_track(&[]);
    assert!(!editor.undo());
    assert!(!editor.redo());
    editor.push_history();
    editor.discard_last_history();
    assert!(!editor.can_undo());
}

#[test]
fn test_switch_to_track_clears_both_selections() {
    let mut editor = editor_with_track(&[note(0, 10, 60)]);
    editor.selected_notes = vec![0];
    editor.arrange_selection.rects.push((0, 10, 0, 127, 0, 0));
    assert!(editor.has_selection());
    editor.switch_to_track(1);
    assert_eq!(editor.current_track, 1);
    assert!(!editor.has_selection());
    assert!(editor.arrange_selection.is_empty());
    editor.selected_notes = vec![0];
    editor.selection_clear();
    assert!(!editor.has_selection());
}

#[test]
fn test_grid_programs_and_enums() {
    let editor = Editor::new();
    let g = PianoRollGrid::new(&editor);
    assert_eq!(g.editor.current_track, 0);
    let v = VerticalRollGrid::new(&editor);
    assert_eq!(v.editor.max_key, 127);
    assert_ne!(LoopHitTest::Miss, LoopHitTest::Body);
    assert_ne!(LoopHitTest::StartHandle, LoopHitTest::EndHandle);
    assert_ne!(MuteSoloButton::Mute, MuteSoloButton::Solo);
}

#[test]
fn test_finalize_dragging_moves_and_reselects() {
    let mut editor = editor_with_track(&[note(0, 100, 60), note(200, 300, 62)]);
    editor.selected_notes = vec![0];
    assert!(editor.finalize_dragging(1, &DragState::new(vec![1], 480, 2)));
    assert_eq!(editor.track_notes(0), vec![note(0, 100, 60), note(680, 780, 64)]);
    assert_eq!(editor.selected_notes, vec![1], "选中跟随被拖动音符的新位置");
    assert!(editor.undo());
    assert_eq!(editor.track_notes(0), vec![note(0, 100, 60), note(200, 300, 62)]);
    assert!(!editor.finalize_dragging(5, &DragState::new(vec![5], 10, 0)), "越界索引不提交");
    assert!(!editor.finalize_dragging(0, &DragState::new(vec![0], 0, 0)), "零偏移不提交");
}

#[test]
fn test_finalize_dragging_zero_length_note_not_reselected() {
    let mut editor = editor_with_track(&[note(200, 200, 62)]);
    assert!(editor.finalize_dragging(0, &DragState::new(vec![0], 10, 0)));
    assert_eq!(editor.track_notes(0), vec![note(210, 210, 62)]);
    assert!(editor.selected_notes.is_empty());
    assert!(!editor.finalize_dragging(0, &DragState::new(vec![], 10, 0)));
    assert!(editor.can_undo());
}

#[test]
fn test_undo_of_move_selects_original_notes() {
    let mut editor = editor_with_track(&[note(0, 100, 60), note(200, 300, 62)]);
    editor.pending_drag_state = Some(DragState::new(vec![0], 500, 0));
    assert!(editor.commit_pending_drag());
    assert_eq!(editor.poll_async_commit(), Some(1));
    assert_eq!(editor.track_notes(0), vec![note(200, 300, 62), note(500, 600, 60)]);
    editor.selected_notes = vec![1];
    assert!(editor.undo());
    assert_eq!(editor.track_notes(0), vec![note(0, 100, 60), note(200, 300, 62)]);
    assert_eq!(editor.selected_notes, vec![0], "撤销移动后选中移动前的音符");
    assert!(editor.redo());
    assert_eq!(editor.selected_notes, vec![1], "重做移动后选中移动后的音符");
}

#[test]
fn test_undo_of_move_without_selection_keeps_it_empty() {
    let mut editor = editor_with_track(&[note(0, 100, 60)]);
    editor.pending_drag_state = Some(DragState::new(vec![0], 500, 0));
    assert!(editor.commit_pending_drag());
    editor.poll_async_commit();
    assert!(editor.undo());
    assert!(editor.selected_notes.is_empty(), "撤销前无选中则不凭空建选区");
}

#[test]
fn test_commit_pending_drag_announces_each_move() {
    let mut editor = editor_with_track(&[note(0, 100, 60), note(200, 300, 62)]);
    editor.pending_drag_state = Some(DragState::new(vec![1, 7, 0], 480, 2));
    assert!(editor.commit_pending_drag());
    assert_eq!(
        editor.collab_outbox,
        vec![
            CollabEvent::NoteMoved { note: note(200, 300, 62), delta_tick: 480, delta_key: 2, track: 0 },
            CollabEvent::NoteMoved { note: note(0, 100, 60), delta_tick: 480, delta_key: 2, track: 0 },
        ]
    );
    let mut locked = editor_with_track(&[note(0, 100, 60)]);
    locked.local_selection_locked = true;
    locked.pending_drag_state = Some(DragState::new(vec![0], 10, 0));
    assert!(!locked.commit_pending_drag());
    assert!(locked.collab_outbox.is_empty(), "nothing is announced while locked");
}

#[test]
fn test_commit_pending_copy_and_finalize_announce() {
    let mut editor = editor_with_track(&[note(0, 100, 60)]);
    editor.pending_copy_drag_state = Some(DragState::new(vec![0], 150, 0));
    assert!(editor.commit_pending_copy());
    assert_eq!(editor.collab_outbox, vec![CollabEvent::NoteAdded { note: note(150, 250, 60), track: 0 }]);
    editor.collab_outbox.clear();
    assert!(editor.finalize_dragging(0, &DragState::new(vec![0], 10, 1)));
    assert_eq!(
        editor.collab_outbox,
        vec![CollabEvent::NoteMoved { note: note(0, 100, 60), delta_tick: 10, delta_key: 1, track: 0 }]
    );
}

#[test]
fn test_commit_poll_outcomes() {
    let mut editor = editor_with_track(&[note(0, 100, 60)]);
    editor.pending_drag_state = Some(DragState::new(vec![0], 100, 0));
    assert!(editor.commit_pending_drag());
    assert_eq!(editor.apply_commit_poll(CommitPoll::Running), None);
    assert!(editor.pending_drag_state.is_some());
    assert_eq!(editor.apply_commit_poll(CommitPoll::Failed), None);
    assert!(editor.pending_drag_state.is_none());
    assert!(editor.async_commit.is_none());
    assert!(!editor.notes_changed);
    editor.async_commit = Some(3);
    assert_eq!(editor.apply_commit_poll(CommitPoll::Finished(3)), Some(3));
    assert!(editor.notes_changed);
}

#[test]
fn test_finalize_dragging_clamped_to_same_place_changes_nothing() {
    let mut editor = editor_with_track(&[note(0, 10, 60)]);
    assert!(!editor.finalize_dragging(0, &DragState::new(vec![0], -10, 0)));
    assert_eq!(editor.track_notes(0), vec![note(0, 10, 60)]);
    assert!(!editor.can_undo());
    assert!(editor.collab_outbox.is_empty());
    assert!(!editor.finalize_dragging(0, &DragState::new(vec![5], 10, 0)), "no listed note exists");
    assert!(!editor.can_undo());
}

#[test]
fn test_undo_of_move_selects_first_equal_note() {
    let mut editor = editor_with_track(&[note(0, 100, 60), note(0, 100, 60), note(200, 300, 62)]);
    editor.selected_notes = vec![0];
    editor.pending_drag_state = Some(DragState::new(vec![0], 500, 0));
    assert!(editor.commit_pending_drag());
    assert_eq!(editor.poll_async_commit(), Some(1));
    assert!(editor.undo());
    assert_eq!(editor.track_notes(0), vec![note(0, 100, 60), note(0, 100, 60), note(200, 300, 62)]);
    assert_eq!(editor.selected_notes, vec![0], "only the first note of the value is re-selected");
}

#[test]
fn test_undo_announces_changed_tracks() {
    let mut editor = editor_with_track(&[note(0, 100, 60)]);
    editor.pending_drag_state = Some(DragState::new(vec![0], 100, 0));
    assert!(editor.commit_pending_drag());
    assert_eq!(editor.poll_async_commit(), Some(1));
    editor.collab_outbox.clear();
    assert!(editor.undo());
    assert_eq!(
        editor.collab_outbox,
        vec![
            CollabEvent::NoteDeleted { note: note(100, 200, 60), track: 0 },
            CollabEvent::NoteAdded { note: note(0, 100, 60), track: 0 },
        ]
    );
}

#[test]
fn test_box_selection_picks_overlapping_notes() {
    let mut editor = editor_with_track(&[note(0, 100, 60), note(150, 200, 62), note(300, 400, 64), note(120, 130, 70)]);
    editor.rebuild_selected_notes(100, 300, 60, 64);
    assert_eq!(editor.selected_notes, vec![0, 2, 3], "bounds are inclusive; key 70 is outside");
    editor.rebuild_selected_notes(401, 500, 0, 127);
    assert!(editor.selected_notes.is_empty());
}
