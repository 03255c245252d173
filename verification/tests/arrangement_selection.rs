use ui_editor::arrange_query::visual_order_fingerprint;
use ui_editor::document::MidiDocument;
use ui_editor::edit_view::EditView;
use ui_editor::editor::{CollabEvent, Editor};
use ui_editor::note::NoteEvent;

fn note(start: u32, end: u32, key: u8) -> NoteEvent {
    NoteEvent::new(start, end, key, 100, 0)
}

/// Two tracks with two notes each; the selection covers all of them.
fn editor_with_selection() -> Editor {
    let mut editor = Editor::new();
    let mut doc = MidiDocument::new(2, 480);
    doc.insert_note(0, note(100, 200, 60));
    doc.insert_note(0, note(300, 400, 60));
    editor.document = Some(doc);
    editor.insert_note(1, note(100, 200, 62));
    editor.insert_note(1, note(300, 400, 62));
    editor.arrange_selection.add_rect_track(50, 450, 0, 127, 0, 1);
    editor
}

#[test]
fn test_hits_cover_both_consumption_shapes() {
    let editor = editor_with_selection();
    let hits = editor.arrangement_selection_hits();
    assert_eq!(hits.by_track().len(), 2, "应命中 2 条音轨");
    assert_eq!(hits.by_track().iter().map(|(_, n)| n.len()).sum::<usize>(), 4, "应命中 4 个音符");
    assert_eq!(hits.flat().len(), 4, "扁平表应与分组表等长");
    assert!(!hits.is_empty());
}

#[test]
fn test_selection_change_invalidates_cache() {
    let mut editor = editor_with_selection();
    assert_eq!(editor.arrangement_selected_notes().len(), 4);
    editor.arrange_selection.offset_ticks(10_000);
    assert!(editor.arrangement_selected_notes().is_empty(), "选区平移后必须重算，不能读到平移前的缓存");
    assert!(!editor.arrangement_has_selected_notes());
}

#[test]
fn test_clear_selection_invalidates_cache() {
    let mut editor = editor_with_selection();
    assert!(editor.arrangement_has_selected_notes());
    editor.arrange_selection.clear();
    assert!(!editor.arrangement_has_selected_notes(), "清空选区后不得继续报告有命中音符");
}

#[test]
fn test_note_data_change_invalidates_cache() {
    let mut editor = editor_with_selection();
    assert_eq!(editor.arrangement_selected_notes().len(), 4);
    editor.insert_note(0, note(200, 210, 64));
    assert_eq!(editor.arrangement_selected_notes().len(), 5, "音符数据变化后必须重扫，否则新增音符不会被选区命中");
}

#[test]
fn test_visual_order_change_invalidates_cache() {
    let mut editor = editor_with_selection();
    editor.arrange_selection.clear();
    editor.arrange_selection.add_rect_track(50, 450, 0, 127, 0, 0);
    let before = editor.arrangement_selected_notes();
    assert_eq!(before.len(), 2, "恒等映射下应命中文档轨 0 的 2 个音符");
    assert!(before.iter().all(|&(_, _, track, _)| track == 0));
    assert!(before.iter().all(|&(_, _, _, key)| key == 60));
    editor.track_visual_order = vec![1, 0];
    let after = editor.arrangement_selected_notes();
    assert_eq!(after.len(), 2, "轨道序变化后必须重算（track_notes_gen 与选区都没变）");
    assert!(after.iter().all(|&(_, _, track, _)| track == 0), "视觉轨 0 现在对应文档轨 1");
    assert!(after.iter().all(|&(_, _, _, key)| key == 62), "命中的应是文档轨 1 的音符（key 62），证明映射已随排序切换");
}

#[test]
fn test_freeze_invalidates_cache() {
    let mut editor = editor_with_selection();
    assert_eq!(editor.arrangement_selected_notes().len(), 4);
    editor.arrange_selection.freeze(vec![(0u16, 100u32, 200u32, 60u8)]);
    assert_eq!(editor.arrangement_selected_notes().len(), 1, "冻结为精确集合后只应命中 1 个音符");
}

#[test]
fn test_empty_selection_yields_no_hits() {
    let editor = Editor::new();
    assert!(!editor.arrangement_has_selected_notes());
    assert!(editor.arrangement_selected_notes().is_empty());
}

#[test]
fn test_visual_order_fingerprint_values() {
    assert_eq!(visual_order_fingerprint(&Vec::new()), 0xcbf2_9ce4_8422_2325);
    let a = visual_order_fingerprint(&vec![0, 1]);
    let b = visual_order_fingerprint(&vec![1, 0]);
    let c = visual_order_fingerprint(&vec![0]);
    assert_ne!(a, b, "排序变化应改变指纹");
    assert_ne!(a, c, "长度变化应改变指纹");
    assert_eq!(a, visual_order_fingerprint(&vec![0, 1]));
}

#[test]
fn test_select_all_covers_every_track() {
    let mut editor = editor_with_selection();
    editor.arrange_selection.clear();
    assert!(editor.arrange_select_all_notes());
    assert_eq!(editor.arrange_selection.rects, vec![(0u32, 400u32, 0u8, 127u8, 0u16, 1u16)]);
    assert_eq!(editor.arrangement_selected_notes().len(), 4);
    assert!(!Editor::new().arrange_select_all_notes(), "无工程时不全选");
}

#[test]
fn test_delete_selected_notes_then_undo() {
    let mut editor = editor_with_selection();
    editor.arrange_selection.clear();
    editor.arrange_selection.add_rect_track(250, 450, 0, 127, 0, 1);
    assert_eq!(editor.arrange_delete_selected_notes(), 2);
    assert_eq!(editor.track_notes(0), vec![note(100, 200, 60)]);
    assert_eq!(editor.track_notes(1), vec![note(100, 200, 62)]);
    assert!(!editor.arrangement_has_selected_notes(), "删除后选区不再命中音符");
    assert!(editor.undo());
    assert_eq!(editor.track_notes(0).len(), 2);
    let mut none = editor_with_selection();
    none.arrange_selection.clear();
    assert_eq!(none.arrange_delete_selected_notes(), 0);
    assert!(!none.can_undo());
}

#[test]
fn test_move_notes_across_tracks() {
    let mut editor = editor_with_selection();
    editor.arrange_selection.clear();
    editor.arrange_selection.add_rect_track(250, 450, 0, 127, 0, 0);
    assert_eq!(editor.arrange_move_notes(100, 1), 1);
    assert_eq!(editor.track_notes(0), vec![note(100, 200, 60)]);
    assert_eq!(
        editor.track_notes(1),
        vec![note(100, 200, 62), note(300, 400, 62), note(400, 500, 60)]
    );
    assert_eq!(editor.arrange_move_notes(0, 0), 0, "零偏移不移动");
}

#[test]
fn test_move_records_one_undo_point() {
    let mut editor = editor_with_selection();
    assert!(!editor.can_undo());
    editor.arrange_selection.clear();
    editor.arrange_selection.add_rect_track(250, 450, 0, 127, 0, 0);
    assert_eq!(editor.arrange_move_notes(100, 1), 1);
    assert!(editor.undo());
    assert_eq!(editor.track_notes(0), vec![note(100, 200, 60), note(300, 400, 60)]);
    assert_eq!(editor.track_notes(1), vec![note(100, 200, 62), note(300, 400, 62)]);
    assert!(!editor.can_undo());
    editor.arrange_selection.clear();
    editor.arrange_selection.add_rect_track(5000, 6000, 0, 127, 0, 1);
    assert_eq!(editor.arrange_move_notes(100, 0), 0);
    assert!(!editor.can_undo(), "nothing moved: history unchanged");
    assert!(editor.can_redo());
}

#[test]
fn test_razor_splits_straddling_notes() {
    let mut editor = editor_with_selection();
    assert_eq!(editor.arrange_razor(150, 0), 1);
    assert_eq!(editor.track_notes(0), vec![note(100, 150, 60), note(150, 200, 60), note(300, 400, 60)]);
    assert_eq!(editor.arrange_razor(100, 0), 0, "刀口在音符起点不切");
}

#[test]
fn test_resolve_selection_by_view() {
    let mut editor = editor_with_selection();
    editor.selected_notes = vec![1];
    let roll = editor.resolve_selection(EditView::PianoRoll);
    assert_eq!(roll.note_count(), 1);
    assert_eq!(roll.tracks()[0].1, vec![note(300, 400, 60)]);
    let arr = editor.resolve_selection(EditView::Arrangement);
    assert_eq!(arr.note_count(), 4);
    assert!(editor.has_active_selection(EditView::Arrangement));
    editor.selected_notes.clear();
    assert!(editor.has_active_selection(EditView::PianoRoll), "卷帘无选中时回退到走带选区");
    editor.arrange_selection.clear();
    assert!(!editor.has_active_selection(EditView::PianoRoll));
    assert!(editor.resolve_selection(EditView::PianoRoll).is_empty());
}

#[test]
fn test_move_then_back_restores_notes() {
    let mut editor = editor_with_selection();
    editor.arrange_selection.clear();
    editor.arrange_selection.add_rect_track(250, 450, 0, 127, 0, 1);
    assert_eq!(editor.arrange_move_notes(480, 0), 2);
    editor.arrange_selection.offset_ticks(480);
    assert_eq!(editor.arrange_move_notes(-480, 0), 2);
    assert_eq!(editor.track_notes(0), vec![note(100, 200, 60), note(300, 400, 60)]);
    assert_eq!(editor.track_notes(1), vec![note(100, 200, 62), note(300, 400, 62)]);
}

#[test]
fn test_speed_change_applies_given_times() {
    let mut editor = editor_with_selection();
    let retimes = vec![(0usize, vec![None, Some((500u32, 600u32))]), (1usize, vec![Some((50u32, 80u32))])];
    assert_eq!(editor.arrange_apply_speed_change(&retimes), 2);
    assert_eq!(editor.track_notes(0), vec![note(100, 200, 60), note(500, 600, 60)]);
    assert_eq!(editor.track_notes(1), vec![note(50, 80, 62), note(300, 400, 62)]);
    assert!(editor.arrange_selection.rects.is_empty());
    assert_eq!(
        editor.arrange_selection.frozen,
        vec![(0u16, 100u32, 200u32, 60u8), (0, 500, 600, 60), (1, 50, 80, 62), (1, 300, 400, 62)]
    );
    assert!(editor.notes_changed, "当前轨被覆盖时标记重绘");
    assert!(editor.undo());
    assert_eq!(editor.track_notes(0), vec![note(100, 200, 60), note(300, 400, 60)]);
}

#[test]
fn test_speed_change_without_changes_leaves_no_undo_point() {
    let mut editor = editor_with_selection();
    assert_eq!(editor.arrange_apply_speed_change(&vec![(0usize, vec![None, None])]), 0);
    assert!(!editor.can_undo());
    assert_eq!(editor.arrange_selection.rects.len(), 1, "未变更时选区不冻结");
    editor.arrange_selection.clear();
    assert_eq!(editor.arrange_apply_speed_change(&vec![(0usize, vec![Some((0u32, 1u32))])]), 0, "空选区不变速");
    assert_eq!(editor.track_notes(0).len(), 2);
}

#[test]
fn test_speed_change_targets_group_covered_notes() {
    let mut editor = editor_with_selection();
    editor.arrange_selection.clear();
    editor.arrange_selection.add_rect_track(250, 450, 0, 127, 1, 1);
    let targets = editor.speed_change_targets();
    assert_eq!(targets, vec![(1usize, vec![note(300, 400, 62)])]);
    editor.track_visual_order = vec![1, 0];
    assert_eq!(editor.speed_change_targets(), vec![(0usize, vec![note(300, 400, 60)])], "按视觉轨判定命中");
}

#[test]
fn test_razor_and_speed_change_announce_deletes_then_adds() {
    let mut editor = editor_with_selection();
    assert_eq!(editor.arrange_razor(150, 0), 1);
    assert_eq!(
        editor.collab_outbox,
        vec![
            CollabEvent::NoteDeleted { note: note(100, 200, 60), track: 0 },
            CollabEvent::NoteAdded { note: note(150, 200, 60), track: 0 },
            CollabEvent::NoteAdded { note: note(100, 150, 60), track: 0 },
        ]
    );
    let mut editor = editor_with_selection();
    let retimes = vec![(0usize, vec![None, Some((500u32, 600u32))]), (1usize, vec![Some((50u32, 80u32))])];
    assert_eq!(editor.arrange_apply_speed_change(&retimes), 2);
    assert_eq!(
        editor.collab_outbox,
        vec![
            CollabEvent::NoteDeleted { note: note(300, 400, 60), track: 0 },
            CollabEvent::NoteDeleted { note: note(100, 200, 62), track: 1 },
            CollabEvent::NoteAdded { note: note(500, 600, 60), track: 0 },
            CollabEvent::NoteAdded { note: note(50, 80, 62), track: 1 },
        ]
    );
}
