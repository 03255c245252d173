use serde_json::Value;
use ui_editor::binary_clipboard::ARRANGEMENT_BINARY_MARK;
use ui_editor::clip_payload::{ClipKind, ClipNote, ClipboardPayload};
use ui_editor::document::MidiDocument;
use ui_editor::editor::Editor;
use ui_editor::note::NoteEvent;

fn note(start: u32, end: u32, key: u8) -> NoteEvent {
    NoteEvent::new(start, end, key, 100, 0)
}

fn doc_with_notes(track_count: usize, track: usize, notes: &[NoteEvent]) -> MidiDocument {
    let mut doc = MidiDocument::new(track_count, 480);
    for n in notes {
        doc.insert_note(track, *n);
    }
    doc
}

fn seed_notes(editor: &mut Editor, track_count: usize, track: usize, notes: &[NoteEvent]) {
    editor.document = Some(doc_with_notes(track_count, track, notes));
}

fn editor_with_sorted_visual_order() -> Editor {
    let mut editor = Editor::new();
    editor.document = Some(doc_with_notes(3, 2, &[note(0, 10, 64)]));
    editor.insert_note(0, note(0, 10, 60));
    editor.track_visual_order = vec![2, 0, 1];
    editor
}

fn doc_track_note_count(editor: &Editor, track: usize) -> usize {
    editor.track_notes(track).len()
}

fn ticks(v: Option<&Value>) -> Option<i64> {
    v.and_then(|x| x.as_f64()).map(|f| f.round() as i64)
}

fn payload_from_json(text: &str) -> Option<ClipboardPayload> {
    let v: Value = serde_json::from_str(text).ok()?;
    let kind = match v.get("type").and_then(|t| t.as_str()) {
        None => ClipKind::Missing,
        Some("notes") => ClipKind::Notes,
        Some("arrangement") => ClipKind::Arrangement,
        Some(_) => ClipKind::Other,
    };
    let notes = v.get("notes").and_then(|n| n.as_array()).map(|items| {
        items
            .iter()
            .map(|item| ClipNote {
                tick: ticks(item.get("tick")),
                length: ticks(item.get("length")),
                key: item.get("key").and_then(|k| k.as_u64()),
                velocity: item.get("velocity").and_then(|k| k.as_u64()),
                channel: item.get("channel").and_then(|k| k.as_u64()),
                track: item.get("track").and_then(|k| k.as_i64()),
            })
            .collect()
    });
    Some(ClipboardPayload {
        kind,
        track: v.get("track").and_then(|t| t.as_u64()),
        origin_tick: ticks(v.get("origin_tick")),
        origin_key: v.get("origin_key").and_then(|k| k.as_u64()),
        origin_track: v.get("origin_track").and_then(|k| k.as_u64()),
        division: v.get("division").and_then(|k| k.as_u64()),
        notes,
    })
}

fn arrange_paste_from_text(editor: &mut Editor, text: &str) -> bool {
    match payload_from_json(text) {
        Some(p) => editor.arrange_paste_payload(&p),
        None => false,
    }
}

fn single_track_clipboard_json() -> String {
    r#"{"type":"arrangement","origin_tick":0.0,"origin_key":64,"origin_track":0,"division":480,"notes":[{"tick":0.0,"key":0,"length":10.0,"velocity":100,"channel":0,"track":0}]}"#.to_string()
}

#[test]
fn test_compute_anchor_visual_maps_to_document_track() {
    let mut editor = editor_with_sorted_visual_order();
    editor.current_track = 0;
    assert_eq!(editor.compute_anchor_visual(), 1);
    editor.arrange_selection.rects.push((0, 10, 0, 127, 0, 0));
    assert_eq!(editor.compute_anchor_visual(), 0);
    editor.arrange_selection.rects.clear();
    editor.arrange_selection.rects.push((0, 10, 0, 127, 1, 1));
    assert_eq!(editor.compute_anchor_visual(), 1);
}

#[test]
fn test_paste_lands_on_mapped_document_track() {
    let mut editor = editor_with_sorted_visual_order();
    editor.arrange_selection.rects.push((0, 10, 0, 127, 0, 0));
    let pasted = arrange_paste_from_text(&mut editor, &single_track_clipboard_json());
    assert!(pasted, "粘贴应成功");
    assert_eq!(doc_track_note_count(&editor, 2), 2, "doc 轨 2 应新增 1 个音符");
    assert_eq!(doc_track_note_count(&editor, 0), 1, "doc 轨 0 不应被误写入");
    assert_eq!(doc_track_note_count(&editor, 1), 0);
}

#[test]
fn test_paste_multi_track_preserves_visual_layout() {
    let mut editor = editor_with_sorted_visual_order();
    editor.arrange_selection.rects.push((0, 10, 0, 127, 0, 1));
    let json = r#"{"type":"arrangement","origin_tick":0.0,"origin_key":60,"origin_track":0,"division":480,"notes":[{"tick":0.0,"key":0,"length":10.0,"velocity":100,"channel":0,"track":0},{"tick":0.0,"key":0,"length":10.0,"velocity":100,"channel":0,"track":1}]}"#;
    let pasted = arrange_paste_from_text(&mut editor, json);
    assert!(pasted, "多轨粘贴应成功");
    assert_eq!(doc_track_note_count(&editor, 2), 2, "doc 轨 2 应新增音符");
    assert_eq!(doc_track_note_count(&editor, 0), 2, "doc 轨 0 应新增音符");
    assert_eq!(doc_track_note_count(&editor, 1), 0, "doc 轨 1 不应被误写入");
}

#[test]
fn test_paste_identity_mapping_unchanged() {
    let mut editor = Editor::new();
    seed_notes(&mut editor, 3, 0, &[note(0, 10, 60)]);
    editor.arrange_selection.rects.push((0, 10, 0, 127, 1, 1));
    let json = r#"{"type":"arrangement","origin_tick":0.0,"origin_key":60,"origin_track":0,"division":480,"notes":[{"tick":0.0,"key":0,"length":10.0,"velocity":100,"channel":0,"track":0}]}"#;
    let pasted = arrange_paste_from_text(&mut editor, json);
    assert!(pasted);
    assert_eq!(doc_track_note_count(&editor, 1), 1);
    assert_eq!(doc_track_note_count(&editor, 0), 1);
}

#[test]
fn test_track_switch_clears_arrange_selection_so_paste_anchors_switched_track() {
    let mut editor = editor_with_sorted_visual_order();
    editor.current_track = 2;
    editor.arrange_selection.rects.push((0, 100, 0, 127, 0, 0));
    editor.switch_to_track(0);
    let json = single_track_clipboard_json();
    let pasted = arrange_paste_from_text(&mut editor, &json);
    assert!(pasted, "粘贴应成功");
    assert_eq!(
        doc_track_note_count(&editor, 0),
        2,
        "粘贴应落到切换后的当前轨 doc 0（而非旧选区所在 doc 2）"
    );
    assert_eq!(doc_track_note_count(&editor, 2), 1, "doc 2 不应被旧选区误写入");
}

#[test]
fn test_paste_resamples_length_on_ppqn_mismatch() {
    let mut editor = Editor::new();
    editor.document = Some(doc_with_notes(1, 0, &[]));
    editor.document.as_mut().unwrap().set_division(960);
    let json = r#"{"type":"arrangement","origin_tick":0.0,"origin_key":60,"origin_track":0,"division":480,"notes":[{"tick":0.0,"key":0,"length":480.0,"velocity":100,"channel":0,"track":0}]}"#;
    assert!(arrange_paste_from_text(&mut editor, json));
    let notes = editor.track_notes(0);
    assert_eq!(notes.len(), 1);
    assert_eq!(notes[0].length(), 960u32, "PPQN 不一致时应重采样长度以保节拍一致");
}

#[test]
fn test_paste_no_resample_when_ppqn_matches() {
    let mut editor = Editor::new();
    editor.document = Some(doc_with_notes(1, 0, &[]));
    let json = r#"{"type":"arrangement","origin_tick":0.0,"origin_key":60,"origin_track":0,"division":480,"notes":[{"tick":0.0,"key":0,"length":480.0,"velocity":100,"channel":0,"track":0}]}"#;
    assert!(arrange_paste_from_text(&mut editor, json));
    let notes = editor.track_notes(0);
    assert_eq!(notes.len(), 1);
    assert_eq!(notes[0].length(), 480u32, "PPQN 一致时不应缩放");
}

#[test]
fn test_arrangement_binary_roundtrip_matches_json() {
    let mut editor = Editor::new();
    seed_notes(&mut editor, 3, 0, &[note(0, 10, 60)]);
    let all_notes = vec![(0usize, note(0, 10, 60))];
    let (header, records) = editor
        .encode_arrangement_clipboard_binary(&all_notes)
        .expect("二进制编码失败");
    assert_eq!(header.track_hint, ARRANGEMENT_BINARY_MARK, "二进制头应写入走带子格式哨兵");
    editor.arrange_selection.rects.push((0, 10, 0, 127, 1, 1));
    assert!(
        editor.arrange_paste_from_binary_bytes(&header, Some(&records)),
        "二进制粘贴应成功"
    );
    assert_eq!(doc_track_note_count(&editor, 1), 1, "二进制粘贴落轨应与 JSON 路径一致（doc 1）");
    assert_eq!(doc_track_note_count(&editor, 0), 1, "原始种子音符仍应在 doc 0");
}

#[test]
fn test_arrange_paste_places_tick_key_and_selects_pasted() {
    let mut editor = Editor::new();
    seed_notes(&mut editor, 2, 0, &[]);
    editor.playback_tick = 960;
    let json = r#"{"type":"arrangement","origin_key":60,"division":480,"notes":[{"tick":120.0,"key":4,"length":240.0,"velocity":90,"channel":3,"track":1}]}"#;
    assert!(arrange_paste_from_text(&mut editor, json));
    let notes = editor.track_notes(1);
    assert_eq!(notes, vec![NoteEvent::new(1080, 1320, 64, 90, 3)]);
    assert!(editor.arrange_selection.rects.is_empty());
    assert_eq!(editor.arrange_selection.frozen, vec![(1u16, 1080u32, 1320u32, 64u8)]);
    assert!(editor.can_undo());
    assert!(editor.undo());
    assert!(editor.track_notes(1).is_empty(), "撤销应移除粘贴的音符");
}

#[test]
fn test_arrange_paste_rejects_unknown_type() {
    let mut editor = Editor::new();
    seed_notes(&mut editor, 1, 0, &[]);
    let json = r#"{"type":"something","origin_key":60,"notes":[{"tick":0.0,"key":0,"length":10.0}]}"#;
    assert!(!arrange_paste_from_text(&mut editor, json));
    assert!(editor.track_notes(0).is_empty());
    assert!(!editor.can_undo());
}

#[test]
fn test_arrange_paste_accepts_piano_roll_payload() {
    let mut editor = Editor::new();
    seed_notes(&mut editor, 1, 0, &[]);
    let json = r#"{"track":0,"origin_tick":0,"origin_key":60,"division":480,"notes":[{"tick":0,"key":2,"length":10,"velocity":100,"channel":0}]}"#;
    assert!(arrange_paste_from_text(&mut editor, json));
    assert_eq!(editor.track_notes(0), vec![NoteEvent::new(0, 10, 62, 100, 0)]);
}

#[test]
fn test_arrange_paste_fails_on_incomplete_note() {
    let mut editor = Editor::new();
    seed_notes(&mut editor, 1, 0, &[]);
    let json = r#"{"type":"arrangement","origin_key":60,"notes":[{"tick":0.0,"key":0,"length":10.0},{"tick":5.0,"key":1}]}"#;
    assert!(!arrange_paste_from_text(&mut editor, json), "缺少 length 的音符使整个粘贴失败");
    assert!(editor.track_notes(0).is_empty());
}

#[test]
fn test_arrange_paste_missing_origin_key_fails() {
    let mut editor = Editor::new();
    seed_notes(&mut editor, 1, 0, &[]);
    let json = r#"{"type":"arrangement","notes":[{"tick":0.0,"key":0,"length":10.0}]}"#;
    assert!(!arrange_paste_from_text(&mut editor, json));
}

#[test]
fn test_arrange_paste_skips_rows_past_last_track() {
    let mut editor = Editor::new();
    seed_notes(&mut editor, 2, 0, &[]);
    let json = r#"{"type":"arrangement","origin_key":60,"notes":[{"tick":0,"key":0,"length":10,"track":5}]}"#;
    assert!(!arrange_paste_from_text(&mut editor, json));
    assert!(!editor.can_undo(), "无音符落轨时不应留下撤销点");
}

#[test]
fn test_arrange_paste_without_document_records_nothing() {
    let mut editor = Editor::new();
    let json = r#"{"type":"arrangement","origin_key":60,"notes":[{"tick":0,"key":0,"length":10,"track":0}]}"#;
    assert!(!arrange_paste_from_text(&mut editor, json));
    assert!(!editor.can_undo());
}

#[test]
fn test_arrange_copy_payload_relative_to_origin() {
    let mut editor = Editor::new();
    let mut doc = MidiDocument::new(3, 480);
    doc.insert_note(0, note(100, 200, 60));
    doc.insert_note(2, note(300, 360, 64));
    doc.insert_note(1, note(5000, 5100, 70));
    editor.document = Some(doc);
    editor.track_visual_order = vec![2, 0, 1];
    editor.arrange_selection.rects.push((0, 1000, 0, 127, 0, 1));
    let p = editor.arrange_copy_selected_notes().expect("选区命中音符");
    assert_eq!(p.kind, ClipKind::Arrangement);
    assert_eq!(p.origin_tick, Some(100));
    assert_eq!(p.origin_key, Some(60));
    assert_eq!(p.origin_track, Some(0));
    assert_eq!(p.division, Some(480));
    let notes = p.notes.expect("notes");
    assert_eq!(notes.len(), 2);
    // visual row 0 is document track 2, visual row 1 is document track 0
    assert_eq!(notes[0], ClipNote { tick: Some(200), length: Some(60), key: Some(4), velocity: Some(100), channel: Some(0), track: Some(0) });
    assert_eq!(notes[1], ClipNote { tick: Some(0), length: Some(100), key: Some(0), velocity: Some(100), channel: Some(0), track: Some(1) });
}

#[test]
fn test_arrange_copy_dedups_overlapping_rects() {
    let mut editor = Editor::new();
    seed_notes(&mut editor, 1, 0, &[note(0, 10, 60), note(20, 30, 61)]);
    editor.arrange_selection.rects.push((0, 100, 0, 127, 0, 0));
    editor.arrange_selection.rects.push((0, 15, 0, 127, 0, 0));
    let p = editor.arrange_copy_selected_notes().expect("payload");
    assert_eq!(p.notes.expect("notes").len(), 2, "重叠矩形命中的同一音符只复制一次");
}

#[test]
fn test_arrange_copy_empty_selection_is_none() {
    let mut editor = Editor::new();
    seed_notes(&mut editor, 1, 0, &[note(0, 10, 60)]);
    assert!(editor.arrange_copy_selected_notes().is_none());
    editor.arrange_selection.rects.push((500, 600, 0, 127, 0, 0));
    assert!(editor.arrange_copy_selected_notes().is_none(), "选区未命中音符");
}

#[test]
fn test_arrange_copy_then_paste_roundtrip() {
    let mut editor = Editor::new();
    let mut doc = MidiDocument::new(2, 480);
    doc.insert_note(0, note(100, 200, 60));
    doc.insert_note(1, note(150, 400, 67));
    editor.document = Some(doc);
    editor.arrange_selection.rects.push((0, 1000, 0, 127, 0, 1));
    let p = editor.arrange_copy_selected_notes().expect("payload");
    let mut target = Editor::new();
    target.document = Some(MidiDocument::new(2, 480));
    target.playback_tick = 100;
    assert!(target.arrange_paste_payload(&p));
    assert_eq!(target.track_notes(0), vec![note(100, 200, 60)]);
    assert_eq!(target.track_notes(1), vec![note(150, 400, 67)]);
}

#[test]
fn test_arrange_cut_deletes_only_after_copy() {
    let mut editor = Editor::new();
    seed_notes(&mut editor, 1, 0, &[note(0, 10, 60), note(500, 510, 60)]);
    editor.arrange_selection.rects.push((0, 100, 0, 127, 0, 0));
    assert_eq!(editor.arrange_cut_selected_notes(false), 0);
    assert_eq!(editor.track_notes(0).len(), 2);
    assert_eq!(editor.arrange_cut_selected_notes(true), 1);
    assert_eq!(editor.track_notes(0), vec![note(500, 510, 60)]);
}

#[test]
fn test_arrange_binary_paste_decode_failure_changes_nothing() {
    let mut editor = Editor::new();
    seed_notes(&mut editor, 1, 0, &[]);
    let (header, _) = editor
        .encode_arrangement_clipboard_binary(&vec![(0usize, note(0, 10, 60))])
        .expect("header");
    assert!(!editor.arrange_paste_from_binary_bytes(&header, None));
    assert!(!editor.can_undo());
}

#[test]
fn test_arrange_copy_binary_records() {
    let mut editor = Editor::new();
    let mut doc = MidiDocument::new(2, 960);
    doc.insert_note(0, note(100, 200, 60));
    doc.insert_note(1, note(400, 450, 62));
    editor.document = Some(doc);
    editor.arrange_selection.rects.push((0, 1000, 0, 127, 0, 1));
    let (header, records) = editor.arrange_copy_binary().expect("records");
    assert_eq!(header.division, 960);
    assert_eq!(header.origin_tick, 100);
    assert_eq!(header.origin_key, 60);
    assert_eq!(header.count, 2);
    assert_eq!(records[1].tick_offset, 300);
    assert_eq!(records[1].length, 50);
    assert_eq!(records[1].key_offset, 2);
    assert_eq!(records[1].track, 1);
}
