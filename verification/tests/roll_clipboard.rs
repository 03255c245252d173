use serde_json::Value;
use ui_editor::binary_clipboard::{BinaryHeader, BinaryRecord, ARRANGEMENT_BINARY_MARK};
use ui_editor::clip_payload::{ClipKind, ClipNote, ClipboardPayload};
use ui_editor::document::MidiDocument;
use ui_editor::editor::{CollabEvent, Editor};
use ui_editor::note::NoteEvent;

fn note(start: u32, end: u32, key: u8) -> NoteEvent {
    NoteEvent::new(start, end, key, 100, 0)
}

fn editor_with(track_count: usize, notes: &[NoteEvent]) -> Editor {
    let mut editor = Editor::new();
    let mut doc = MidiDocument::new(track_count, 480);
    for n in notes {
        doc.insert_note(0, *n);
    }
    editor.document = Some(doc);
    editor
}

fn ticks(v: Option<&Value>) -> Option<i64> {
    v.and_then(|x| x.as_f64()).map(|f| f.round() as i64)
}

fn payload_from_json(text: &str) -> Option<ClipboardPayload> {
    let v: Value = serde_json::from_str(text).ok()?;
    let kind = match v.get("type").and_then(|t| t.as_str()) {
        None => ClipKind::Missing,
        Some("notes") => ClipKind::Notes,
        Some("arrangement") => ClipKind::Arrangement,
        Some(_) => ClipKind::Other,
    };
    let notes = v.get("notes").and_then(|n| n.as_array()).map(|items| {
        items
            .iter()
            .map(|item| ClipNote {
                tick: ticks(item.get("tick")),
                length: ticks(item.get("length")),
                key: item.get("key").and_then(|k| k.as_u64()),
                velocity: item.get("velocity").and_then(|k| k.as_u64()),
                channel: item.get("channel").and_then(|k| k.as_u64()),
                track: item.get("track").and_then(|k| k.as_i64()),
            })
            .collect()
    });
    Some(ClipboardPayload {
        kind,
        track: v.get("track").and_then(|t| t.as_u64()),
        origin_tick: ticks(v.get("origin_tick")),
        origin_key: v.get("origin_key").and_then(|k| k.as_u64()),
        origin_track: v.get("origin_track").and_then(|k| k.as_u64()),
        division: v.get("division").and_then(|k| k.as_u64()),
        notes,
    })
}

#[test]
fn test_roll_copy_payload_of_selection() {
    let mut editor = editor_with(1, &[note(100, 200, 60), note(300, 340, 57), note(500, 600, 70)]);
    editor.selected_notes = vec![2, 1];
    let p = editor.copy_selected_notes_payload().expect("有选中音符");
    assert_eq!(p.kind, ClipKind::Missing);
    assert_eq!(p.track, Some(0));
    assert_eq!(p.origin_tick, Some(300));
    assert_eq!(p.origin_key, Some(57));
    assert_eq!(p.division, Some(480));
    let notes = p.notes.expect("notes");
    assert_eq!(notes.len(), 2);
    assert_eq!(notes[0], ClipNote { tick: Some(0), length: Some(40), key: Some(0), velocity: Some(100), channel: Some(0), track: None });
    assert_eq!(notes[1].tick, Some(200));
    assert_eq!(notes[1].key, Some(13));
}

#[test]
fn test_roll_copy_without_selection_is_none() {
    let editor = editor_with(1, &[note(100, 200, 60)]);
    assert!(editor.copy_selected_notes_payload().is_none());
    let mut stale = editor_with(1, &[note(100, 200, 60)]);
    stale.selected_notes = vec![9];
    assert!(stale.build_clipboard_payload(0, 480).is_none(), "越界选中不计");
}

#[test]
fn test_roll_copy_paste_roundtrip_at_origin() {
    let mut source = editor_with(1, &[note(100, 200, 60), note(150, 400, 64)]);
    source.selected_notes = vec![0, 1];
    let p = source.copy_selected_notes_payload().expect("payload");
    let mut target = editor_with(1, &[]);
    target.playback_tick = 100;
    assert!(target.paste_json_payload(&p));
    assert_eq!(target.track_notes(0), vec![note(100, 200, 60), note(150, 400, 64)]);
    assert_eq!(target.selected_notes, vec![0, 1], "粘贴即选中");
    assert!(target.can_undo());
    assert_eq!(
        target.collab_outbox,
        vec![
            CollabEvent::NoteAdded { note: note(100, 200, 60), track: 0 },
            CollabEvent::NoteAdded { note: note(150, 400, 64), track: 0 },
        ]
    );
}

#[test]
fn test_roll_paste_skips_incomplete_notes() {
    let mut editor = editor_with(1, &[]);
    editor.playback_tick = 1000;
    let json = r#"{"origin_key":60,"division":480,"notes":[{"tick":0,"key":0,"length":10},{"tick":5,"length":10},{"tick":20,"key":300,"length":10,"velocity":356}]}"#;
    let p = payload_from_json(json).expect("json");
    assert!(editor.paste_json_payload(&p));
    let notes = editor.track_notes(0);
    assert_eq!(notes.len(), 2);
    assert_eq!(notes[0], note(1000, 1010, 60));
    // key 60 + 300 is capped at max_key; velocity 356 keeps its low byte
    assert_eq!(notes[1], NoteEvent::new(1020, 1030, 127, 100, 0));
}

#[test]
fn test_roll_paste_resamples_on_ppqn_mismatch() {
    let mut editor = editor_with(1, &[]);
    editor.document.as_mut().unwrap().set_division(960);
    let json = r#"{"origin_key":60,"division":480,"notes":[{"tick":240,"key":0,"length":480}]}"#;
    assert!(editor.paste_json_payload(&payload_from_json(json).unwrap()));
    assert_eq!(editor.track_notes(0), vec![note(480, 1440, 60)]);
}

#[test]
fn test_roll_paste_nothing_complete_fails() {
    let mut editor = editor_with(1, &[]);
    let json = r#"{"origin_key":60,"notes":[{"tick":0,"key":0}]}"#;
    assert!(!editor.paste_json_payload(&payload_from_json(json).unwrap()));
    assert!(!editor.can_undo());
    let no_key = r#"{"notes":[{"tick":0,"key":0,"length":1}]}"#;
    assert!(!editor.paste_json_payload(&payload_from_json(no_key).unwrap()));
}

#[test]
fn test_roll_paste_arrangement_payload_routes_tracks() {
    let mut editor = editor_with(3, &[]);
    editor.current_track = 1;
    let json = r#"{"type":"arrangement","origin_key":60,"division":480,"notes":[{"tick":0,"key":0,"length":10,"track":0},{"tick":0,"key":1,"length":10,"track":1},{"tick":0,"key":2,"length":10,"track":2}]}"#;
    assert!(editor.paste_json_payload(&payload_from_json(json).unwrap()));
    assert_eq!(editor.track_notes(1), vec![note(0, 10, 60)]);
    assert_eq!(editor.track_notes(2), vec![note(0, 10, 61)]);
    assert!(editor.track_notes(0).is_empty(), "超出末轨的音符被丢弃");
    assert!(editor.selected_notes.is_empty());
    assert_eq!(
        editor.collab_outbox,
        vec![
            CollabEvent::NoteAdded { note: note(0, 10, 60), track: 1 },
            CollabEvent::NoteAdded { note: note(0, 10, 61), track: 2 },
        ]
    );
}

#[test]
fn test_roll_delete_and_cut() {
    let mut editor = editor_with(1, &[note(0, 10, 60), note(20, 30, 61), note(40, 50, 62)]);
    editor.selected_notes = vec![2, 0, 0];
    assert_eq!(editor.cut_selected_notes(false), 0);
    assert_eq!(editor.track_notes(0).len(), 3);
    assert_eq!(editor.cut_selected_notes(true), 2);
    assert_eq!(editor.track_notes(0), vec![note(20, 30, 61)]);
    assert!(editor.selected_notes.is_empty());
    assert!(editor.undo());
    assert_eq!(editor.track_notes(0).len(), 3);
    assert_eq!(editor.delete_selected_notes(), 0, "无选中时不删除");
}

#[test]
fn test_domino_paste_resamples_from_480() {
    let mut editor = editor_with(1, &[]);
    editor.document.as_mut().unwrap().set_division(960);
    let events = vec![NoteEvent::new(480, 720, 130, 80, 1)];
    assert!(editor.try_paste_from_domino(&events));
    assert_eq!(editor.track_notes(0), vec![NoteEvent::new(960, 1440, 127, 80, 1)]);
    assert_eq!(editor.selected_notes, vec![0]);
    assert!(!editor.try_paste_from_domino(&Vec::new()));
}

#[test]
fn test_build_clipboard_binary_records() {
    let mut editor = editor_with(1, &[note(100, 200, 60), note(300, 340, 57)]);
    editor.selected_notes = vec![1, 0];
    let (header, records) = editor.build_clipboard_binary(0, 480).expect("records");
    assert_eq!(header, BinaryHeader { division: 480, origin_tick: 100, origin_key: 57, track_hint: 0, count: 2 });
    assert_eq!(records[0], BinaryRecord { tick_offset: 0, length: 100, key_offset: 3, velocity: 100, channel: 0, track: 0 });
    assert_eq!(records[1].tick_offset, 200);
}

#[test]
fn test_paste_binary_payload_single_track_records_two_undo_points() {
    let mut editor = editor_with(1, &[]);
    editor.playback_tick = 10;
    let header = BinaryHeader { division: 240, origin_tick: 0, origin_key: 60, track_hint: 0, count: 1 };
    let records = vec![BinaryRecord { tick_offset: 120, length: 240, key_offset: 5, velocity: 90, channel: 2, track: 0 }];
    assert!(editor.paste_binary_payload(&header, Some(&records)));
    assert_eq!(editor.track_notes(0), vec![NoteEvent::new(250, 730, 65, 90, 2)]);
    assert_eq!(editor.selected_notes, vec![0]);
    assert!(editor.undo());
    assert!(editor.undo());
    assert!(!editor.can_undo());
}

#[test]
fn test_paste_binary_payload_arrangement_mark_routes() {
    let mut editor = editor_with(2, &[]);
    let header = BinaryHeader { division: 480, origin_tick: 0, origin_key: 60, track_hint: ARRANGEMENT_BINARY_MARK, count: 2 };
    let records = vec![
        BinaryRecord { tick_offset: 0, length: 10, key_offset: 0, velocity: 100, channel: 0, track: 1 },
        BinaryRecord { tick_offset: 0, length: 10, key_offset: 0, velocity: 100, channel: 0, track: 4 },
    ];
    assert!(editor.paste_binary_payload(&header, Some(&records)));
    assert_eq!(editor.track_notes(1), vec![note(0, 10, 60)]);
    assert!(editor.track_notes(0).is_empty());
    assert!(!editor.paste_binary_payload(&header, None));
    assert!(!editor.paste_binary_payload(&header, Some(&Vec::new())));
}

#[test]
fn test_try_paste_from_binary_records_history_first() {
    let mut editor = editor_with(1, &[note(0, 10, 60)]);
    editor.selected_notes = vec![0];
    let header = BinaryHeader { division: 480, origin_tick: 0, origin_key: 60, track_hint: 0, count: 0 };
    assert!(!editor.try_paste_from_binary(&header, None));
    assert!(editor.can_undo(), "解码前已记录撤销点");
    assert!(editor.selected_notes.is_empty());
    let records = vec![BinaryRecord { tick_offset: 5, length: 10, key_offset: 1, velocity: 100, channel: 0, track: 0 }];
    assert!(editor.try_paste_from_binary(&header, Some(&records)));
    assert_eq!(editor.track_notes(0), vec![note(0, 10, 60), note(5, 15, 61)]);
    assert!(editor.selected_notes.is_empty());
}
