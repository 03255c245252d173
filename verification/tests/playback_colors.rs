use ui_editor::document::MidiDocument;
use ui_editor::editor::Editor;
use ui_editor::note::NoteEvent;
use ui_editor::playback::PlaybackScan;

fn note(start: u32, end: u32, key: u8) -> NoteEvent {
    NoteEvent::new(start, end, key, 100, 0)
}

const RED: [u8; 4] = [255, 0, 0, 255];
const BLUE: [u8; 4] = [0, 0, 255, 255];

fn two_track_editor() -> Editor {
    let mut editor = Editor::new();
    let mut doc = MidiDocument::new(2, 480);
    doc.insert_note(0, note(0, 480, 60));
    doc.insert_note(0, note(480, 960, 62));
    doc.insert_note(1, note(240, 720, 64));
    editor.document = Some(doc);
    editor
}

fn key(c: &[u8], k: usize) -> [u8; 4] {
    [c[4 * k], c[4 * k + 1], c[4 * k + 2], c[4 * k + 3]]
}

#[test]
fn test_full_scan_colors_sounding_keys() {
    let editor = two_track_editor();
    let colors = vec![RED, BLUE];
    let c = editor.playback_key_colors(300, &colors);
    assert_eq!(c.len(), 1024);
    assert_eq!(key(&c, 60), RED);
    assert_eq!(key(&c, 64), BLUE);
    assert_eq!(key(&c, 62), [0; 4], "not started yet");
    let c = editor.playback_key_colors(480, &colors);
    assert_eq!(key(&c, 60), [0; 4], "end tick is exclusive");
    assert_eq!(key(&c, 62), RED, "start tick is inclusive");
    assert_eq!(key(&c, 64), BLUE);
    let nonzero = c.iter().filter(|b| **b != 0).count();
    assert_eq!(nonzero, 4, "only keys 62 and 64 are coloured");
}

#[test]
fn test_stopped_playback_clears_every_key() {
    let editor = two_track_editor();
    let colors = vec![RED, BLUE];
    let c = editor.playback_key_colors(0, &colors);
    assert!(c.iter().all(|b| *b == 0), "a note sounding at tick 0 is not shown while stopped");
    let mut scan = PlaybackScan::new(2);
    let c = editor.update_playback_key_colors(&mut scan, 0, &colors, true).unwrap();
    assert_eq!(c, vec![0u8; 1024]);
    assert_eq!(scan.last_tick(), 0);
}

#[test]
fn test_incremental_scan_matches_full_scan() {
    let editor = two_track_editor();
    let colors = vec![RED, BLUE];
    let tracks = editor.document.as_ref().unwrap().tracks();
    let mut scan = PlaybackScan::new(2);
    for tick in [1u32, 100, 239, 240, 479, 480, 700, 720, 959, 960, 5000] {
        let inc = scan.advance(tracks, &colors, tick);
        let full = editor.playback_key_colors(tick, &colors);
        assert_eq!(inc, full, "tick {}", tick);
        assert_eq!(scan.last_tick(), tick);
    }
}

#[test]
fn test_update_rebuilds_on_seek_back_and_doc_change() {
    let mut editor = two_track_editor();
    let colors = vec![RED, BLUE];
    let mut scan = PlaybackScan::new(0);
    let c = editor.update_playback_key_colors(&mut scan, 600, &colors, true).unwrap();
    assert_eq!(key(&c, 62), RED);
    assert_eq!(key(&c, 64), BLUE);
    let c = editor.update_playback_key_colors(&mut scan, 100, &colors, false).unwrap();
    assert_eq!(key(&c, 60), RED, "going back rebuilds the scan");
    assert_eq!(key(&c, 64), [0; 4]);
    let c = editor.update_playback_key_colors(&mut scan, 9000, &colors, false).unwrap();
    assert!(c.iter().all(|b| *b == 0), "a seek past every note");
    editor.insert_note(1, note(8000, 9500, 70));
    let c = editor.update_playback_key_colors(&mut scan, 9000, &colors, true).unwrap();
    assert_eq!(key(&c, 70), BLUE);
    let empty = Editor::new();
    let mut scan = PlaybackScan::new(0);
    assert!(empty.update_playback_key_colors(&mut scan, 10, &vec![], false).is_none());
}

#[test]
fn test_last_track_wins_a_shared_key() {
    let mut editor = Editor::new();
    let mut doc = MidiDocument::new(3, 480);
    doc.insert_note(0, note(0, 480, 60));
    doc.insert_note(1, note(100, 480, 60));
    doc.insert_note(2, note(0, 50, 60));
    editor.document = Some(doc);
    let colors = vec![RED, BLUE, [0, 255, 0, 255]];
    let c = editor.playback_key_colors(200, &colors);
    assert_eq!(key(&c, 60), BLUE, "track 2 has ended; track 1 is the last sounding one");
    let c = editor.playback_key_colors(20, &colors);
    assert_eq!(key(&c, 60), [0, 255, 0, 255]);
    let tracks = editor.document.as_ref().unwrap().tracks();
    let mut scan = PlaybackScan::new(3);
    for tick in [20u32, 60, 150, 300, 479, 480] {
        assert_eq!(scan.advance(tracks, &colors, tick), editor.playback_key_colors(tick, &colors), "tick {}", tick);
    }
}
