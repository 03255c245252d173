# ui_editor

The editing core of a MIDI note editor with two views — a piano roll (one
track, index selection) and an arrangement (all tracks, rectangle / frozen
selection) — verified with Verus.

- `src/` — the verified library: the document (sorted note tracks), the
  undo/redo history, the editor state, arrangement queries and edits (select
  all, delete, move, razor, speed change), pending drag / copy-drag commits,
  undo and redo with selection re-mapping, and both clipboards (copy payloads,
  paste with visual-track routing and PPQN resampling, binary record form),
  the keyboard colours during playback (full scan and incremental scan), and
  the edits announced to collaborators (`Editor::collab_outbox`: drag moves,
  copies, pastes, razor cuts, speed changes, and the tracks changed by undo
  and redo).
  `src/laws.rs` states properties that span several operations (undo after an
  edit, redo after undo, copy/paste round trips, …).
- `tests/` — scenario tests run against the compiled library.
- `app/` — host glue: the system clipboard (text via `arboard`, private binary
  formats via Win32 on Windows), the JSON text form of payloads, the
  floating-point part of the speed change, the paste anchor snapped to the
  grid, and the per-frame playback colour refresh.
