//! Editing logic of the piano-roll / arrangement note editor.

pub mod note;
pub mod document;
pub mod selection;
pub mod edit_view;
pub mod history;
pub mod editor;
pub mod arrange_query;
pub mod arrange_edit;
pub mod commit;
pub mod clip_payload;
pub mod arrange_clipboard;
pub mod roll_clipboard;
pub mod binary_clipboard;
pub mod grid;
pub mod track_list;
pub mod laws;
pub mod speed_change;
pub mod playback;
