//! LitePad's note-taking logic: inline markup, links, note storage naming,
//! themes, preference and update files, and the note list.

pub mod text;
pub mod markup;
pub mod markup_laws;
pub mod storage;
pub mod theme;
pub mod settings;
pub mod updates;
pub mod notes;
pub mod fonts;
pub mod layout;
