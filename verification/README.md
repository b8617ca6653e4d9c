# LitePad

A plain-text notepad: notes are ordinary text files, inline formatting is kept
in the text as `**bold**`, `*italic*` and `__underline__`, and `http(s)` links
are highlighted.

- `src/` is the note-taking logic, verified with Verus: the markup parser and
  the selection toggle (`markup`, with its laws in `markup_laws`), the editor
  layout (`layout`), file naming and ordering (`storage`), themes (`theme`),
  the `key=value` preference files (`settings`), the update record and release
  handling (`updates`), the note list (`notes`), and the editor fonts (`fonts`).
  `text` holds the character-level building blocks they share.
- `app/` is the window (egui/eframe), file and network access, and the parts
  that work on floating-point sizes.
- `tests/` exercises the library on concrete inputs.
