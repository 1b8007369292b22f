# cosmic-ext-applet-scratchpad

A quick-notes applet for the COSMIC panel. Notes are plain Markdown files
(`pad_<n>.md`) in `$XDG_DATA_HOME/cosmic-scratchpad/`; the applet shows one
note at a time, searches titles and text, moves deleted notes to `trash/`
with an undo banner, and saves edits after a short pause.

## Layout

- `src/` — the library, verified with Verus:
  - `text.rs`: the character-level model (whitespace, trimming, `str::lines`,
    substring search, decimal numbers, case folding);
  - `storage.rs`: note directory, file names, natural ordering of notes,
    title derivation, planning of new notes;
  - `ui.rs`: word/character counts and search previews;
  - `session.rs`: the applet's state machine (active note, navigation,
    search, delete/undo, saving, popup) with its invariant and laws;
  - `keys.rs`: keyboard shortcuts; `config.rs`: configuration defaults.
- `tests/` — tests of the library.
- `app/` — the COSMIC application: widgets, tasks, file I/O, configuration
  (which holds the float font size) around the library.
