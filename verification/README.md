# session_editor

A desktop editor for chat session transcripts stored as JSON Lines (one
record per line, linked into a chain by `uuid` / `parentUuid`). It lists the
sessions found under a folder of project folders, shows a session's messages,
and lets one edit, delete or insert messages while keeping the parent chain
connected.

The logic is a Verus-verified library under `src/`:

- `session`, `batch` — an open file: its lines, records and messages; edits,
  deletions (with the chain repaired), inserted attachment records.
- `json`, `blocks` — JSON values, their compact text, and what a message's
  content shows (text, thinking, tool lines).
- `summary`, `convs`, `sidebar` — one list entry per file, rewind marking,
  newest-first order, rescans, search and project groups.
- `sections`, `lines`, `words` — message bodies (code fences, tagged blocks),
  file lines, word motions of the text editor.
- `labels`, `calendar`, `uuid`, `text` — times, dates, ids and text helpers.

`app/` holds the window (egui), file access and the clock. The projects
folder is taken from the `SESSION_EDITOR_ROOT` environment variable, or
picked with "Change folder…".
