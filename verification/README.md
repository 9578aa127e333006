# unfurl

The core of a JSON viewer, verified with Verus.

- `src/json.rs` — the document model (`Json`, with its mathematical value
  `SpecJson`), parsing a text with `serde_json` into it, node counts and
  depth, and leaf equality (numbers compare as `serde_json` numbers).
- `src/tree.rs` — the search index (`SearchNode`) and the hover paths.
- `src/diff.rs` — the structural comparison of two documents (`DiffNode`),
  with what it keeps of each side, how it mirrors when turned round, and
  how its rows are written.
- `src/theme.rs` — themes, their colours, their stored names and how they
  are read back.
- `src/state.rs` — the viewer's state and the effect of each user action.
- `src/text.rs` — whitespace trimming, ASCII case folding, substring search,
  decimal rendering.

`app/` is the egui program around it: drawing, fonts, files, browser
storage and the frame loop.
