# simpleedit

The core of a small text editor, verified with Verus: the Markdown parser
and the JSON tree behind its previews, find and replace over the buffer,
and the pass that marks search matches on top of the syntax colours.

- `src/` is the verified library.
  - `text.rs`: characters, UTF-8 widths, and string helpers.
  - `search/`: finding and replacing (`find.rs`), conversions between the
    editor's (line, column) positions and byte offsets (`position.rs`), and
    the search bar's state machine (`mod.rs`), which answers each message
    with what the editor must do.
  - `preview/`: the preview kinds and modes (`mod.rs`), the Markdown parser
    and its layout decisions (`markdown/`), and JSON parsing and the JSON tree
    (`json.rs`).
  - `editor/highlighter.rs`: the search query compiled for the highlighter,
    and the cutting of a line's syntax spans at the match boundaries.
- `app/` is the iced application around it: windows, widgets, styles and
  file reading.
- `tests/` runs the library on concrete inputs.
