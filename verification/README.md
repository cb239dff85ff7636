# crustal

Editor support for the Crustal macros (`render!`, `css!`, `global_css!`) and
the pure parts of the Crustal blog helpers, written in Verus: each function
states what it returns in its `ensures`, and Verus proves it.

## Layout

- `src/bytes.rs`: byte classes, `str::trim` on UTF-8 bytes, FNV-1a, hex.
- `src/text.rs`: which cuts, trims and joins keep bytes valid UTF-8.
- `src/scan.rs`: string literals, comments, balanced delimiters, and the
  search for macro invocations.
- `src/line_index.rs`: byte offsets to LSP positions (UTF-16 columns) and back.
- `src/render.rs`, `src/css.rs`: diagnostics and hovers of one invocation.
- `src/analysis.rs`: diagnostics of a text and the hover at a position.
- `src/store.rs`: the open documents of an editor session.
- `src/blog.rs`: front matter, posts, ordering by id, output paths.
- `app/`: the stdio LSP server and the filesystem helpers, around the library.

## Laws proved

- `line_index::law_offset_of_position`: an offset at a character start
  survives the trip to a position and back.
- `analysis::law_invocations_ordered`, `law_no_macros_no_findings`,
  `law_hover_covers_position`, `law_findings_are_text`.
- `store::law_store_edits`: how opening, changing and closing combine.
- `blog::law_sorted_input_kept`: sorting posts already in order keeps them.
