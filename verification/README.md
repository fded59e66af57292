# pid_legend

The rules behind marking up a P&ID sheet: which lettering is a tag and of
what class, what a range annotation names, how a hand-made group carries
its tag, which layers the legend draws on and in what colour, how the pipe
runs index by line number and family, what recognition writes onto each
entity, the document-level view filter of an imported `.pid` drawing, the
CSV export, the file names of an SVG plot job, the step machine of the
interactive primitive command, and the pixel comparison that checks a
PDF rendering against an SVG one.

Every function in `src/` is verified with Verus against its contract, but
for thirteen `#[verifier::external_body]` wrappers around outside and
standard-library calls, whose contracts are assumed, not proved:

- `paths`: `extension_of`, `file_stem_of`, `parent_of`, `joined_path`
  (`std::path::Path`), `uppercase_of`, `lowercase_of` (`str` case mapping);
- `text`: `string_of` (collecting characters into a `String`);
- `pipes`: `regex_check`, `regex_names`, `regex_matches`, `regex_group`
  (the `regex` crate), `debug_text` (`Debug` quoting of a `str`);
- `view_filter`: `lowercase` (`char::to_lowercase`).

What these return is named by bodiless spec functions beside them (such as
`path_extension`, `regex_is_match`, `char_lowercase`), which the wrappers'
contracts apply.

## Layout

- `src/` -- the library.
  - `text`, `sorted`, `ranges` -- characters, sorted name sets, decimal
    numbers, range annotations.
  - `tags`, `groups`, `rules`, `classes`, `orphans` -- tag shapes and
    readings, hand-made groups, rule records and tag classes, symbols by
    class, unclaimed lettering.
  - `legend`, `line_index`, `pipes`, `xdata` -- layers and colours, the pipe
    runs by line and family, line-number patterns, entity records.
  - `view_filter`, `view_summary` -- the sheet-layer and role filter.
  - `export`, `csv`, `paths`, `svg`, `plot` -- exports, paths, SVG jobs,
    glyph bookkeeping.
  - `raster` -- comparing two renderings pixel by pixel.
  - `mesh`, `components`, `walk`, `carry`, `recognition`, `signature`,
    `tag_groups`, `report` -- the integer decisions of recognition and
    tracing: outlines of exploded fills, touching entities, pipe runs, line
    numbers carried along runs, unknown blocks and bubbles, shape
    signatures, plotted groups, and the report's lines.
  - `primitive`, `ribbon` -- the primitive command's steps, the ribbon.
- `app/` -- what works on drawings and files with `acadrust`, `serde_json`
  and `flate2`, around the library.
- `tests/` -- tests of the library from outside.
