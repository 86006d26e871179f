# fsexedit

A terminal editor for the TTX source of the Fixedsys Excelsior font. Each glyph
is shown as a pixel grid that can be edited in place; saving rewrites only the
parts of the TTX file that changed.

The editor's logic is a Verus library, proved against its contracts:

- `src/font.rs`: glyphs, ligature rules, the font, and pixel grids (get, set,
  toggle, rotate, stamp).
- `src/grid.rs`: rasterizing contours (nonzero winding) and tracing a pixel grid
  back into contours. The traced contours have corners only (at least four,
  sides alternating between horizontal and vertical), wind once around every
  filled pixel and not around any empty one, and their bounding box is that of
  the filled pixels; so tracing and then rasterizing gives every grid back.
- `src/ttx/parse.rs`: reading a TTX document into a font. The XML is tokenized
  by quick-xml; the tokens of a text are named (`xml_tokens`), the font is
  proved to be what the parser's rules make of exactly those tokens, and a
  document is refused only when a glyph grid would not fit in font units.
- `src/ttx/write.rs`: the surgical save (changed glyphs replaced, new glyphs
  inserted at the end of each section of the rewritten text), the TTGlyph XML,
  and rescanning line ranges.
- `src/app.rs`, `src/keys.rs`: the editor's state, its commands, glyph and
  ligature search, SVG export, and what each key does in each mode.
- `src/ui/`: what the canvas, the previews and the status line show.
- `src/text.rs`, `src/names.rs`: string helpers and the small maps and sets the
  font is kept in.

`app/` is the program around the library: argument handling, file I/O, the
terminal loop and the drawing with ratatui. `tests/` exercises the library.
