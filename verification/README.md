# harfrust

The parts of a text shaper that can be worked out once per font, or decided from
plain values, with contracts that are proved.

- Compiled forms of glyph sets, coverages, class definitions and lookups, and the
  code that builds them from `GSUB` and `GPOS` tables.
- What applying a lookup comes to: which subtables to try, what they substitute or
  where their values stand, and what they owe the line.
- The state machines of `kern` and `morx` tables, read and decoded, and a line
  kerned by a `kern` table.
- The tables of a face in a font file.
- Metrics, character maps, shape plans, buffers and the text of a command line.

`src/` is the verified library, `tests/` its tests, and `app/` a small program
around it that shows the glyphs of text in a font.
