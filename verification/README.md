# subsetter

Reduces OpenType fonts with TrueType or CFF outlines to the glyphs that a PDF needs, with the
logic verified by Verus.

The subset keeps the requested glyphs, renumbered from 0 (`.notdef`) in the order of a
`GlyphRemapper`, and the tables a PDF writer needs: `head`, `hhea`/`hmtx`, `maxp`, `name`,
`post`, and the outlines (`glyf`/`loca` or a desubroutinized, CID-keyed `CFF` table whose CIDs
are the new glyph IDs). The `cmap` table is left out, since a CID font in a PDF brings its own;
the `cmap` module can still subset a table's Unicode subtables (formats 4 and 12) on its own.

## Layout

- `src/` is the verified library. Its public functions state their results over spec
  functions of the file formats: `read.rs` and `write.rs` (big-endian reading and writing),
  `face.rs` (the table directory, checksums and building a font), one module per table
  (`head`, `hmtx`, `maxp`, `name`, `post`, `glyf`, `cmap`, `cff`), `remapper.rs` and
  `mapper.rs` (glyph renumbering), `gids.rs` (glyph lists such as `3,10-20`) and `font.rs`
  (the whole subset).
- Properties that span several functions are public proof functions, such as
  `face::lemma_construct_reads_back` (a built font parses back to its tables),
  `cff::index::lemma_index_roundtrip`, `cmap::subtable4::lemma_segments4_map`,
  `cmap::subtable4::lemma_subset4_reads_back`, `remapper::lemma_remap_sequence`,
  `write::lemma_writes_concatenate`, `write::lemma_writer_history`,
  `cmap::subtable12::lemma_groups12_map`, `post::lemma_post_names`,
  `name::lemma_name_subset_strings`, `glyf::lemma_loca_locates` and
  `cff::charset::lemma_charset_identity`.
- `app/` is the command-line program: it reads and writes files, and computes what needs
  floating point (outlines, bounding boxes and advance widths, with skrifa, kurbo and
  write-fonts) before handing plain values to `subsetter::subset`.
- `tests/` runs the library on concrete fonts and tables.
