# daeshaper

A verified core of an OpenType text shaper, written in Verus. Every
function in `src/` carries a contract that Verus proves; the crate has no
outside dependencies and one trusted wrapper (`char::from_u32`).

## Layout

- `buffer` – the glyph buffer: input and output streams, clusters, glyph
  flags, sorting and deletion.
- `digest`, `tag`, `ot`, `layout`, `offered` – lookup digests, tags, and the
  parsing of OpenType layout tables (coverage, class definitions, GDEF,
  script and feature lists, lookups).
- `map`, `plan`, `shape` – the feature map a shaping plan compiles to.
- `apply` – matching the input of contextual lookups: the skipping walk
  over the buffer and the glyph checks.
- `gsub` – which substitution lookups would apply to a glyph sequence, and
  the kinds of lookups.
- `gpos` – value, mark and pair records, anchors (with variation deltas
  taken as plain values), cursive attachment from a subtable's data down
  to the offsets it sets, and the pass that turns attachment chains into
  final offsets.
- `kern`, `kerx`, `fallback`, `passes`, `context` – kerning pairs,
  fallback mark positioning, the shaper's passes over the buffer and
  contextual rule data.
- `normalize`, `arabic`, `hebrew`, `thai`, `khmer`, `universal`,
  `syllable` – canonical mark reordering, Arabic joining, the Hebrew
  shaper's mark reordering and presentation forms, the Thai fallback to
  private-use mark variants, the Khmer composition rules, the universal
  shaper's categories and syllable segmentation.
- `bidi`, `itemize`, `segment`, `linebreak`, `unicode` – the Unicode
  bidirectional algorithm (explicit levels, the weak, neutral and implicit
  rules over each isolating run sequence, L1 and L2), script runs,
  grapheme and word boundaries, line breaking and character properties
  (taken as inputs).

The tests under `tests/` exercise the library on concrete values.
