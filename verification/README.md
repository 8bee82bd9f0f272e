# ass_fonts

Finds the fonts that ASS/SSA subtitle dialogue uses and matches them against the
internal name tables of font files, with Verus proofs of what each step computes.

- `src/` is the verified library: subtitle decoding (`encoding`, `utf16`), script and
  override-tag parsing (`ass`, `overrides`, `subtitle`), name normalization (`text`),
  font scanning (`scan`, `ttf`), the font index and resolution (`fonts`, `index`,
  `order`, `resolve`), and nominal cmap coverage (`coverage`, `summary`). Calls into
  `ttf_parser`, `unicode_normalization` and a few standard-library functions sit behind
  small trusted wrappers (`ttf`, `unicode`, `paths`, `utf16::char_from_u32`,
  `encoding::utf8_string`), each documented with what its contract assumes.
- `laws`, `index_laws` and `extract_laws` hold proved properties that span functions:
  how resolution partitions requests, what evidence and synthesis flags may say, what the
  index keeps of its inputs and that their order does not matter, the order of extracted
  requests, lines and characters, how the encodings of one text agree, and how coverage
  accounts for candidates.
- `app/` reads subtitles and font files from disk, walks directories, and provides
  serializable copies of the reports.
- `tests/` exercises the library on in-memory subtitles and synthetic font files.
