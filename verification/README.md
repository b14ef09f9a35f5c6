# kiutils_kicad

Typed, lossless reading and editing of KiCad files (footprints, schematics,
symbol libraries, boards and project files), verified with Verus.

- `src/` is the verified library. `sexpr` parses S-expression text into a
  syntax tree that keeps every character; `parse_one` succeeds exactly on the
  texts that hold one S-expression. The document modules (`footprint`,
  `schematic`, `symbol`, `pcb`, `project`) read a typed view from that tree and
  edit the tree through setters whose contracts say which items change, what
  reads back afterwards, and that lists of unknown kinds are kept. Every
  document keeps its tree well formed, so the text it writes reads back as a
  copy of that tree (`lemma_written_*_reads_back`).
  Project files are read and pretty-printed by `serde_json`, behind the two
  wrappers of `json_text`; the typed view and the edits of the JSON are
  verified.
- `tests/` exercises the library on concrete documents.
- `app/` reads and writes files, and reads boards in parallel with `rayon`.
