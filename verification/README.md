# cadagent

A toolkit for CAD drawings, written in Verus: the logic is proved against
its contracts, and the parts that run on floating point, devices, files or
threads sit in a thin companion crate.

## Layout

- `src/` — the verified library.
  - `incremental/` — dependency graph (acyclic by construction, transitive
    queries, topological order, DOT export), change tracker (undo, redo,
    batches, bounded history) and the incremental updater that combines
    them: affected entities, the plan of an update and its record.
  - `memory/` — object pools with statistics, bump arenas with
    identifiers, handles and named arenas.
  - `parser/` — the record structure of STEP and IGES files (header and
    Global sections, data records, parameter lists, entity references),
    MTEXT cleanup for DXF, and for SVG the safety screen, the path-data
    grammar and the reading of shapes out of the XML.
  - `records.rs`, `text.rs`, `seqs.rs` — lines, fields, UTF-8 lengths,
    numerals, trimming and searching, with their specifications.
  - `llm_reasoning/`, `prompt_builder/` — reasoning data, template plans
    and answers, plan reading, the assembly of reasoning chains, prompt
    statistics and the assembly of analysis and reasoning prompts.
  - `lod/`, `metrics/`, `gpu/` — detail-level decisions, conflict matching
    for evaluation, rendering parameters.
- `app/` — the companion crate: GPU pipelines, float geometry readers for
  STEP and IGES, evaluation scores, level-of-detail thresholds, thread-safe
  pools, typed arenas, reading SVG files and SVG rasterization.
- `tests/` — tests of the library.
