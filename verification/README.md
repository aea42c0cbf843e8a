# fileforge

A toolkit for searching, extracting, counting and indexing large text files, with its
decisions proved correct by Verus.

- `src/` is the verified library. Each search or scan is a small state machine that takes
  the file's lines one at a time (`engine::LineScan`, `context::ContextScan`,
  `logs::ExtractScan`, `csv_rows::CsvScan`, `query::QueryScan`, `index::IndexBuilder`,
  `index::IndexLookup`); the query language (`parser`, `query`), encoding detection and
  decoding (`encoding`), the readers' record model (`storage`), file names and extensions
  (`paths`) and the file analyzers (`analysis`) are stated over mathematical models and
  proved against them. The calls into
  `aho-corasick`, `regex`, `serde_json` and `csv` go through small trusted wrappers: each
  states in its `ensures` what the library relies on, and its doc comment names the outside
  function it calls.
- `app/` is the command-line program: it reads and writes the files, hands every line to
  the library and prints what the library decides.
- `tests/` runs the library on concrete inputs.

Commands: `search`, `regex`, `jsonl`, `csv`, `context`, `extract`, `stats`, `generate-log`,
`index`, `jump`, `inspect-text`, `analyze`, `query`, and `classic search|regex|jsonl` (one
keyword, JSON string values only, and a limit of `0` stopping after the first hit).

```bash
fileforge analyze testdata/sample.log
fileforge query testdata/sample.log "ERROR OR WARN"
fileforge query testdata/sample.log "contains(text,\"ERROR\")"
fileforge query testdata/sample.log "contains(text,\"ERROR\") OR contains(text,\"WARN\") OR FATAL"
```
