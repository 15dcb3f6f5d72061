# patent_tagger

The core of a desktop application that imports patents from the EPO Open
Patent Services (OPS), tags them, and exports them.

- `src/` is the library, verified with Verus: publication-number parsing,
  the source cascades for titles, abstracts, full text and drawings, the
  outline of descriptions and claims, highlight placement, export formats
  (CSV, per-document text, folder names), saved-search queries, the
  parsers of OPS XML responses, TIFF-to-PNG conversion of drawing pages,
  the checks of a tag's fields against the stored tags and the steps of a
  tag schema import (each a step function from what the store answered to
  the next question), and the client's throttling and retry decisions. Laws that span
  functions are public proof functions named `law_*`.
- `app/` is ordinary Rust around it: the SQLite tables, the OPS HTTP
  client, and the scoring and learning code, which works in floating
  point. The schema scripts are passed to `storage::open`.
- `tests/` exercises the library on concrete values.
