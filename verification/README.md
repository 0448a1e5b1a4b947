# lumencite

The core of a reference manager, written in Verus: the functions under `src/`
carry contracts that the verifier proves. Six small functions that call
outside code are trusted rather than proved, and each says so above it:
`text::from_chars` and `text::lowercase_chars` (std), `authors::nfkc_chars`
(`unicode-normalization`), `bibtex::parse_bibtex` and
`bibtex::bibtex_raw_variables` (`nom-bibtex`), and `backup::rfc3339_instant`
(`chrono`).

- `src/` — the library. BibTeX import and export (`bibtex`), identifiers and
  citation keys (`entries`), author matching (`authors`), the SQL statements of
  the entry and full-text searches (`query`, `fulltext`), the collection tree
  (`collections`), the reading order of a document and the context bundle of one
  of its nodes (`reading`, `context`, `bundle`), backup naming and pruning
  (`backup`), the state of background batches (`batch_status`), checks on chat
  and highlight input (`chat`), the command line's request building and output
  lines (`cli`), names in the attachment trash (`trash`), and the text and ordering helpers they share (`text`, `order`).
- `tests/` — tests of the library on concrete values.
- `app/` — the program around it: the command line, the SQLite access, the
  backup archive and the batch registry.
