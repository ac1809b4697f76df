# secinfra

A library for filings of the U.S. Securities and Exchange Commission, written in Rust and
verified with Verus.

- `filing_archive`, `metadata_json`, `filenames`, `tar`: a filing as a tar archive. The metadata
  comes first and says at which bytes each compressed document stands.
- `xbrl`, `scale`, `ordered_map`: the facts of XBRL documents, and simple records of them.
- `xml2tables`: XML documents as tables, by mappings from paths to columns.
- `rss`, `parse_index_page`, `monitor`: the feed of recent filings, the index pages of filings,
  and the schedule on which new filings are looked for.
- `construct_submissions_data`, `construct_submissions_metadata`, `metadata_runs`, `submissions`,
  `json`: the filings of all companies, from the bulk archive to columns, with one worker or
  several.
- `compression_util`: compression, and streams in chunks.
- `text`, `numeral`, `encoding`, `xml`, `collections`: what the others are built from.

Every function of `src/` has a contract. What other crates do is stated in the contracts of the
few functions that call them. Public proof functions named `law_...` state what holds across
functions: that the ranges of an archive hold its documents, that a filing is listed once, that
rows have the columns of their table.

`app/` holds downloads, files, streams and threads, and the serialised forms of the types.
`tests/` runs the library.
