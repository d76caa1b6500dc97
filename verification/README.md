# xlxscraper

A verified library for scraping XLX reflector dashboards, with the program that
runs it.

The library (`src/`) reads the data table of a dashboard page: it finds the
call-sign filter form, walks up to the nearest `<table>` whose class contains
`table`, names the columns from the first header row, and turns every data row
into a map from column name to value (a number when the cell reads as an `i64`,
text otherwise; a cell with an image also sets `<column>_img`, and its column
key holds empty text when the cell gives no value). It also computes the
SHA-256 fingerprint that decides whether the output file must be rewritten, and
keeps each target's error count and back-off (a target that fails twice in a row
or more is skipped for 2^min(errors, 5) seconds). Every function carries a contract
that Verus proves; the HTML parser (scraper/html5ever) and SHA-256 (sha2) are
called through a few trusted wrappers in `dom.rs` and `digest.rs`.

Modules: `text` (whitespace, trimming, substring and word search, decimals),
`cell` (cell values), `dom` (the parsed document and its traversals), `row`
(rows sorted by key), `table` (table extraction), `digest` (fingerprints),
`target` (change detection, error counting, pacing), `config` (a target's
configuration), `laws` (properties of the library as a whole).

The program (`app/`) loads `config.json`, downloads each target with reqwest,
serialises the rows with serde_json and writes the file when its fingerprint
changed.
