# abctool

Tools for ABC music notation, built for a folk tune search engine: a lexer with friendly
error reports, tune representations (tokens, pitches, intervals, features), tune clusters,
binary vector space models for melody, feature and title search, and the file formats of a
tune database.

The library under `src/` is written in Verus: each public function states what it does in
its `requires` / `ensures`, and Verus proves the code against it. Properties that relate
several functions (clusters staying well formed, stored data reading back unchanged,
fractions in lowest terms, numbers printed and parsed back) are public proof functions.

- `src/abc_lexer.rs`: the lexer and its error report.
- `src/music.rs`, `src/pitch.rs`: notes, durations, pitches and intervals.
- `src/tune_ast*.rs`, `src/features.rs`, `src/representations.rs`: tunes and their features.
- `src/relations.rs`: clusters and the vector space models, with their integer statistics.
- `src/search.rs`, `src/server.rs`: query parameters, roll-up, paging, facets and routing.
- `src/storage.rs`: the tune cache format.
- `src/text.rs`, `src/collation.rs`, `src/chars.rs`: text helpers.
- `src/typeset.rs`, `src/svg.rs`, `src/viz.rs`: glyphs on staves and SVG documents.

The program under `app/` is the command line tool and HTTP server around the library: file
and network input and output, threads, and the floating-point scoring and layout.
