# chess_extract

Filters for the Lichess monthly PGN database, with their rules proved in
Verus. The library (`src/`) holds everything the tools decide; the program
(`app/`) streams the Zstandard-compressed input, writes the kept games and
prints progress.

- `src/text.rs`: Unicode white space, trimming, field search and `u32`
  decimal numbers over characters; UTF-8 decoding.
- `src/tags.rs`: PGN tag values, ratings, and the time-control floor
  (`base + 40 * increment`, correspondence games, unparseable values).
- `src/cli.rs`: the `--min-tc` and boolean flags, which may stand anywhere
  among the arguments.
- `src/movetext.rs`: tokenizing movetext into SAN moves (comments,
  variations, glyphs, move numbers and results dropped).
- `src/position.rs`: replaying SAN moves and reading FENs with `shakmaty`,
  Zobrist keys, and target matching.
- `src/targets.rs`: reading a targets file and choosing the search depth.
- `src/filter.rs`: splitting the stream into games and the keep/drop
  decision of each tool (`eco`, `elite`, `opening`).

The program picks the tool by the name it is run under (`elite`, `eco`,
`opening`) or by its first argument.
