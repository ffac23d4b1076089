# known_chess

Chess restricted to the moves that real games have played. A book maps each
position's 64-bit Zobrist hash to the moves played from it and how many games
chose each one; a server answers, for a position, which moves are allowed.

The library under `src/` is verified with Verus:

* `format` — the binary book layout as spec functions over bytes: header,
  fixed-width entry table sorted by hash, move-record blob.
* `book` — `BookBuilder` tallies `(hash, move) → count` and writes the book;
  `Book` opens bytes, checks the header and looks positions up by binary
  search. `lemma_round_trip` proves that what is written opens again and
  answers every lookup with the counts that were recorded.
* `sort` — the merge sorts that order hashes and records.
* `mv` — the 16-bit move packing, its inverse, and resolution of a packed
  move against a position's legal moves.
* `chess`, `zobrist` — positions held as FEN text, with the chess rules
  supplied by `shakmaty` behind trusted wrappers.
* `fetch` — reading the dump list, month tags, and which dumps a request
  selects.
* `config` — settings with their defaults and derived paths.
* `serve` — the decisions of the HTTP endpoints: which known moves to answer
  for a position, and which game a finished line matches.

`app/` holds the command-line tool and the HTTP server: argument parsing,
network and file I/O, and the serde copies of the library's types.
