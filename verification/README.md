# honeycomb

A small chess engine library whose logic is verified with Verus, with a UCI
front end.

- `src/board.rs`, `src/board/`: the board as twelve bitboards and its
  mathematical view; attacks and check; making and taking back moves
  (castling, en passant, promotion); move generation in a fixed order; legal
  move filtering; perft; reading FEN.
- `src/eval.rs`: material evaluation from the side to move's point of view.
- `src/search.rs`: move ordering, quiescence search, fail-hard alpha-beta and
  iterative deepening under a time limit, with node counting and per-depth
  reports.
- `src/zobrist.rs`: the Zobrist hashing keys, drawn from splitmix64.
- `src/uci.rs`: reading and writing moves in coordinate notation, reading
  `go` limits and `position startpos` commands, and `uci_step`, which carries
  out one command line on the board and names what remains to be done.
- `app/main.rs`: the UCI loop on standard input and output: it runs
  `uci_step` on each line, prints, and runs the searches it asks for,
  printing each depth's report through a `CallbackReporter`.

Each public function states its result in `ensures` over the spec functions
of its module; the `law_` proof functions state properties that span several
functions, such as that taking a move back restores the board, that the legal
moves are exactly the safe pseudo-legal moves, and that alpha-beta returns the
negamax value clamped into its window.
