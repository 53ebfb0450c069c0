# thunfisch

A UCI chess engine built around a library whose behaviour is stated in contracts and
proved with Verus.

- `src/` is the verified library: bitboards, board representation with incremental
  Zobrist hashing, FEN reading and writing, move encoding and coordinate notation, make and unmake,
  attack, pin and check masks, move generation and the legality test, move ordering and
  the move picker, evaluation, the transposition table, the principal variation table,
  alpha-beta and quiescence search, perft, the `position` command and time management.
- `src/legality.rs` proves that every generated move other than an en passant capture
  passes the legality test, and that a move of the kinds generation produces (en passant
  aside) passes it exactly when generation produces it; and
  `src/make_move.rs`, `src/transposition_table.rs`, `src/move_picker.rs`, `src/fen.rs`
  and `src/coords.rs` hold the other laws (make then unmake restores the board, a stored
  entry is found again, the picker hands out every generated move and none twice, a
  written FEN and move names read back); `src/perft.rs` states that perft counts the
  leaves of the move tree, and `src/search.rs` that the plain `Board::negamax` bounds the
  negamax value as alpha-beta should. The engine's own search (`alpha_beta` with the
  transposition table and the quiescence search) is stated in part: draws, mate and
  stalemate, stand pat, the quiescence search one ply above its horizon (at least minus
  the value of each capture, unless it fails high), and the principal variation it returns.
- `app/main.rs` is the program: the UCI loop on standard input and output, the timer that
  stops the search, iterative deepening with its `info` lines, and the debugging commands.
- `tests/` runs the library on concrete positions, perft counts among them.
