# chessbot

A chess engine whose search, evaluation, protocol and training data tools are
verified with Verus.

- `src/` is the library. `model.rs` states the search as a mathematical
  function: what a search returns and what it leaves in its tables. One that the
  clock or the stop flag cuts short does what the function says for the limits
  at which it was cut. `search.rs`, `minimax.rs` and `deepening.rs` are proved to
  compute that function, and `probe.rs`, `game.rs`, `bulk.rs` and `selfplay.rs`
  build on it. `nnue.rs` proves that the state which
  is updated move by move is the one that would be computed anew, and
  `symmetry.rs` that a turned board is worth the same; `progress.rs` bounds the
  length of every line of play, so that no search stops for its depth. `uci.rs`
  and `coordinator.rs` hold the text protocol as a state machine.
- The rules of chess and the attack tables come from the `cozy_chess` crate,
  through the functions at the top of `rules.rs` and `attacks.rs`. What they
  claim of the crate is not proved.
- `tests/` runs the library, with small networks that the tests make up.
- `app/` is the program around it: standard input and output, threads, files,
  archives and whatever is in floating point.

The weights are read from `networks/25_09_26.bin` when the program starts.

```text
chessbot                                    the UCI protocol
chessbot bulk-eval --positions N [options]  evaluates positions of an archive
chessbot selfplay --positions N [options]   plays games against itself
chessbot "genfens N seed S book B"          prints opening positions
```
