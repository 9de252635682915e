# torte

A chess engine library written in Verus: the board and its moves, legal-move
generation, perft, static evaluation, static exchange evaluation, the
transposition table and the UCI commands are executable Rust whose behaviour
is stated in `requires` / `ensures` contracts and proved by Verus. For the
alpha-beta search the contracts state: legal results in range, the score of a
node without legal moves, a mate in one found with the table off or empty,
what a search may write to its table, killers and history, and the iterations
of a deepening search. With the table, the pruning heuristics, quiescence and
aborts switched off, the search's score is stated against `minimax` (in
`value`), the mathematical value of the position over its legal moves: inside
the alpha-beta window it is that value and the move returned is worth it.

## Layout

- `src/` — the verified library.
  - `bitboard`, `sq`, `pieces`, `piece_move`: squares as 64-bit sets, pieces,
    moves and their UCI text.
  - `attacks`, `sliding`: step and ray attacks of every piece kind.
  - `board`, `fen`, `validity`, `render`: positions, playing a move, reading a
    FEN, checking a position is well formed, drawing it as text.
  - `generator`, `position`, `perft`: pseudo-legal and legal moves, the
    well-formedness every legal move keeps, and the exact leaf count of the
    legal-move tree.
  - `params`, `eval`: the weight table and the tapered, traced evaluation.
  - `see`: the exchange on a square, played out with least valuable attackers.
  - `zobrist_keys`, `transposition`: position keys and the hash table.
  - `ordering`, `search`: move ordering, quiescence, negamax with its
    pruning heuristics, the root search and iterative deepening.
  - `uci`: `go`, `setoption` and `position` arguments, option lines, scores.
  - `value`: the minimax value of a position and what an alpha-beta search
    in a window owes for it.
  - `session`: what each UCI line does to the board, the configuration and
    the table, and what the engine answers; running a `go`; the `info` and
    `bestmove` lines.
- `tests/` — tests run against the compiled library.
- `app/` — the program around it: reading UCI lines and printing the answers,
  `bench`, and the weight tuner, which fits real-valued weights across threads
  and writes its table to a file.

Run `torte` for the UCI loop, `torte bench [depth]` for a fixed search
benchmark, and `torte tune <labelled.epd> [epochs] [lambda]` to fit the
evaluation weights.
