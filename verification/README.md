# carcassonne_backend

A Carcassonne game engine and HTTP backend whose game logic is verified with
Verus.

- `src/domain/` — the rules: tiles and rotations (`tile`), the base-game tile
  set (`tile_set`), the board with placement and scoring (`board`), the
  union-find of connected features (`feature`), scoring events (`scoring`),
  follower accounting (`tally`), what scoring leaves behind (`closure`), the
  final scoring (`endgame`), players, the game loop (`game`), the greedy,
  random and free-choice robots (`greedy`, `random`, `oracle`) and the client
  snapshot (`snapshot`).
- `src/api/` — what the HTTP routes compute: creating games, playing a move,
  robot turns, legal moves, and the status and text of each failure.
- `src/tools/` — the games played by the command-line tools.
- `app/` — the axum server, JSON types and command-line tools around the
  library (`dump-game`, `eval-paired`, `oracle-bound`).
- `tests/` — tests of the library on concrete games.

Each public function states its result over a mathematical model of the
board and game. Proved across every turn and the final scoring: boards and
games stay well formed; each player's followers in the supply and on the
board always number seven (a player with an empty supply stands none, and
followers sent home without points go back to their owners); scores never
go down; no finished road or city keeps a follower once the turn is scored;
and every listed follower stands on a feature or monastery that records it.
From these, a finished game has every follower back in its owner's supply
and none listed on the board. Scoring twice in a row names no winner and
sends no follower home the second time.
