# arena

The rules of a filler game, with their proofs, and the web socket server
that runs it.

Two players take turns placing randomly grown pieces on a square board. A
piece may go where all of its cells land on the board, on empty cells or the
player's own, with exactly one of them on the player's own. Whoever places
more pieces wins.

- `src/board.rs`: the board, the placement rule, placing a piece, and what a
  placement would give a player (distances to the opponent, contact, edges
  reached, regions held).
- `src/piece.rs`: pieces and their extent.
- `src/growth.rs`: how a piece grows from one cell into a connected shape,
  driven by random draws or by draws given in advance.
- `src/game_state.rs`: starting a game, the scan of every position for the
  player whose turn it is, moves, and handing over the turn.
- `src/server.rs`: where the server sends each client message.
- `app/`: the server itself (sockets, JSON, the console), and the
  floating-point figures sent to players, computed from the library's
  integer results.
