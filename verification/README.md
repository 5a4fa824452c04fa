# bitdefenders

A client bot for the Bitdefenders arena game, with its game logic verified in Verus.

- `src/geometry.rs`: Chebyshev distance, Bresenham lines and line of sight.
- `src/pathfinding.rs`: an A* search over three-cell moves; it returns the first
  move of a shortest path (of several, the one tried first), or nothing when the
  goal is the start or unreachable.
- `src/open_list.rs`: the binary min-heap that holds the search's open cells.
- `src/evaluator.rs`: the scoring of positions, the look-ahead score and the
  prediction of enemy moves.
- `src/bot.rs`: the orders for each server message.
- `src/cli.rs`: the play mode and the parsing of the player slot.
- `src/protocol.rs`: the messages exchanged with the server.
- `app/`: the command line, the WebSocket connection and the JSON encoding.
