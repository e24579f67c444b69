# goat_bot

Decision logic of a bot for a multiplayer grid game, with machine-checked
contracts and proofs.

- `src/state.rs`: the game state the strategies read (position, map size,
  obstacles, resources) and its cells as mathematical pairs.
- `src/strategy.rs`: the `Strategy` trait and its two strategies.
  `NearestResourceStrategy` steps towards the first resource at the smallest
  Manhattan distance; `BFSStrategy` runs a breadth-first search and returns the
  first move of the best path to a resource (shortest first, then the
  lexicographically least in the move order up-y, down-y, up-x, down-x).
- `src/paths.rs`: paths as move sequences and the order on them.
- `src/search.rs`: the invariants of the search and the lemmas that carry them.
- `src/miner.rs`: one proof-of-work miner: the striped nonce search, and the
  laws that miners of one pool never overlap and together cover every nonce.
- `src/bot.rs`: the main loop's reactions to server events.
- `app/`: the program around the library: WebSocket I/O, JSON messages, the
  miner threads and the main loop. It relies on the game's `pow` (the
  proof-of-work check) and `state` (tracking the game state from server
  messages) modules, which this repository does not contain.
