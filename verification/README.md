# healing_cache

A distributed cache that heals itself, verified with Verus: nodes that store keys, gossip
about one another and take over keys when they join, and a router that replicates requests
over them.

- `src/` is the verified library. Each public function has a contract; what holds over several
  calls is stated as proof functions, next to what they are about or in the `laws` modules.
  - `resp`: the RESP protocol and its commands
  - `cache`: the store with expiry, and tombstones
  - `gossip`: the membership table, its messages, rounds and answers
  - `hashring`: consistent hashing
  - `service`, `connection`, `rebalance`, `seeds`: the node
  - `router`, `replication`, `health`, `observer`, `cluster`: the router
  - `load`: what load workers ask for and measure
- `tests/` runs the library.
- `app/` holds the programs: sockets, gRPC, timers and the command line.

Time is passed around as nanoseconds on a clock that starts with the store or the table.
Functions that read that clock have a twin with `_at` in its name that takes the time.
