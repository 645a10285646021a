# radix_index

A prefix-membership index over content-addressed block chains, verified with
Verus, together with the services around it.

- `flat`, `core3`: the index in two layouts, one with an entry per position and
  one with chains in a trie; `model` says what both hold and answer, `laws` and
  `agreement` what follows.
- `engine`, `engine_laws`, `replicas`, `placements`: the index service's state: keyspaces,
  holders, epochs, batch numbers; and what replicas of it agree on.
- `forest`, `snapshots`, `chunks`, `bootstrap`: a holder's blocks as chains in
  messages, and what an engine that takes the messages ends up with.
- `bridge`, `proto`: workers' cache events on their way into the index.
- `mock`: mock inference workers, with a simulated cache.
- `inference`, `gateway`, `control`: what routers and workers say to each other.
- `loadgen`, `bench`: load on gateways and on the index.
- `json`, `fx`, `wire_hash`, `sorted`: outside functions, with what is relied on
  stated above each.

`app/` holds clocks, locks, sockets and timers, and the figures that are no
whole numbers. `tests/` runs the library.
