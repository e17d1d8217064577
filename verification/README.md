# nice_hand_core

A Texas Hold'em engine whose rules are verified with Verus.

- `src/` is the verified library: seven-card hand evaluation, card
  abstraction buckets, the six-seat betting state machine, validation of
  client game states, the analysis cache, multi-table tournament seating,
  balancing, eliminations and standings, and the action choices of the
  expected-value simulator. Each public function states what it returns
  in its contract, and laws such as chip conservation, read-after-write of
  the cache and the order of tournament standings are proved there.
- `app/` is the program around it: CFR training, expected values, ICM
  equities, web services and the WebAssembly bridge, which run on floating
  point, locks, clocks and serde.
- `tests/` exercises the library on concrete values.
