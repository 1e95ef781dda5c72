# ironring

The verified core of a small distributed key-value store built on a
consistent hash ring.

- `src/` is the library, checked by Verus:
  - `hashing` — ring positions (SHA-256 of a text, first eight bytes read
    big-endian) and virtual-node labels;
  - `strmap` — a small map keyed by text that keeps insertion order;
  - `ring` — the hash ring with virtual nodes: placement, primary and
    replica lookup, snapshots, and the laws that tie them together;
  - `controller` — node registry, heartbeats, the failure detector and
    metrics;
  - `worker` — a worker's store and ring copy, write routing and the quorum
    decision;
  - `replication` — planning re-replication after a node dies;
  - `address` — node addresses and the registration request;
  - `models`, `error`, `store` — shared data types and the store.
- `tests/` exercises the library on concrete values.
- `app/` is the program around it: HTTP routes, timers and network calls for
  the controller and worker roles (`ironring controller` or
  `ironring worker`).
