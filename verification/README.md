# ninja

A distributed DAG execution engine whose core is verified with Verus.

- `src/` — the verified library:
  - `wire` — big-endian integers and length-prefixed frames, with the
    frame round-trip law; `dag` — the size-capped variant of the framing;
  - `protocol` — task and result records;
  - `engine::graph` / `engine::topo` — the task graph, its operations, and the
    in-degree check (Kahn's algorithm), proved to succeed exactly when the
    recorded counts match the edges and the tasks can be ordered;
    `engine::progress` — the proof that a task the graph reports ready has
    every dependency completed, and that building the graph and moving tasks
    through their states keep this so;
  - `engine::path` / `engine::packet` — the route header and packet byte
    formats, with round-trip laws in both directions, and the least-loaded
    worker choice;
  - `engine::retry` (with the reconnection backoff), `engine::executor`, `engine::config`, `engine::worker`;
  - `server::orchestrator` — the master's scheduler; `server::ordering` — the
    proof that it hands out a task only after every dependency succeeded;
    `server::runs` — the same over whole runs of calls, and that no task is
    handed out twice; `server::failover` — silent-worker eviction and the
    ledger of which worker holds which task, so that a lost worker's tasks
    are queued again; `server::master` — the master's state and what it does
    on each event (plan, registration, heartbeat, result, lost worker,
    dispatch, silence check);
  - `assoc` — association lists read as maps.
- `app/` — the binaries (master, `worker`, `client`): sockets, processes,
  serialization with serde, logging.
- `tests/` — tests of the library on concrete values.
