# etcd

A small etcd-like key-value service replicated with Raft, whose logic is
verified with Verus.

## Layout

- `src/` — the verified library.
  - `raft/node.rs` — a Raft node: its state, the transitions it makes when it
    answers vote and append requests (a follower checks the previous entry,
    keeps the entries it already holds, drops its entries from the first
    carried one it does not hold and stores the rest, takes up the leader's
    commit index and applies newly committed entries), runs and concludes
    elections, plans and records log replication, handles its heartbeat timer,
    writes, deletes, snapshots (their data read as a JSON map of strings) and
    membership changes. Each transition is stated as a spec function on
    `NodeView`, the node seen as a value; the election timer's restarts are
    stated on the `last_heartbeat` field.
  - `raft/apply.rs` — how a committed log entry changes the key-value store.
  - `raft/laws.rs` — properties of those transitions: terms never go down,
    stale requests are refused, one vote per term, majorities intersect, the
    commit index never goes down where the carried entries agree with the
    committed ones, and a follower reads a committed write of a key without
    spaces where its log agrees with the carried entries and nothing after the
    write touches the key.

A write is logged as `SET key value`. A node that applies the entry reads the
key up to the first space and the value as the rest, so a key holding a space
is stored split on the nodes that apply the entry (`SET a b c` stores `b c`
under `a`), while the leader that took the write stores the key and value as
given.
  - `raft/cluster.rs` — a cluster of nodes with fixed membership as a state
    machine, and the invariant that gives at most one leader per term over any
    run.
  - `raft/testing.rs` — the checks a test cluster runs over its nodes.
  - `kv.rs` — the key-value state machine, viewed as a map. It keeps its
    pairs in a `Vec` with each key once: vstd specifies `HashMap` only for keys
    it knows to obey its key model (integers, `bool`, ...), and `String` is not
    among them, so a `HashMap<String, String>` could be used only by assuming
    that model.
  - `operation.rs`, `server.rs`, `agent.rs`, `text.rs` — the text and byte
    formats: client operations, cluster configuration strings, length-prefixed
    payloads, decimal numbers.
  - `rpc.rs`, `etcd.rs`, `etcd_rpc.rs` — the JSON-RPC store and service
    registration keys.
- `app/` — the program around the library: command-line handling, the network
  transport between nodes, the asynchronous loops that send what a node decides
  and hand back what comes back, files, and the test cluster driver.
- `tests/` — tests of the library.
