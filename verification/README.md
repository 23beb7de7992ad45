# sink

A text synchronization library: an RGA-inspired CRDT whose operation log is
kept in (timestamp, id) order and sealed by a SHA-1 hash chain, the JSON-RPC
messages of the synchronization protocol, the server's and the client's
decisions, and a last-write-wins document store. The library is written in
Verus and verified; the network side (WebSocket server and client, JSON
encoding) lives in `app/`.

Layout:

- `src/lib.rs` — operations, messages, text entries, hash blocks.
- `src/timestamp.rs` — instants in the range `jiff` supports.
- `src/order.rs`, `src/sorted.rs` — the (timestamp, id) order and sorted insertion.
- `src/message_order.rs` — that order as `partial_cmp` and `<` on messages.
- `src/timesort.rs` — the stable sort by timestamp that a merge starts with.
- `src/content.rs` — applying one message to the log and the text entries.
- `src/crdt.rs` — the CRDT: merge, text, hash chain, comparison with a peer.
- `src/laws.rs` — properties that span calls: a merge ignores the order of
  the incoming messages, and two fresh replicas that merge the same messages
  end with the same log (by view), text and chain; two batches merged in
  either order give the same log (the text can differ when a removal arrives
  before the addition it removes); a second merge of the same
  messages leaves the log unchanged, and the text too when every removal is
  timestamped after the additions it removes; a peer holding a prefix of the
  log gets exactly the rest from a comparison; removals are permanent; the
  chain only grows; the later of two document updates wins.
- `src/rpc.rs`, `src/server.rs`, `src/client.rs` — protocol types and decisions.
- `src/document.rs` — documents and their store (finitely many, each under
  its own identifier when created and updated through the store).
- `src/hexcode.rs`, `src/digest.rs` — hex text and SHA-1 through `hex` and `ring`.
- `tests/` — tests of the library.
- `app/` — WebSocket server and client, serializable copies of the protocol types.
