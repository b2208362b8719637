# micronet_antenna

The deterministic core of a network-native micronation, verified with Verus.

- `src/types.rs`: identities, proposals, votes, messages; lexicographic byte order.
- `src/ordered.rs`: strictly sorted key sequences (the shape of the state's sets and maps).
- `src/consensus.rs`: the simple-majority vote rule.
- `src/state.rs`: `GlobalState`, `Runtime` and the transition function `apply`,
  specified by `apply_spec`.
- `src/laws.rs`: properties across operations (validity, derived decisions,
  idempotent announcements, first proposal wins, replay in pieces, delivery
  order irrelevant, decisions depend only on the counts of own votes, peers are
  the announced nodes, the stored proposal is the last submitted or first applied, ...).
- `src/live.rs`: an in-process network of citizens (queue, automatic voting)
  with partition, packet loss and delivery delay, and the dashboard's key handling
  (q, arrows, p, h, v, x, l, d), tick timing and listing of laws.
- `src/boot.rs`: the antenna's boot stage.
- `src/error.rs`: transport errors and the `Transport` trait.
- `app/`: the UDP transport (postcard), the CLI, the terminal dashboard
  (ratatui/crossterm) and the `os_kernel_foundry` compositions.
