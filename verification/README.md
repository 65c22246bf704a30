# vigie

The protocol core of Vigie, a SWIM membership and failure-detection protocol,
written in Verus. The core performs no I/O: the caller feeds it messages and
timer expiries (`ingest`, `start_period`, `indirect_probe`,
`confirm_suspicion`) and drains the effects it queues (`pop_effect`).

Layout:

- `src/member.rs`, `message.rs`, `effects.rs`, `error.rs`: the protocol's values.
- `src/member_store.rs`: the `MemberStore` trait, specified over the table it holds;
  `src/builtin_member_store.rs` implements it on a vector and draws on `rand`
  for shuffling and sampling.
- `src/builtin_effect_store.rs`: a first-in first-out `EffectStore`.
- `src/dissemination.rs`: the gossip buffer (at most one event per member) and
  the pending indirect probes, a `HashMap` keyed by the packed member address.
- `src/model.rs`: the update rules of the protocol as spec functions.
- `src/vigie.rs`, `src/builder.rs`: the node and its builder, each operation
  specified against `model.rs`.
- `src/laws.rs`: proved properties: convergence of gossip merging, monotonicity,
  idempotence, refutation of suspicions, what taking in a message keeps, the
  choice of relays for indirect probes, and the bounds of gossiping.
- `src/realization.rs`: the runtime-facing settings and the parsing of member
  addresses written `a.b.c.d:port`, last address byte first as members print.
- `app/`: printable forms of the values and an error type for `std::error::Error`.
