# mininet

The verified core of the Mininet economy, erasure coding and desktop
helpers, written in Verus. Verus checks every function in `src/` against
its contract; the public `lemma_*` proof functions state the laws that
relate several functions (round trips, order independence, invariants that
every operation keeps).

- Erasure coding: `gf256` (the field and its laws), `poly` (polynomials
  and their roots), `matrix` (products, Gauss-Jordan inversion, which
  fails exactly on singular matrices, and the systematic generator, any
  `k` of whose rows are nonsingular), `erasure` (Reed-Solomon encode and
  reconstruct from any `k` shards), `health` (BLAKE3 shard checks and
  repair).
- Economy: `amount`, `issuance`, `cadence`, `ledger` (supply and
  vesting, with the invariant that every accepted epoch keeps),
  `snapshot` (export and import, and the law that an exported state
  imports), `scalable_epoch_wire`, `genesis`, `commitment`, `credit`,
  `econ_sim`, `engagement`, `economy_error`.
- Desktop: the did:mini parser's verdicts as the library receives them
  (`did`), settings and cards (`connectivity`, `network_session`,
  `privacy`), local lists and files (`mute_list`, `conversation_state`,
  `bundle`, `library`), text and layout helpers (`text`, `records`,
  `catalog`, `discussion`, `timeline`, `player`, `video`, `theme`,
  `profile_fields`), and the peer protocol's frames and budgets
  (`peer_link`, `netsearch`, `app_service`).

`app/` holds what Verus does not see: the economic simulation's command
line, and the file and process plumbing around the library. `tests/` runs
the library on concrete values.
