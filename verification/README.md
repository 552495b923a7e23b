# musce

The verified core of the MUSCE MUD engine, written in Verus. Every function in
`src/` carries a contract that Verus proves, except the few trusted wrappers
(`#[verifier::external_body]`) around uuid, argon2, serde_json and std calls,
whose contracts restate what those crates document and are not proved.

## Layout

- `src/` — the library.
  - World structure: `id`, `relation` (one-to-many relations, cascades, cycle
    refusal, snapshot identity and link checks on load), `walk` (steered descendant walks), `fact` (movement and
    destruction facts), `structure` (live entities, registered relations and
    the despawn cascade), `control` (control wiring and focus).
  - Derived state: `index` (one secondary index), `indexes` (named indexes
    driven by facts).
  - Affordances: `schema`, `affordance`, `validation`, `state`, `world_view`,
    `perform`, `offers`, `registry`, `caps`, `gauge`, `audience` (resolving
    addressed output to connections).
  - Agency: `arbiter`, `planner`, `driver`.
  - Host decisions: `session` (the connection floor), `dispatch` (command
    tables), `names` (name resolution), `accounts` (account operations),
    `clock` (tick and snapshot cadence).
  - Accounts: `account`, `password` (argon2 behind trusted wrappers),
    `authority`, `store`.
  - Text: `text` (string helpers), `messages` (error messages).
- `tests/` — tests of the library, run against the real outside crates.
- `app/` — the program around the library: an account console over stdin,
  the serde copies of library types, snapshot blob decoding, and messages that
  wrap outside errors.
