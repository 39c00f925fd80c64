# fresh

A coin ledger with delegated staking, verified with Verus.

- `src/address.rs`: 32-byte addresses, their equality and bytewise order.
- `src/assoc.rs`: association lists keyed by address and the map they denote.
- `src/ledger.rs`: `Ledger`, balances per address, with its sum and pro-rata reward sharing.
- `src/coin.rs`: `SimpleCoin` (signed transfers, balances, genesis allocations), the
  `Eerie` and `Fresh` coins and their genesis allocations.
- `src/staking.rs`: `Staking`, coins delegated to validators kept in address order,
  and the `Validators` context that collects voting-power updates.
- `src/net.rs`: `FreshNet`, the network state: delegation, delegation listing, and the
  per-block reward.
- `src/encoding.rs`: validator addresses written in base64 (through `base64::decode`).
- `src/laws.rs`: properties that span the operations (what a transfer moves, what a
  transfer back undoes, what a delegation adds, what a reward can do).
- `app/`: the command-line client and node, wired to orga's node and RPC client.

A transfer conserves the coin supply; a delegation conserves the coins held plus the coins
staked; a block reward mints exactly `BLOCK_REWARD` coins into the validator pool (the
part that rounding leaves uncredited stays in the pool) and never shrinks a delegation.
A refused transfer leaves the state unchanged; a delegate call that fails after taking
or moving coins leaves them taken or moved, and the host discards the state of a
failed call.
