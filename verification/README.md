# cw-blotto

A game of Blotto as a CosmWasm contract. Armies compete over battlefields. Players back an
army on a battlefield by staking coins; a player is on one side only in each battlefield. The
army with the largest stake on a battlefield wins it and its points, and the stakes of the
losers go to the prize pool. The tally crowns the army with the most points and closes the
game. Then every player can withdraw once: the stakes on battlefields that were won with them
or that are a tie, and a share of the prize pool in proportion to the player's part of what is
staked on the winning army.

`src/` is the game, with its contracts proved by Verus:

- `contract` holds the operations.
- `rules` says what each operation makes of the contract's state.
- `laws`, `tally_laws`, `payout_laws` and `play_laws` state and prove what holds of the game as
  a whole, over the books in `accounts` and the sums in `sums`.
- `ledger` is the model of what the storage holds, and `state`, `msg` and `error` are the
  values that the operations take and give.
- `storage`, `payment`, `share` and `text` hold the calls to other crates. Their contracts are
  believed, not proved.
- `walk` holds the loops over lists.

`app/` is the contract's entry points on the chain. `tests/` plays games on a storage in
memory.

In storage an army, a battlefield and a stake are tuples of their fields, and the phase is
whether the game is open. Stakes are keyed by army, battlefield and player, and indexed by each
of the three.
