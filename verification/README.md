# relics

Relics are fungible tokens carried by Bitcoin outputs. A transaction speaks to the
protocol through a *keepsake*: an `OP_RETURN` output whose script starts with
`OP_RETURN OP_15` and whose data pushes spell a list of varint-encoded 128-bit
integers. A keepsake may seal a name, enshrine a sealed relic (its mint terms, boost
terms and pool fee), mint or unmint relics, swap through a relic's liquidity pool,
claim collected fees, and transfer relics to outputs. A malformed keepsake is a
*cenotaph*, and the relics its transaction carries are burned.

This crate is the protocol's core, written in Verus: the functions under `src/` are
verified against their contracts, the few calls into `bitcoin`, `ordinals` and std
stand behind small trusted wrappers whose contracts say what those calls give (the
mint seed's hash, which std does not fix across releases, is claimed to be nothing in
particular), and the laws that hold across functions are proof functions.

## Layout

- `keepsake.rs` and `keepsake/`: reading a keepsake from a transaction
  (`Keepsake::decipher`, with its fields, flags and tags) and writing one
  (`Keepsake::encipher`); `keepsake/roundtrip.rs` proves that deciphering what was
  enciphered gives the keepsake back.
- `encode.rs`, `script.rs`: varints and output scripts.
- `enshrining.rs`: enshrining, mint terms, boost terms, price models and their
  validation.
- `entry.rs`, `pool.rs`: what the index records of a relic and what can be minted,
  unminted and swapped against it.
- `ledger.rs`, `balance.rs`: the balances of a transaction while it is indexed:
  transfers, the default output, burns, and the finalized outputs.
- `updater.rs`, `inscriptions.rs`: the indexing rules for minting, unminting,
  swapping, claiming, sealing and enshrining.
- `block.rs`: the transactions indexed so far in a block, whose outputs' relics are
  not safe for later transactions of the same block.
- `indexer.rs`: indexing one transaction as a state machine: it names the next
  operation for the index to perform against its tables, takes the outcome back,
  and ends with the finalized outputs, the burns, the refused operations and the
  fees collected for owners.
- `flows.rs`: what a transaction does to the relics that each address holds.
- `wallet.rs`: the keepsakes that the wallet commands build, the postage's dust
  check and the layout of their outputs.
- `selection.rs`: which wallet outputs a transaction spends to bring the relics it
  needs.
- `relic_json.rs`: reading a relic's record from the index server's JSON.
- `app/main.rs`: a command line front end that builds keepsake scripts and reads
  them back from raw transactions.
