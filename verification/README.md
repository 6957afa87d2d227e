# Snap Coin Pay

Payment management for the Snap Coin network, with its decisions verified in
[Verus](https://github.com/verus-lang/verus).

Two processors follow the chain. `DepositPaymentProcessor` watches addresses and tells how far a
payment to each of them has come. `WithdrawalPaymentProcessor` follows outgoing payments, sends
one anew when it expires, and reports it once it is deep enough in the chain. Both take forks into
account: a block stays in a queue until enough blocks lie on top of it.

## Layout

- `src/` is the verified library. It makes every decision and does no I/O.
  - `deposit_payment_processor`, `withdrawal_payment_processor`: the processors, each a state that
    takes an event of the chain and says what it calls for.
  - `deposit_ledger`, `withdrawal_ledger`: what each processor knows, as a mathematical value; how
    it changes; and the laws that hold of it (`law_*`).
  - `confirmation_queue`: the blocks that wait for confirmations.
  - `chain_interaction`: what a built or submitted transaction amounts to, which inputs are
    spoken for, how hard a proof of work must be.
  - `listener`: what a listener does next.
  - `chain`, `ids`: transactions, blocks, events, hashes and keys.
- `app/` connects the library to a node, over its API or embedded, with tokio.
- `tests/` runs the library, with the outside crates linked.

## What is trusted

`calculate_live_difficulty`, `display_blockchain_error` and `bincode_encode_error` (of
`snap-coin`) and `random_withdrawal_id` (of `uuid`) are the only functions whose contracts are
not proved. The comment above each says what it claims.
