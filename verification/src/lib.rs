//! Payment management for the Snap Coin network: deposits and withdrawals that survive forks and
//! expiry.
//!
//! The processors hold what is known and decide what each event of the chain means. Whoever drives
//! them listens to the chain, hands them its events, and carries out what they call for.

/// Transactions, blocks and events.
pub mod chain;
/// What is decided around each exchange with the chain.
pub mod chain_interaction;
/// Laws of payments and of the queue.
pub mod chain_laws;
/// Blocks that wait for confirmations.
pub mod confirmation_queue;
/// What the deposit processor is for.
pub mod deposit_laws;
/// The state of the deposit processor and its laws.
pub mod deposit_ledger;
/// Handles incoming (deposit) payments.
pub mod deposit_payment_processor;
/// Hashes, keys and signatures.
pub mod ids;
/// What a listener does next.
pub mod listener;
mod seq_lemmas;
/// What the withdrawal processor is for.
pub mod withdrawal_laws;
/// The state of the withdrawal processor and its laws.
pub mod withdrawal_ledger;
/// Handles outgoing (withdrawal) payments.
pub mod withdrawal_payment_processor;
