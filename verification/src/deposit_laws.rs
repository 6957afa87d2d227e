//! What the deposit processor is for, event by event and output by output.
use crate::chain::{
    newest_paying_id, payments, BlockView, ChainEventView, TransactionOutput, TransactionView,
};
use crate::chain_laws::{
    forks_at, last_to, law_every_output_pays, law_every_transaction_of_a_block_pays,
    law_queue_after_a_block, law_the_last_payment_counts, law_the_newest_payment_counts, none_to,
    receives,
};
use crate::deposit_ledger::{
    confirms_in, identified, law_status_after_block, law_status_after_expiration,
    law_status_after_transaction, pays_any, DepositLedger,
};
use crate::deposit_payment_processor::{DepositConfirmation, DepositStatus};
use crate::ids::{Public, TransactionId};
use crate::seq_lemmas::lemma_filter_push;
use vstd::prelude::*;

verus! {

/// Whether `transactions` hold one with the given id and an output to `address`.
pub open spec fn sends(
    transactions: Seq<TransactionView>,
    id: TransactionId,
    address: Public,
) -> bool {
    exists|i: int, j: int|
        0 <= i < transactions.len() && transactions[i].transaction_id == Some(id) && 0 <= j
            < transactions[i].outputs.len() && (#[trigger] transactions[i].outputs[j]).receiver
            == address
}

/// The block that gets enough confirmations when `block` arrives and `n` blocks of `queue` stay:
/// the oldest of those that stay, or the arriving one if none does.
pub open spec fn oldest_of(queue: Seq<BlockView>, n: int, block: BlockView) -> BlockView {
    if n > 0 {
        queue[0]
    } else {
        block
    }
}

/// A new ledger listens to nothing, has seen nothing and queues nothing.
pub proof fn law_a_new_deposit_ledger_knows_nothing(address: Public)
    ensures
        !DepositLedger::empty().addresses.contains(address),
        DepositLedger::empty().status(address) == DepositStatus::NotSeen,
        DepositLedger::empty().queue.len() == 0,
{
}

/// The status that is reported is the one on record, whichever it is.
pub proof fn law_the_recorded_status_is_reported(ledger: DepositLedger, address: Public)
    ensures
        ledger.statuses.contains_key(address) ==> ledger.status(address)
            == ledger.statuses[address],
        !ledger.statuses.contains_key(address) ==> ledger.status(address)
            == DepositStatus::NotSeen,
{
}

/// Adding an address listens to it as one not seen, and changes nothing else.
pub proof fn law_adding_changes_one_address(ledger: DepositLedger, address: Public, other: Public)
    ensures
        ledger.add(address).addresses.contains(other) <==> ledger.addresses.contains(other)
            || other == address,
        ledger.add(address).status(other) == if other == address {
            DepositStatus::NotSeen
        } else {
            ledger.status(other)
        },
        ledger.add(address).queue == ledger.queue,
{
}

/// Removing an address stops listening to it and forgets its status, and changes nothing else.
pub proof fn law_removing_changes_one_address(
    ledger: DepositLedger,
    address: Public,
    other: Public,
)
    ensures
        ledger.remove(address).addresses.contains(other) <==> ledger.addresses.contains(other)
            && other != address,
        ledger.remove(address).status(other) == if other == address {
            DepositStatus::NotSeen
        } else {
            ledger.status(other)
        },
        ledger.remove(address).queue == ledger.queue,
{
}

/// A transaction in the mempool makes every listened address that one of its outputs goes to
/// pending, and changes nothing else.
pub proof fn law_mempool_makes_deposits_pending(
    ledger: DepositLedger,
    transaction: TransactionView,
    confirmation_count: nat,
    address: Public,
)
    ensures
        ({
            let after = ledger.on_event(
                ChainEventView::Transaction { transaction },
                confirmation_count,
            );
            &&& forall|j: int|
                0 <= j < transaction.outputs.len() && (#[trigger] transaction.outputs[j]).receiver
                    == address && ledger.addresses.contains(address)
                    && transaction.transaction_id is Some ==> after.status(address) == (
                DepositStatus::Pending { transaction: transaction.transaction_id->0 })
            &&& !ledger.addresses.contains(address) || !receives(transaction, address)
                ==> after.status(address) == ledger.status(address)
            &&& after.addresses == ledger.addresses
            &&& after.queue == ledger.queue
        }),
{
    law_status_after_transaction(ledger, transaction, address);
    law_every_output_pays(transaction, address);
}

/// An expiry makes the deposits that are pending on that very transaction expired, and changes
/// nothing else.
pub proof fn law_expiry_expires_pending_deposits(
    ledger: DepositLedger,
    transaction: TransactionId,
    confirmation_count: nat,
    address: Public,
)
    ensures
        ({
            let after = ledger.on_event(
                ChainEventView::TransactionExpiration { transaction },
                confirmation_count,
            );
            &&& after.status(address) == if ledger.status(address) == (DepositStatus::Pending {
                transaction,
            }) {
                DepositStatus::Expired { transaction }
            } else {
                ledger.status(address)
            }
            &&& after.addresses == ledger.addresses
            &&& after.queue == ledger.queue
        }),
{
    law_status_after_expiration(ledger, transaction, address);
}

proof fn lemma_sends(block: BlockView, id: TransactionId, address: Public)
    ensures
        block.pays_by(id, address) <==> sends(block.transactions, id, address),
{
    let txs = block.transactions;
    law_every_transaction_of_a_block_pays(block, address, id);
    if sends(txs, id, address) {
        let (i, j) = choose|i: int, j: int|
            0 <= i < txs.len() && txs[i].transaction_id == Some(id) && 0 <= j
                < txs[i].outputs.len() && (#[trigger] txs[i].outputs[j]).receiver == address;
        assert(txs[i].outputs[j].receiver == address);
        assert(receives(txs[i], address));
    }
    if block.pays_by(id, address) {
        let i = choose|i: int|
            0 <= i < txs.len() && (#[trigger] txs[i]).transaction_id == Some(id) && receives(
                txs[i],
                address,
            );
        let j = choose|j: int|
            0 <= j < txs[i].outputs.len() && (#[trigger] txs[i].outputs[j]).receiver == address;
        assert(txs[i].outputs[j].receiver == address);
    }
}

proof fn lemma_pays(block: BlockView, address: Public)
    ensures
        block.pays(address) <==> !none_to(block.transactions, address),
{
    let txs = block.transactions;
    if block.pays(address) {
        let i = choose|i: int| 0 <= i < txs.len() && #[trigger] txs[i].pays(address);
        law_every_output_pays(txs[i], address);
        let j = choose|j: int|
            0 <= j < txs[i].outputs.len() && (#[trigger] txs[i].outputs[j]).receiver == address;
        assert(txs[i].outputs[j].receiver == address);
    }
    if !none_to(txs, address) {
        let (i, j) = choose|i: int, j: int|
            0 <= i < txs.len() && 0 <= j < txs[i].outputs.len() && (
            #[trigger] txs[i].outputs[j]).receiver == address;
        law_every_output_pays(txs[i], address);
        assert(txs[i].outputs[j].receiver == address);
        assert(txs[i].pays(address));
    }
}

proof fn lemma_confirms_in(blocks: Seq<BlockView>, id: TransactionId, address: Public)
    ensures
        confirms_in(DepositStatus::Confirming { transaction: id }, blocks, address) <==> (
        exists|b: int|
            0 <= b < blocks.len() && sends((#[trigger] blocks[b]).transactions, id, address)),
{
    let status = DepositStatus::Confirming { transaction: id };
    if confirms_in(status, blocks, address) {
        let b = choose|b: int| 0 <= b < blocks.len() && #[trigger] blocks[b].pays_by(id, address);
        lemma_sends(blocks[b], id, address);
        assert(sends(blocks[b].transactions, id, address));
    }
    if exists|b: int|
        0 <= b < blocks.len() && sends((#[trigger] blocks[b]).transactions, id, address) {
        let b = choose|b: int|
            0 <= b < blocks.len() && sends((#[trigger] blocks[b]).transactions, id, address);
        lemma_sends(blocks[b], id, address);
        assert(blocks[b].pays_by(status->Confirming_transaction, address));
    }
}

/// A block leaves the addresses that are listened to as they are, and leaves the status of every
/// other address alone. It drops the blocks above the one it stands on, comes on top of the rest,
/// and lets the oldest go if they are then more than the confirmation count.
pub proof fn law_a_block_keeps_the_addresses(
    ledger: DepositLedger,
    block: BlockView,
    confirmation_count: nat,
    n: int,
    address: Public,
)
    requires
        forks_at(ledger.queue, block.previous_block, n),
    ensures
        ({
            let after = ledger.on_event(ChainEventView::Block { block }, confirmation_count);
            &&& after.addresses == ledger.addresses
            &&& !ledger.addresses.contains(address) ==> after.status(address) == ledger.status(
                address,
            )
            &&& after.queue == if n + 1 > confirmation_count {
                ledger.queue.take(n).push(block).skip(1)
            } else {
                ledger.queue.take(n).push(block)
            }
        }),
{
    law_queue_after_a_block(ledger.queue, block, confirmation_count, n);
    law_status_after_block(ledger, block, confirmation_count, address);
}

/// When a block gets enough confirmations, every listened address that one of its outputs goes to
/// is confirmed, by the last transaction of the block that has such an output.
pub proof fn law_a_deep_deposit_is_confirmed(
    ledger: DepositLedger,
    block: BlockView,
    confirmation_count: nat,
    n: int,
    address: Public,
    i: int,
    id: TransactionId,
)
    requires
        forks_at(ledger.queue, block.previous_block, n),
        n + 1 > confirmation_count,
        ledger.addresses.contains(address),
        last_to(oldest_of(ledger.queue, n, block).transactions, address, i),
        oldest_of(ledger.queue, n, block).transactions[i].transaction_id == Some(id),
    ensures
        ledger.on_event(ChainEventView::Block { block }, confirmation_count).status(address) == (
        DepositStatus::Confirmed { transaction: id }),
{
    let deep = oldest_of(ledger.queue, n, block);
    law_queue_after_a_block(ledger.queue, block, confirmation_count, n);
    law_status_after_block(ledger, block, confirmation_count, address);
    law_the_last_payment_counts(deep.transactions, address, i);
    lemma_pays(deep, address);
}

/// When a block arrives, every listened address that one of its outputs goes to is confirming, by
/// the last transaction of the block that has such an output, whatever blocks it orphans, unless
/// the block that gets enough confirmations has an output to it too.
pub proof fn law_an_arriving_deposit_is_confirming(
    ledger: DepositLedger,
    block: BlockView,
    confirmation_count: nat,
    n: int,
    address: Public,
    i: int,
    id: TransactionId,
)
    requires
        forks_at(ledger.queue, block.previous_block, n),
        n + 1 > confirmation_count ==> none_to(
            oldest_of(ledger.queue, n, block).transactions,
            address,
        ),
        ledger.addresses.contains(address),
        last_to(block.transactions, address, i),
        block.transactions[i].transaction_id == Some(id),
    ensures
        ledger.on_event(ChainEventView::Block { block }, confirmation_count).status(address) == (
        DepositStatus::Confirming { transaction: id }),
{
    law_queue_after_a_block(ledger.queue, block, confirmation_count, n);
    law_status_after_block(ledger, block, confirmation_count, address);
    law_the_last_payment_counts(block.transactions, address, i);
    lemma_pays(block, address);
    lemma_pays(oldest_of(ledger.queue, n, block), address);
}

/// A deposit that was confirming by a transaction of an orphaned block, by whichever output, is
/// not seen any more, unless the arriving block or the one that gets enough confirmations has an
/// output to its address, or a block that stays has one in a transaction that carries its id.
pub proof fn law_an_orphaned_deposit_is_not_seen(
    ledger: DepositLedger,
    block: BlockView,
    confirmation_count: nat,
    n: int,
    address: Public,
    id: TransactionId,
    b: int,
    i: int,
    j: int,
)
    requires
        forks_at(ledger.queue, block.previous_block, n),
        ledger.addresses.contains(address),
        ledger.status(address) == (DepositStatus::Confirming { transaction: id }),
        n <= b < ledger.queue.len(),
        0 <= i < ledger.queue[b].transactions.len(),
        ledger.queue[b].transactions[i].transaction_id == Some(id),
        0 <= j < ledger.queue[b].transactions[i].outputs.len(),
        ledger.queue[b].transactions[i].outputs[j].receiver == address,
        none_to(block.transactions, address),
        n + 1 > confirmation_count ==> none_to(
            oldest_of(ledger.queue, n, block).transactions,
            address,
        ),
        forall|c: int, k: int|
            0 <= c < n && 0 <= k < ledger.queue[c].transactions.len() && receives(
                #[trigger] ledger.queue[c].transactions[k],
                address,
            ) ==> ledger.queue[c].transactions[k].transaction_id is None,
    ensures
        ledger.on_event(ChainEventView::Block { block }, confirmation_count).status(address)
            == DepositStatus::NotSeen,
{
    lemma_orphaned(ledger, block, confirmation_count, n, address, id, b, i, j);
    let rest = ledger.queue.take(n);
    assert forall|c: int, k: int|
        0 <= c < rest.len() && 0 <= k < rest[c].transactions.len() && receives(
            #[trigger] rest[c].transactions[k],
            address,
        ) implies rest[c].transactions[k].transaction_id is None by {
        assert(receives(ledger.queue[c].transactions[k], address));
    }
    law_the_newest_payment_counts(rest, address, 0, 0);
}

/// A deposit that was confirming by a transaction of an orphaned block gives way to the newest
/// payment to its address, in the blocks that stay, that carries an id.
pub proof fn law_an_orphaned_deposit_gives_way(
    ledger: DepositLedger,
    block: BlockView,
    confirmation_count: nat,
    n: int,
    address: Public,
    id: TransactionId,
    b: int,
    i: int,
    j: int,
    c: int,
    k: int,
    earlier: TransactionId,
)
    requires
        forks_at(ledger.queue, block.previous_block, n),
        ledger.addresses.contains(address),
        ledger.status(address) == (DepositStatus::Confirming { transaction: id }),
        n <= b < ledger.queue.len(),
        0 <= i < ledger.queue[b].transactions.len(),
        ledger.queue[b].transactions[i].transaction_id == Some(id),
        0 <= j < ledger.queue[b].transactions[i].outputs.len(),
        ledger.queue[b].transactions[i].outputs[j].receiver == address,
        none_to(block.transactions, address),
        n + 1 > confirmation_count ==> none_to(
            oldest_of(ledger.queue, n, block).transactions,
            address,
        ),
        0 <= c < n,
        0 <= k < ledger.queue[c].transactions.len(),
        receives(ledger.queue[c].transactions[k], address),
        ledger.queue[c].transactions[k].transaction_id == Some(earlier),
        forall|y: int|
            k < y < ledger.queue[c].transactions.len() && receives(
                #[trigger] ledger.queue[c].transactions[y],
                address,
            ) ==> ledger.queue[c].transactions[y].transaction_id is None,
        forall|x: int, y: int|
            c < x < n && 0 <= y < ledger.queue[x].transactions.len() && receives(
                #[trigger] ledger.queue[x].transactions[y],
                address,
            ) ==> ledger.queue[x].transactions[y].transaction_id is None,
    ensures
        ledger.on_event(ChainEventView::Block { block }, confirmation_count).status(address) == (
        DepositStatus::Confirming { transaction: earlier }),
{
    lemma_orphaned(ledger, block, confirmation_count, n, address, id, b, i, j);
    let rest = ledger.queue.take(n);
    assert(rest[c] == ledger.queue[c]);
    assert forall|x: int, y: int|
        c < x < rest.len() && 0 <= y < rest[x].transactions.len() && receives(
            #[trigger] rest[x].transactions[y],
            address,
        ) implies rest[x].transactions[y].transaction_id is None by {
        assert(receives(ledger.queue[x].transactions[y], address));
    }
    law_the_newest_payment_counts(rest, address, c, k);
}

proof fn lemma_orphaned(
    ledger: DepositLedger,
    block: BlockView,
    confirmation_count: nat,
    n: int,
    address: Public,
    id: TransactionId,
    b: int,
    i: int,
    j: int,
)
    requires
        forks_at(ledger.queue, block.previous_block, n),
        ledger.addresses.contains(address),
        ledger.status(address) == (DepositStatus::Confirming { transaction: id }),
        n <= b < ledger.queue.len(),
        0 <= i < ledger.queue[b].transactions.len(),
        ledger.queue[b].transactions[i].transaction_id == Some(id),
        0 <= j < ledger.queue[b].transactions[i].outputs.len(),
        ledger.queue[b].transactions[i].outputs[j].receiver == address,
        none_to(block.transactions, address),
        n + 1 > confirmation_count ==> none_to(
            oldest_of(ledger.queue, n, block).transactions,
            address,
        ),
    ensures
        ledger.on_event(ChainEventView::Block { block }, confirmation_count).status(address)
            == match newest_paying_id(ledger.queue.take(n), address) {
            Some(transaction) => DepositStatus::Confirming { transaction },
            None => DepositStatus::NotSeen,
        },
{
    let gone = ledger.queue.skip(n);
    law_queue_after_a_block(ledger.queue, block, confirmation_count, n);
    law_status_after_block(ledger, block, confirmation_count, address);
    lemma_pays(block, address);
    lemma_pays(oldest_of(ledger.queue, n, block), address);
    lemma_confirms_in(gone, id, address);
    assert(gone[b - n] == ledger.queue[b]);
    assert(gone[b - n].transactions[i].outputs[j].receiver == address);
    assert(sends(gone[b - n].transactions, id, address));
}

/// Nothing else about a block changes a status: one that speaks of no orphaned payment to its
/// address stays, if neither the arriving block nor the one that gets enough confirmations has an
/// output to that address.
pub proof fn law_other_deposits_stay(
    ledger: DepositLedger,
    block: BlockView,
    confirmation_count: nat,
    n: int,
    address: Public,
)
    requires
        forks_at(ledger.queue, block.previous_block, n),
        none_to(block.transactions, address),
        n + 1 > confirmation_count ==> none_to(
            oldest_of(ledger.queue, n, block).transactions,
            address,
        ),
        ledger.status(address) matches DepositStatus::Confirming { transaction } ==> forall|b: int|
            n <= b < ledger.queue.len() ==> !sends(
                (#[trigger] ledger.queue[b]).transactions,
                transaction,
                address,
            ),
    ensures
        ledger.on_event(ChainEventView::Block { block }, confirmation_count).status(address)
            == ledger.status(address),
{
    let gone = ledger.queue.skip(n);
    law_queue_after_a_block(ledger.queue, block, confirmation_count, n);
    law_status_after_block(ledger, block, confirmation_count, address);
    lemma_pays(block, address);
    lemma_pays(oldest_of(ledger.queue, n, block), address);
    if let DepositStatus::Confirming { transaction } = ledger.status(address) {
        lemma_confirms_in(gone, transaction, address);
        assert forall|b: int| 0 <= b < gone.len() implies !sends(
            (#[trigger] gone[b]).transactions,
            transaction,
            address,
        ) by {
            assert(gone[b] == ledger.queue[b + n]);
        }
    }
}

proof fn lemma_own_filter(
    outputs: Seq<TransactionOutput>,
    transaction: TransactionView,
    ledger: DepositLedger,
)
    ensures
        outputs.map_values(|o: TransactionOutput| (o.receiver, transaction)).filter(
            ledger.listens(),
        ) == outputs.filter(
            |o: TransactionOutput| ledger.addresses.contains(o.receiver),
        ).map_values(|o: TransactionOutput| (o.receiver, transaction)),
    decreases outputs.len(),
{
    reveal(Seq::filter);
    let pair = |o: TransactionOutput| (o.receiver, transaction);
    let keep = |o: TransactionOutput| ledger.addresses.contains(o.receiver);
    let mapped = outputs.map_values(pair);
    if outputs.len() > 0 {
        let rest = outputs.drop_last();
        lemma_own_filter(rest, transaction, ledger);
        assert(mapped.drop_last() =~= rest.map_values(pair));
        assert(mapped.last() == pair(outputs.last()));
        if keep(outputs.last()) {
            assert(rest.filter(keep).push(outputs.last()).map_values(pair) =~= rest.filter(
                keep,
            ).map_values(pair).push(pair(outputs.last())));
        }
    } else {
        assert(mapped =~= Seq::<(Public, TransactionView)>::empty());
        assert(outputs.filter(keep).map_values(pair) =~= Seq::<(Public, TransactionView)>::empty());
    }
}

proof fn lemma_reports(transactions: Seq<TransactionView>, ledger: DepositLedger)
    ensures
        payments(transactions).filter(ledger.listens()) == transactions.map_values(
            |t: TransactionView|
                t.outputs.filter(
                    |o: TransactionOutput| ledger.addresses.contains(o.receiver),
                ).map_values(|o: TransactionOutput| (o.receiver, t)),
        ).flatten(),
    decreases transactions.len(),
{
    reveal(Seq::filter);
    let of = |t: TransactionView|
        t.outputs.filter(
            |o: TransactionOutput| ledger.addresses.contains(o.receiver),
        ).map_values(|o: TransactionOutput| (o.receiver, t));
    let all = transactions.map_values(of);
    if transactions.len() > 0 {
        let rest = transactions.drop_last();
        let last = transactions.last();
        lemma_reports(rest, ledger);
        lemma_own_filter(last.outputs, last, ledger);
        Seq::filter_distributes_over_add(
            payments(rest),
            last.outputs.map_values(|o: TransactionOutput| (o.receiver, last)),
            ledger.listens(),
        );
        rest.map_values(of).lemma_flatten_push(of(last));
        assert(all =~= rest.map_values(of).push(of(last)));
    } else {
        assert(all =~= Seq::<Seq<(Public, TransactionView)>>::empty());
        assert(payments(transactions).filter(ledger.listens()) =~= all.flatten());
    }
}

/// When a block gets enough confirmations, its outputs to listened addresses are reported, each
/// exactly once and in order, transaction by transaction. Nothing is reported otherwise.
pub proof fn law_each_confirmed_output_is_reported_once(
    ledger: DepositLedger,
    block: BlockView,
    confirmation_count: nat,
    n: int,
    transaction: TransactionView,
    expired: TransactionId,
)
    requires
        forks_at(ledger.queue, block.previous_block, n),
    ensures
        ledger.confirmations(ChainEventView::Block { block }, confirmation_count) == if n + 1
            > confirmation_count {
            oldest_of(ledger.queue, n, block).transactions.map_values(
                |t: TransactionView|
                    t.outputs.filter(
                        |o: TransactionOutput| ledger.addresses.contains(o.receiver),
                    ).map_values(|o: TransactionOutput| (o.receiver, t)),
            ).flatten()
        } else {
            Seq::empty()
        },
        ledger.confirmations(
            ChainEventView::Transaction { transaction },
            confirmation_count,
        ).len() == 0,
        ledger.confirmations(
            ChainEventView::TransactionExpiration { transaction: expired },
            confirmation_count,
        ).len() == 0,
{
    law_queue_after_a_block(ledger.queue, block, confirmation_count, n);
    lemma_reports(oldest_of(ledger.queue, n, block).transactions, ledger);
}

/// A deposit is reported as often as its transaction stands in the confirmed block, times the
/// outputs of that transaction to the address; never if the address is not listened to.
pub proof fn law_number_of_reports(
    ledger: DepositLedger,
    block: BlockView,
    confirmation_count: nat,
    n: int,
    address: Public,
    transaction: TransactionView,
)
    requires
        forks_at(ledger.queue, block.previous_block, n),
        n + 1 > confirmation_count,
    ensures
        ledger.confirmations(ChainEventView::Block { block }, confirmation_count).filter(
            |p: (Public, TransactionView)| p == (address, transaction),
        ).len() == if ledger.addresses.contains(address) {
            oldest_of(ledger.queue, n, block).transactions.filter(
                |t: TransactionView| t == transaction,
            ).len() * transaction.outputs.filter(
                |o: TransactionOutput| o.receiver == address,
            ).len()
        } else {
            0
        },
{
    law_queue_after_a_block(ledger.queue, block, confirmation_count, n);
    lemma_number_of_reports(
        oldest_of(ledger.queue, n, block).transactions,
        ledger,
        address,
        transaction,
    );
}

proof fn lemma_number_of_own(
    outputs: Seq<TransactionOutput>,
    own: TransactionView,
    ledger: DepositLedger,
    address: Public,
    transaction: TransactionView,
)
    ensures
        outputs.map_values(|o: TransactionOutput| (o.receiver, own)).filter(
            ledger.listens(),
        ).filter(|p: (Public, TransactionView)| p == (address, transaction)).len() == if own
            == transaction && ledger.addresses.contains(address) {
            outputs.filter(|o: TransactionOutput| o.receiver == address).len()
        } else {
            0
        },
    decreases outputs.len(),
{
    reveal(Seq::filter);
    let pair = |o: TransactionOutput| (o.receiver, own);
    let same = |p: (Public, TransactionView)| p == (address, transaction);
    let mapped = outputs.map_values(pair);
    if outputs.len() > 0 {
        let rest = outputs.drop_last();
        lemma_number_of_own(rest, own, ledger, address, transaction);
        assert(mapped.drop_last() =~= rest.map_values(pair));
        assert(mapped.last() == pair(outputs.last()));
        lemma_filter_push(
            mapped.drop_last().filter(ledger.listens()),
            same,
            mapped.last(),
        );
    } else {
        assert(mapped =~= Seq::<(Public, TransactionView)>::empty());
    }
}

proof fn lemma_number_of_reports(
    transactions: Seq<TransactionView>,
    ledger: DepositLedger,
    address: Public,
    transaction: TransactionView,
)
    ensures
        payments(transactions).filter(ledger.listens()).filter(
            |p: (Public, TransactionView)| p == (address, transaction),
        ).len() == if ledger.addresses.contains(address) {
            transactions.filter(|t: TransactionView| t == transaction).len()
                * transaction.outputs.filter(|o: TransactionOutput| o.receiver == address).len()
        } else {
            0
        },
    decreases transactions.len(),
{
    reveal(Seq::filter);
    let same = |p: (Public, TransactionView)| p == (address, transaction);
    let each = transaction.outputs.filter(|o: TransactionOutput| o.receiver == address).len();
    let found = transactions.filter(|t: TransactionView| t == transaction).len();
    if transactions.len() > 0 {
        let rest = transactions.drop_last();
        let last = transactions.last();
        let own = last.outputs.map_values(|o: TransactionOutput| (o.receiver, last));
        let before = rest.filter(|t: TransactionView| t == transaction).len();
        lemma_number_of_reports(rest, ledger, address, transaction);
        lemma_number_of_own(last.outputs, last, ledger, address, transaction);
        Seq::filter_distributes_over_add(payments(rest), own, ledger.listens());
        Seq::filter_distributes_over_add(
            payments(rest).filter(ledger.listens()),
            own.filter(ledger.listens()),
            same,
        );
        assert((before + 1) * each == before * each + each) by (nonlinear_arith);
        assert(found == if last == transaction { before + 1 } else { before });
    } else {
        assert(0 * each == 0) by (nonlinear_arith);
        assert(payments(transactions).filter(ledger.listens()) =~= Seq::<
            (Public, TransactionView),
        >::empty());
    }
}

/// The view of a reported deposit holds its address and the whole transaction.
pub proof fn law_deposit_confirmation_view(confirmation: DepositConfirmation)
    ensures
        confirmation@.0 == confirmation.deposit_address,
        confirmation@.1 == confirmation.transaction@,
{
}

/// Whether every one of `transactions` with an output to a listened address carries its id.
pub open spec fn deposits_carry_ids(
    transactions: Seq<TransactionView>,
    addresses: Set<Public>,
) -> bool {
    forall|i: int, j: int|
        0 <= i < transactions.len() && 0 <= j < transactions[i].outputs.len()
            && addresses.contains((#[trigger] transactions[i].outputs[j]).receiver)
            ==> transactions[i].transaction_id is Some
}

proof fn lemma_identified(transactions: Seq<TransactionView>, addresses: Set<Public>)
    ensures
        identified(transactions, addresses) <==> deposits_carry_ids(transactions, addresses),
{
    if identified(transactions, addresses) {
        assert forall|i: int, j: int|
            0 <= i < transactions.len() && 0 <= j < transactions[i].outputs.len()
                && addresses.contains(
                (#[trigger] transactions[i].outputs[j]).receiver,
            ) implies transactions[i].transaction_id is Some by {
            assert(pays_any(transactions[i], addresses));
        }
    }
    if deposits_carry_ids(transactions, addresses) {
        assert forall|i: int|
            0 <= i < transactions.len() && pays_any(
                #[trigger] transactions[i],
                addresses,
            ) implies transactions[i].transaction_id is Some by {
            let j = choose|j: int|
                0 <= j < transactions[i].outputs.len() && addresses.contains(
                    #[trigger] transactions[i].outputs[j].receiver,
                );
            assert(addresses.contains(transactions[i].outputs[j].receiver));
        }
    }
}

/// Exactly these events are accepted: every expiry; a transaction unless it lacks its id and has
/// an output to a listened address; a block unless such a transaction is in it or in the block
/// that it confirms, or a block that it orphans lacks its hash.
pub proof fn law_accepted_deposit_events(
    ledger: DepositLedger,
    block: BlockView,
    transaction: TransactionView,
    expired: TransactionId,
    confirmation_count: nat,
    n: int,
)
    requires
        forks_at(ledger.queue, block.previous_block, n),
    ensures
        ledger.accepts(
            ChainEventView::TransactionExpiration { transaction: expired },
            confirmation_count,
        ),
        ledger.accepts(ChainEventView::Transaction { transaction }, confirmation_count) <==> (
        forall|j: int|
            0 <= j < transaction.outputs.len() && ledger.addresses.contains(
                (#[trigger] transaction.outputs[j]).receiver,
            ) ==> transaction.transaction_id is Some),
        ledger.accepts(ChainEventView::Block { block }, confirmation_count) <==> {
            &&& deposits_carry_ids(block.transactions, ledger.addresses)
            &&& forall|b: int|
                n <= b < ledger.queue.len() ==> (#[trigger] ledger.queue[b]).hash is Some
            &&& n + 1 > confirmation_count ==> deposits_carry_ids(
                oldest_of(ledger.queue, n, block).transactions,
                ledger.addresses,
            )
        },
{
    let one = seq![transaction];
    law_queue_after_a_block(ledger.queue, block, confirmation_count, n);
    lemma_identified(block.transactions, ledger.addresses);
    lemma_identified(oldest_of(ledger.queue, n, block).transactions, ledger.addresses);
    lemma_identified(one, ledger.addresses);
    assert(one[0] == transaction);
    if forall|j: int|
        0 <= j < transaction.outputs.len() && ledger.addresses.contains(
            (#[trigger] transaction.outputs[j]).receiver,
        ) ==> transaction.transaction_id is Some {
        assert forall|i: int, j: int|
            0 <= i < one.len() && 0 <= j < one[i].outputs.len() && ledger.addresses.contains(
                (#[trigger] one[i].outputs[j]).receiver,
            ) implies one[i].transaction_id is Some by {
            assert(one[i].outputs[j] == transaction.outputs[j]);
        }
    }
    if deposits_carry_ids(one, ledger.addresses) {
        assert forall|j: int|
            0 <= j < transaction.outputs.len() && ledger.addresses.contains(
                (#[trigger] transaction.outputs[j]).receiver,
            ) implies transaction.transaction_id is Some by {
            assert(one[0].outputs[j] == transaction.outputs[j]);
        }
    }
}

} // verus!
