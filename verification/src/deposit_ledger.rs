//! What the deposit processor knows, and how each event changes it.
use crate::chain::{
    last_payment, law_last_payment, law_newest_paying_id, newest_paying_id, payments, BlockView,
    ChainEventView, TransactionOutput, TransactionView,
};
use crate::confirmation_queue::{
    advanced, advanced_by_all, confirmed, confirmed_meanwhile, grown,
    law_confirmed_after_enough_blocks, law_extension_orphans_nothing, law_queue_stays_linked,
    lemma_kept, lemma_recent_blocks, linked, orphans, orphans_hashed, standing,
};
use crate::deposit_payment_processor::DepositStatus;
use crate::ids::{Public, TransactionId};
use crate::seq_lemmas::{lemma_add_member, lemma_filter_member, lemma_push_member};
use vstd::prelude::*;

verus! {

/// How far a deposit has come on its way to being confirmed.
#[derive(Clone, Copy, PartialEq, Eq, Structural, Debug)]
pub enum DepositStage {
    Pending,
    Confirming,
    Confirmed,
}

impl DepositStage {
    /// The status of an address whose deposit by `transaction` has come this far.
    pub open spec fn status_spec(self, transaction: TransactionId) -> DepositStatus {
        match self {
            DepositStage::Pending => DepositStatus::Pending { transaction },
            DepositStage::Confirming => DepositStatus::Confirming { transaction },
            DepositStage::Confirmed => DepositStatus::Confirmed { transaction },
        }
    }

    /// The status of an address whose deposit by `transaction` has come this far.
    pub fn status(&self, transaction: TransactionId) -> (status: DepositStatus)
        ensures
            status == self.status_spec(transaction),
    {
        match self {
            DepositStage::Pending => DepositStatus::Pending { transaction },
            DepositStage::Confirming => DepositStatus::Confirming { transaction },
            DepositStage::Confirmed => DepositStatus::Confirmed { transaction },
        }
    }
}

/// The addresses that are listened to, the statuses of those that have one, and the blocks that
/// wait for confirmations, oldest first.
#[verifier::ext_equal]
pub struct DepositLedger {
    pub addresses: Set<Public>,
    pub statuses: Map<Public, DepositStatus>,
    pub queue: Seq<BlockView>,
}

/// The statuses after `transactions` have brought the deposits they make to `stage`. An address
/// that is paid more than once keeps the last transaction.
pub open spec fn recorded(
    statuses: Map<Public, DepositStatus>,
    addresses: Set<Public>,
    transactions: Seq<TransactionView>,
    stage: DepositStage,
) -> Map<Public, DepositStatus> {
    let paid = |a: Public| addresses.contains(a) && last_payment(transactions, a) is Some;
    Map::new(
        |a: Public| statuses.contains_key(a) || paid(a),
        |a: Public|
            if paid(a) {
                stage.status_spec(last_payment(transactions, a)->0.transaction_id->0)
            } else {
                statuses[a]
            },
    )
}

/// Whether `status` speaks of a deposit to `address` that is confirming by a transaction of one
/// of `blocks`.
pub open spec fn confirms_in(
    status: DepositStatus,
    blocks: Seq<BlockView>,
    address: Public,
) -> bool {
    status matches DepositStatus::Confirming { transaction } && exists|i: int|
        0 <= i < blocks.len() && #[trigger] blocks[i].pays_by(transaction, address)
}

/// The statuses after the blocks of `orphaned` have left the chain, of which those of `standing`
/// remain. A deposit that is confirming by an orphaned transaction gives way to the newest one to
/// the same address in the blocks that remain, or is forgotten if they hold none. A status that
/// speaks of another transaction stays.
pub open spec fn reverted(
    statuses: Map<Public, DepositStatus>,
    addresses: Set<Public>,
    orphaned: Seq<BlockView>,
    standing: Seq<BlockView>,
) -> Map<Public, DepositStatus> {
    let lost = |a: Public| addresses.contains(a) && confirms_in(statuses[a], orphaned, a);
    Map::new(
        |a: Public|
            statuses.contains_key(a) && (lost(a) ==> newest_paying_id(standing, a) is Some),
        |a: Public|
            if lost(a) {
                DepositStatus::Confirming { transaction: newest_paying_id(standing, a)->0 }
            } else {
                statuses[a]
            },
    )
}

/// The statuses after `transaction` has expired: the deposits that wait on it are expired too.
pub open spec fn expired(
    statuses: Map<Public, DepositStatus>,
    transaction: TransactionId,
) -> Map<Public, DepositStatus> {
    Map::new(
        |a: Public| statuses.contains_key(a),
        |a: Public|
            if statuses[a] == (DepositStatus::Pending { transaction }) {
                DepositStatus::Expired { transaction }
            } else {
                statuses[a]
            },
    )
}

/// Whether `transaction` pays one of `addresses`.
pub open spec fn pays_any(transaction: TransactionView, addresses: Set<Public>) -> bool {
    exists|i: int|
        0 <= i < transaction.outputs.len() && addresses.contains(
            #[trigger] transaction.outputs[i].receiver,
        )
}

/// Whether every transaction that pays one of `addresses` carries its id.
pub open spec fn identified(
    transactions: Seq<TransactionView>,
    addresses: Set<Public>,
) -> bool {
    forall|i: int|
        0 <= i < transactions.len() && pays_any(#[trigger] transactions[i], addresses)
            ==> transactions[i].transaction_id is Some
}

impl DepositLedger {
    /// Nothing is listened to and nothing was seen.
    pub open spec fn empty() -> Self {
        DepositLedger { addresses: Set::empty(), statuses: Map::empty(), queue: Seq::empty() }
    }

    /// Only addresses that are listened to have a status, and each queued block stands on the one
    /// before it.
    pub open spec fn wf(self) -> bool {
        &&& forall|a: Public| #[trigger]
            self.statuses.contains_key(a) ==> self.addresses.contains(a)
        &&& linked(self.queue)
    }

    /// The status that is reported of `address`.
    pub open spec fn status(self, address: Public) -> DepositStatus {
        if self.statuses.contains_key(address) {
            self.statuses[address]
        } else {
            DepositStatus::NotSeen
        }
    }

    /// Listen to `address`, as one that nothing was sent to yet.
    pub open spec fn add(self, address: Public) -> Self {
        DepositLedger {
            addresses: self.addresses.insert(address),
            statuses: self.statuses.insert(address, DepositStatus::NotSeen),
            queue: self.queue,
        }
    }

    /// Stop listening to `address`.
    pub open spec fn remove(self, address: Public) -> Self {
        DepositLedger {
            addresses: self.addresses.remove(address),
            statuses: self.statuses.remove(address),
            queue: self.queue,
        }
    }

    /// The statuses once the deposits of the blocks that the arriving `block` orphans are
    /// reverted and then those of `block` itself are confirming.
    pub open spec fn settled(self, block: BlockView) -> Map<Public, DepositStatus> {
        recorded(
            reverted(
                self.statuses,
                self.addresses,
                orphans(self.queue, block),
                standing(self.queue, block),
            ),
            self.addresses,
            block.transactions,
            DepositStage::Confirming,
        )
    }

    /// `block` arrived.
    pub open spec fn on_block(self, block: BlockView, confirmation_count: nat) -> Self {
        DepositLedger {
            addresses: self.addresses,
            statuses: match confirmed(self.queue, block, confirmation_count) {
                Some(deep) => recorded(
                    self.settled(block),
                    self.addresses,
                    deep.transactions,
                    DepositStage::Confirmed,
                ),
                None => self.settled(block),
            },
            queue: advanced(self.queue, block, confirmation_count),
        }
    }

    /// All of `blocks` arrived, in order.
    pub open spec fn on_blocks(self, blocks: Seq<BlockView>, confirmation_count: nat) -> Self
        decreases blocks.len(),
    {
        if blocks.len() == 0 {
            self
        } else {
            self.on_blocks(blocks.drop_last(), confirmation_count).on_block(
                blocks.last(),
                confirmation_count,
            )
        }
    }

    /// `transaction` entered the mempool.
    pub open spec fn on_transaction(self, transaction: TransactionView) -> Self {
        DepositLedger {
            statuses: recorded(
                self.statuses,
                self.addresses,
                seq![transaction],
                DepositStage::Pending,
            ),
            ..self
        }
    }

    /// `transaction` expired in the mempool.
    pub open spec fn on_expiration(self, transaction: TransactionId) -> Self {
        DepositLedger { statuses: expired(self.statuses, transaction), ..self }
    }

    /// `event` happened.
    pub open spec fn on_event(self, event: ChainEventView, confirmation_count: nat) -> Self {
        match event {
            ChainEventView::Block { block } => self.on_block(block, confirmation_count),
            ChainEventView::Transaction { transaction } => self.on_transaction(transaction),
            ChainEventView::TransactionExpiration { transaction } => self.on_expiration(
                transaction,
            ),
        }
    }

    /// Whether a payment goes to an address that is listened to.
    pub open spec fn listens(self) -> spec_fn((Public, TransactionView)) -> bool {
        |p: (Public, TransactionView)| self.addresses.contains(p.0)
    }

    /// The deposits that `event` confirms, each with the transaction that makes it, in the order
    /// of the outputs of the confirmed block.
    pub open spec fn confirmations(
        self,
        event: ChainEventView,
        confirmation_count: nat,
    ) -> Seq<(Public, TransactionView)> {
        match event {
            ChainEventView::Block { block } => match confirmed(
                self.queue,
                block,
                confirmation_count,
            ) {
                Some(deep) => payments(deep.transactions).filter(self.listens()),
                None => Seq::empty(),
            },
            _ => Seq::empty(),
        }
    }

    /// Whether `event` carries every hash and id that handling it looks at.
    pub open spec fn accepts(self, event: ChainEventView, confirmation_count: nat) -> bool {
        match event {
            ChainEventView::Block { block } => {
                &&& identified(block.transactions, self.addresses)
                &&& orphans_hashed(self.queue, block.previous_block)
                &&& confirmed(self.queue, block, confirmation_count) matches Some(deep)
                    ==> identified(deep.transactions, self.addresses)
            },
            ChainEventView::Transaction { transaction } => identified(
                seq![transaction],
                self.addresses,
            ),
            ChainEventView::TransactionExpiration { .. } => true,
        }
    }
}

/// Whatever happens, only addresses that are listened to have a status, and the queued blocks
/// stay linked.
pub proof fn law_events_keep_ledger_wf(
    ledger: DepositLedger,
    event: ChainEventView,
    confirmation_count: nat,
)
    requires
        ledger.wf(),
    ensures
        ledger.on_event(event, confirmation_count).wf(),
        ledger.on_event(event, confirmation_count).addresses == ledger.addresses,
{
    if let ChainEventView::Block { block } = event {
        law_queue_stays_linked(ledger.queue, block, confirmation_count);
    }
}

/// An address that is not listened to is never reported as seen.
pub proof fn law_unlistened_address_is_not_seen(ledger: DepositLedger, address: Public)
    requires
        ledger.wf(),
        !ledger.addresses.contains(address),
    ensures
        ledger.status(address) == DepositStatus::NotSeen,
{
}

/// An address that has just been added is not seen, and no other address is affected.
pub proof fn law_added_address_is_not_seen(ledger: DepositLedger, address: Public, other: Public)
    ensures
        ledger.add(address).addresses.contains(address),
        ledger.add(address).status(address) == DepositStatus::NotSeen,
        other != address ==> ledger.add(address).status(other) == ledger.status(other)
            && ledger.add(address).addresses.contains(other) == ledger.addresses.contains(other),
{
}

/// An address that has just been removed is not seen, and no other address is affected.
pub proof fn law_removed_address_is_not_seen(ledger: DepositLedger, address: Public, other: Public)
    ensures
        !ledger.remove(address).addresses.contains(address),
        ledger.remove(address).status(address) == DepositStatus::NotSeen,
        other != address ==> ledger.remove(address).status(other) == ledger.status(other)
            && ledger.remove(address).addresses.contains(other) == ledger.addresses.contains(other),
{
}

/// Removing an address undoes adding it.
pub proof fn law_remove_undoes_add(ledger: DepositLedger, address: Public)
    requires
        ledger.wf(),
        !ledger.addresses.contains(address),
    ensures
        ledger.add(address).remove(address) == ledger,
{
    assert(ledger.add(address).remove(address) =~= ledger);
}

proof fn lemma_block_pays(block: BlockView, address: Public)
    ensures
        block.pays(address) <==> last_payment(block.transactions, address) is Some,
{
    law_last_payment(block.transactions, address);
}

/// What a block does to the status of an address. An address that is not listened to keeps its
/// status. Otherwise the block that gets enough confirmations decides if it pays the address, else
/// the arriving block if it does. If neither pays it, a deposit that was confirming by a
/// transaction of an orphaned block gives way to the newest one in the blocks that the arriving
/// block stands on, and is not seen if there is none. Every other status stays.
pub proof fn law_status_after_block(
    ledger: DepositLedger,
    block: BlockView,
    confirmation_count: nat,
    address: Public,
)
    ensures
        ({
            let after = ledger.on_block(block, confirmation_count).status(address);
            let deep = confirmed(ledger.queue, block, confirmation_count);
            if !ledger.addresses.contains(address) {
                after == ledger.status(address)
            } else if deep is Some && deep->0.pays(address) {
                after == (DepositStatus::Confirmed {
                    transaction: last_payment(
                        deep->0.transactions,
                        address,
                    )->0.transaction_id->0,
                })
            } else if block.pays(address) {
                after == (DepositStatus::Confirming {
                    transaction: last_payment(block.transactions, address)->0.transaction_id->0,
                })
            } else if confirms_in(ledger.status(address), orphans(ledger.queue, block), address) {
                after == match newest_paying_id(standing(ledger.queue, block), address) {
                    Some(transaction) => DepositStatus::Confirming { transaction },
                    None => DepositStatus::NotSeen,
                }
            } else {
                after == ledger.status(address)
            }
        }),
{
    lemma_block_pays(block, address);
    if let Some(deep) = confirmed(ledger.queue, block, confirmation_count) {
        lemma_block_pays(deep, address);
    }
}

/// What a transaction that enters the mempool does to the status of an address: it is pending if
/// it is listened to and paid, and stays as it is otherwise.
pub proof fn law_status_after_transaction(
    ledger: DepositLedger,
    transaction: TransactionView,
    address: Public,
)
    ensures
        ledger.on_transaction(transaction).status(address) == if ledger.addresses.contains(address)
            && transaction.pays(address) {
            DepositStatus::Pending { transaction: transaction.transaction_id->0 }
        } else {
            ledger.status(address)
        },
{
    let one = seq![transaction];
    assert(one.last() == transaction);
    assert(one.drop_last() =~= Seq::<TransactionView>::empty());
    assert(last_payment(one.drop_last(), address) is None);
}

/// What an expiry does to the status of an address: only one that waits on the expired
/// transaction changes, and it is expired.
pub proof fn law_status_after_expiration(
    ledger: DepositLedger,
    transaction: TransactionId,
    address: Public,
)
    ensures
        ledger.on_expiration(transaction).status(address) == if ledger.status(address) == (
        DepositStatus::Pending { transaction }) {
            DepositStatus::Expired { transaction }
        } else {
            ledger.status(address)
        },
{
}

proof fn lemma_payments(
    transactions: Seq<TransactionView>,
    address: Public,
    transaction: TransactionView,
)
    ensures
        payments(transactions).contains((address, transaction)) <==> transactions.contains(
            transaction,
        ) && transaction.pays(address),
    decreases transactions.len(),
{
    if transactions.len() > 0 {
        let rest = transactions.drop_last();
        let last = transactions.last();
        let own = last.outputs.map_values(|o: TransactionOutput| (o.receiver, last));
        let payment = (address, transaction);
        lemma_payments(rest, address, transaction);
        lemma_push_member(rest, last, transaction);
        assert(rest.push(last) =~= transactions);
        lemma_add_member(payments(rest), own, payment);
        assert(own.contains(payment) <==> last == transaction && transaction.pays(address)) by {
            if own.contains(payment) {
                let i = choose|i: int| 0 <= i < own.len() && own[i] == payment;
                assert(transaction.outputs[i].receiver == address);
            }
            if last == transaction && transaction.pays(address) {
                let i = choose|i: int|
                    0 <= i < transaction.outputs.len()
                        && #[trigger] transaction.outputs[i].receiver == address;
                assert(own[i] == payment);
            }
        }
    }
}

/// A deposit is reported exactly when the block that makes it gets enough confirmations and its
/// address is listened to; the address is confirmed from then on. No other event reports one.
pub proof fn law_reported_deposits(
    ledger: DepositLedger,
    event: ChainEventView,
    confirmation_count: nat,
    address: Public,
    transaction: TransactionView,
)
    ensures
        ledger.confirmations(event, confirmation_count).contains((address, transaction)) <==> {
            &&& event matches ChainEventView::Block { block }
            &&& confirmed(ledger.queue, block, confirmation_count) matches Some(deep)
            &&& deep.transactions.contains(transaction)
            &&& transaction.pays(address)
            &&& ledger.addresses.contains(address)
        },
        ledger.confirmations(event, confirmation_count).contains((address, transaction))
            ==> ledger.on_event(event, confirmation_count).status(address) is Confirmed,
{
    if let ChainEventView::Block { block } = event {
        if let Some(deep) = confirmed(ledger.queue, block, confirmation_count) {
            let all = payments(deep.transactions);
            let payment = (address, transaction);
            lemma_payments(deep.transactions, address, transaction);
            lemma_filter_member(all, ledger.listens(), payment);
            if all.filter(ledger.listens()).contains(payment) {
                let j = choose|j: int| 0 <= j < deep.transactions.len() && deep.transactions[j]
                    == transaction;
                assert(deep.transactions[j].pays(address));
                lemma_block_pays(deep, address);
            }
        }
    }
}

proof fn lemma_on_blocks(ledger: DepositLedger, blocks: Seq<BlockView>, confirmation_count: nat)
    ensures
        ledger.on_blocks(blocks, confirmation_count).addresses == ledger.addresses,
        ledger.on_blocks(blocks, confirmation_count).queue == advanced_by_all(
            ledger.queue,
            blocks,
            confirmation_count,
        ),
    decreases blocks.len(),
{
    if blocks.len() > 0 {
        lemma_on_blocks(ledger, blocks.drop_last(), confirmation_count);
    }
}

proof fn lemma_confirming_meanwhile(
    ledger: DepositLedger,
    blocks: Seq<BlockView>,
    confirmation_count: nat,
    address: Public,
    k: nat,
)
    requires
        ledger.queue.len() <= confirmation_count,
        linked(blocks),
        1 <= k <= blocks.len(),
        k <= confirmation_count,
        ledger.addresses.contains(address),
        blocks[0].pays(address),
        forall|i: int| 1 <= i < blocks.len() ==> !(#[trigger] blocks[i]).pays(address),
        forall|i: int|
            0 <= i < confirmed_meanwhile(ledger.queue, blocks[0], k, confirmation_count)
                ==> !(#[trigger] ledger.queue[i]).pays(address),
    ensures
        ledger.on_blocks(blocks.take(k as int), confirmation_count).status(address) == (
        DepositStatus::Confirming {
            transaction: last_payment(blocks[0].transactions, address)->0.transaction_id->0,
        }),
    decreases k,
{
    let upto = blocks.take(k as int);
    let block = blocks[k - 1];
    assert(upto.drop_last() =~= blocks.take(k - 1));
    assert(upto.last() == block);
    let before = ledger.on_blocks(blocks.take(k - 1), confirmation_count);
    lemma_on_blocks(ledger, blocks.take(k - 1), confirmation_count);
    lemma_kept(ledger.queue, blocks[0].previous_block);
    law_status_after_block(before, block, confirmation_count, address);
    if k == 1 {
        assert(before == ledger);
    } else {
        lemma_confirming_meanwhile(ledger, blocks, confirmation_count, address, (k - 1) as nat);
        lemma_recent_blocks(ledger.queue, blocks, confirmation_count, (k - 1) as nat);
        law_extension_orphans_nothing(before.queue, block);
    }
    if let Some(deep) = confirmed(before.queue, block, confirmation_count) {
        let gone = confirmed_meanwhile(ledger.queue, blocks[0], k, confirmation_count);
        assert(deep == ledger.queue[gone - 1]);
    }
}

/// While the blocks on top of its block are fewer than the confirmation count, the address of a
/// deposit is confirming, whatever blocks the run orphans, unless another block of the run pays it
/// too, or one that the run confirms meanwhile.
pub proof fn law_deposit_is_confirming_meanwhile(
    ledger: DepositLedger,
    blocks: Seq<BlockView>,
    confirmation_count: nat,
    address: Public,
)
    requires
        ledger.queue.len() <= confirmation_count,
        linked(blocks),
        1 <= blocks.len() <= confirmation_count,
        ledger.addresses.contains(address),
        blocks[0].pays(address),
        forall|i: int| 1 <= i < blocks.len() ==> !(#[trigger] blocks[i]).pays(address),
        forall|i: int|
            0 <= i < confirmed_meanwhile(
                ledger.queue,
                blocks[0],
                blocks.len(),
                confirmation_count,
            ) ==> !(#[trigger] ledger.queue[i]).pays(address),
    ensures
        ledger.on_blocks(blocks, confirmation_count).status(address) == (
        DepositStatus::Confirming {
            transaction: last_payment(blocks[0].transactions, address)->0.transaction_id->0,
        }),
{
    lemma_confirming_meanwhile(ledger, blocks, confirmation_count, address, blocks.len());
    assert(blocks.take(blocks.len() as int) =~= blocks);
}

/// A deposit in the first of a run of linked blocks, one more than the confirmation count, is
/// reported when the last of them arrives, and its address is confirmed then.
pub proof fn law_deposit_is_confirmed_after_enough_blocks(
    ledger: DepositLedger,
    blocks: Seq<BlockView>,
    confirmation_count: nat,
    address: Public,
    transaction: TransactionView,
)
    requires
        ledger.queue.len() <= confirmation_count,
        blocks.len() == confirmation_count + 1,
        linked(blocks),
        ledger.addresses.contains(address),
        blocks[0].transactions.contains(transaction),
        transaction.pays(address),
    ensures
        ({
            let before = ledger.on_blocks(blocks.drop_last(), confirmation_count);
            &&& before.confirmations(
                ChainEventView::Block { block: blocks.last() },
                confirmation_count,
            ).contains((address, transaction))
            &&& ledger.on_blocks(blocks, confirmation_count).status(address) == (
            DepositStatus::Confirmed {
                transaction: last_payment(blocks[0].transactions, address)->0.transaction_id->0,
            })
        }),
{
    let before = ledger.on_blocks(blocks.drop_last(), confirmation_count);
    lemma_on_blocks(ledger, blocks.drop_last(), confirmation_count);
    law_confirmed_after_enough_blocks(ledger.queue, blocks, confirmation_count);
    let event = ChainEventView::Block { block: blocks.last() };
    law_reported_deposits(before, event, confirmation_count, address, transaction);
    law_status_after_block(before, blocks.last(), confirmation_count, address);
    let i = choose|i: int| 0 <= i < blocks[0].transactions.len() && blocks[0].transactions[i]
        == transaction;
    assert(blocks[0].transactions[i].pays(address));
}

/// The transaction that a status speaks of, if it speaks of one.
pub open spec fn status_transaction(status: DepositStatus) -> Option<TransactionId> {
    match status {
        DepositStatus::Pending { transaction } => Some(transaction),
        DepositStatus::Confirming { transaction } => Some(transaction),
        DepositStatus::Expired { transaction } => Some(transaction),
        DepositStatus::NotSeen => None,
        DepositStatus::Confirmed { transaction } => Some(transaction),
    }
}

/// Whether `event` brought a transaction with the given id that pays `address`.
pub open spec fn brings(event: ChainEventView, id: TransactionId, address: Public) -> bool {
    match event {
        ChainEventView::Block { block } => block.pays_by(id, address),
        ChainEventView::Transaction { transaction } => transaction.pays(address)
            && transaction.transaction_id == Some(id),
        ChainEventView::TransactionExpiration { .. } => false,
    }
}

/// Whether some event of `history` brought a transaction with the given id that pays `address`.
pub open spec fn brought(
    history: Seq<ChainEventView>,
    id: TransactionId,
    address: Public,
) -> bool {
    exists|i: int| 0 <= i < history.len() && brings(#[trigger] history[i], id, address)
}

/// Whether every transaction that a status speaks of was brought by `history` as a payment to its
/// address, and every queued block was brought by it too.
pub open spec fn backed(ledger: DepositLedger, history: Seq<ChainEventView>) -> bool {
    &&& forall|a: Public|
        #![trigger ledger.status(a)]
        status_transaction(ledger.status(a)) matches Some(id) ==> brought(history, id, a)
    &&& forall|i: int|
        0 <= i < ledger.queue.len() ==> history.contains(
            ChainEventView::Block { block: #[trigger] ledger.queue[i] },
        )
}

proof fn lemma_block_brings(
    history: Seq<ChainEventView>,
    block: BlockView,
    addresses: Set<Public>,
    address: Public,
)
    requires
        history.contains(ChainEventView::Block { block }),
        identified(block.transactions, addresses),
        addresses.contains(address),
        block.pays(address),
    ensures
        last_payment(block.transactions, address) matches Some(t) && t.transaction_id is Some
            && brought(history, t.transaction_id->0, address),
{
    let txs = block.transactions;
    law_last_payment(txs, address);
    let t = last_payment(txs, address)->0;
    let i = choose|i: int| 0 <= i < txs.len() && txs[i] == t;
    let j = choose|j: int|
        0 <= j < t.outputs.len() && #[trigger] t.outputs[j].receiver == address;
    assert(addresses.contains(t.outputs[j].receiver));
    assert(pays_any(txs[i], addresses));
    assert(txs[i].pays(address));
    assert(block.pays_by(t.transaction_id->0, address));
    let k = choose|k: int| 0 <= k < history.len() && history[k] == (ChainEventView::Block {
        block,
    });
    assert(brings(history[k], t.transaction_id->0, address));
}

/// A status never speaks of a transaction that was not brought by an event as a payment to the
/// address: this holds of the empty ledger, and adding an address, removing one and every accepted
/// event keep it.
pub proof fn law_statuses_are_backed(
    ledger: DepositLedger,
    history: Seq<ChainEventView>,
    event: ChainEventView,
    confirmation_count: nat,
    address: Public,
)
    requires
        backed(ledger, history),
        ledger.accepts(event, confirmation_count),
    ensures
        backed(DepositLedger::empty(), Seq::empty()),
        backed(ledger.add(address), history),
        backed(ledger.remove(address), history),
        backed(ledger.on_event(event, confirmation_count), history.push(event)),
{
    assert forall|a: Public| #[trigger] ledger.add(address).status(a) == (if a == address {
        DepositStatus::NotSeen
    } else {
        ledger.status(a)
    }) by {}
    assert forall|a: Public| #[trigger] ledger.remove(address).status(a) == (if a == address {
        DepositStatus::NotSeen
    } else {
        ledger.status(a)
    }) by {}
    let more = history.push(event);
    let after = ledger.on_event(event, confirmation_count);
    assert(more[history.len() as int] == event);
    assert forall|id: TransactionId, a: Public| #[trigger] brought(history, id, a) implies brought(
        more,
        id,
        a,
    ) by {
        let i = choose|i: int| 0 <= i < history.len() && brings(#[trigger] history[i], id, a);
        assert(brings(more[i], id, a));
    }
    assert forall|i: int| 0 <= i < ledger.queue.len() implies more.contains(
        ChainEventView::Block { block: #[trigger] ledger.queue[i] },
    ) by {
        lemma_push_member(history, event, ChainEventView::Block { block: ledger.queue[i] });
    }
    match event {
        ChainEventView::Block { block } => {
            let all = grown(ledger.queue, block);
            lemma_kept(ledger.queue, block.previous_block);
            lemma_push_member(history, event, event);
            assert forall|i: int| 0 <= i < all.len() implies more.contains(
                ChainEventView::Block { block: #[trigger] all[i] },
            ) by {
                if i < all.len() - 1 {
                    assert(all[i] == ledger.queue[i]);
                }
            }
            if all.len() > confirmation_count {
                assert forall|i: int| 0 <= i < after.queue.len() implies more.contains(
                    ChainEventView::Block { block: #[trigger] after.queue[i] },
                ) by {
                    assert(after.queue[i] == all[i + 1]);
                }
            }
            assert forall|a: Public|
                #![trigger after.status(a)]
                status_transaction(after.status(a)) matches Some(id) ==> brought(more, id, a) by {
                law_status_after_block(ledger, block, confirmation_count, a);
                if ledger.addresses.contains(a) {
                    if let Some(deep) = confirmed(ledger.queue, block, confirmation_count) {
                        if deep.pays(a) {
                            assert(deep == all[0]);
                            lemma_block_brings(more, deep, ledger.addresses, a);
                        }
                    }
                    if block.pays(a) {
                        lemma_block_brings(more, block, ledger.addresses, a);
                    }
                    let rest = standing(ledger.queue, block);
                    law_newest_paying_id(rest, a);
                    if let Some(id) = newest_paying_id(rest, a) {
                        let i = choose|i: int|
                            0 <= i < rest.len() && #[trigger] rest[i].pays_by(id, a);
                        assert(rest[i] == ledger.queue[i]);
                        let found = ChainEventView::Block { block: ledger.queue[i] };
                        let k = choose|k: int| 0 <= k < more.len() && more[k] == found;
                        assert(brings(more[k], id, a));
                    }
                }
                assert(status_transaction(ledger.status(a)) matches Some(id) ==> brought(
                    history,
                    id,
                    a,
                ));
            }
        },
        ChainEventView::Transaction { transaction } => {
            assert forall|a: Public|
                #![trigger after.status(a)]
                status_transaction(after.status(a)) matches Some(id) ==> brought(more, id, a) by {
                law_status_after_transaction(ledger, transaction, a);
                if ledger.addresses.contains(a) && transaction.pays(a) {
                    let j = choose|j: int|
                        0 <= j < transaction.outputs.len()
                            && #[trigger] transaction.outputs[j].receiver == a;
                    assert(ledger.addresses.contains(transaction.outputs[j].receiver));
                    assert(pays_any(seq![transaction][0], ledger.addresses));
                    assert(brings(
                        more[history.len() as int],
                        transaction.transaction_id->0,
                        a,
                    ));
                }
                assert(status_transaction(ledger.status(a)) matches Some(id) ==> brought(
                    history,
                    id,
                    a,
                ));
            }
        },
        ChainEventView::TransactionExpiration { transaction } => {
            assert forall|a: Public|
                #![trigger after.status(a)]
                status_transaction(after.status(a)) matches Some(id) ==> brought(more, id, a) by {
                law_status_after_expiration(ledger, transaction, a);
                assert(status_transaction(ledger.status(a)) matches Some(id) ==> brought(
                    history,
                    id,
                    a,
                ));
            }
        },
    }
}

/// Whether the block has its hash and each of its transactions its id.
pub open spec fn complete(block: BlockView) -> bool {
    &&& block.hash is Some
    &&& forall|i: int|
        0 <= i < block.transactions.len() ==> (
        #[trigger] block.transactions[i]).transaction_id is Some
}

/// As long as every block is complete and every transaction has its id, every event is accepted.
pub proof fn law_complete_events_are_accepted(
    ledger: DepositLedger,
    event: ChainEventView,
    confirmation_count: nat,
)
    requires
        forall|i: int| 0 <= i < ledger.queue.len() ==> complete(#[trigger] ledger.queue[i]),
        event matches ChainEventView::Block { block } ==> complete(block),
        event matches ChainEventView::Transaction { transaction }
            ==> transaction.transaction_id is Some,
    ensures
        ledger.accepts(event, confirmation_count),
        ({
            let after = ledger.on_event(event, confirmation_count).queue;
            forall|i: int| 0 <= i < after.len() ==> complete(#[trigger] after[i])
        }),
{
    if let ChainEventView::Block { block } = event {
        let all = grown(ledger.queue, block);
        lemma_kept(ledger.queue, block.previous_block);
        assert forall|i: int| 0 <= i < all.len() implies complete(#[trigger] all[i]) by {
            if i < all.len() - 1 {
                assert(all[i] == ledger.queue[i]);
            }
        }
        let after = advanced(ledger.queue, block, confirmation_count);
        if all.len() > confirmation_count {
            assert forall|i: int| 0 <= i < after.len() implies complete(#[trigger] after[i]) by {
                assert(after[i] == all[i + 1]);
            }
        }
    }
}

} // verus!
