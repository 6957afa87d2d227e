//! Handles incoming (deposit) payments.
use crate::chain::{
    last_payment, payments, transactions_view, Block, BlockView, ChainEvent, Transaction,
    TransactionOutput, TransactionView,
};
use crate::confirmation_queue::{grown, orphans, standing, ConfirmationQueue};
use crate::deposit_ledger::{
    confirms_in, expired, identified, law_events_keep_ledger_wf, pays_any, recorded, reverted,
    DepositLedger, DepositStage,
};
use crate::ids::{lemma_pair_order, Bytes32, Public, TransactionId};
use crate::seq_lemmas::{lemma_filter_push, lemma_push_member};
use std::collections::{BTreeMap, BTreeSet};
use vstd::prelude::*;

verus! {

broadcast use vstd::std_specs::btree::group_btree_axioms;

/// Status of any deposit address.
#[derive(Clone, Copy, PartialEq, Eq, Structural, Debug)]
pub enum DepositStatus {
    /// Waiting in the mempool.
    Pending { transaction: TransactionId },
    /// Added to an unconfirmed block.
    Confirming { transaction: TransactionId },
    /// Expired in the mempool.
    Expired { transaction: TransactionId },
    /// Not received by the node at all.
    NotSeen,
    /// Confirmed.
    Confirmed { transaction: TransactionId },
}

/// A deposit that has enough confirmations.
#[derive(PartialEq, Eq, Debug)]
pub struct DepositConfirmation {
    pub deposit_address: Public,
    pub transaction: Transaction,
}

impl View for DepositConfirmation {
    type V = (Public, TransactionView);

    open spec fn view(&self) -> (Public, TransactionView) {
        (self.deposit_address, self.transaction@)
    }
}

/// Handles all incoming deposits, addresses etc.
pub struct DepositPaymentProcessor {
    deposit_addresses: BTreeSet<(u128, u128)>,
    deposit_statuses: BTreeMap<(u128, u128), DepositStatus>,
    block_confirmation_queue: ConfirmationQueue,
}

impl View for DepositPaymentProcessor {
    type V = DepositLedger;

    closed spec fn view(&self) -> DepositLedger {
        DepositLedger {
            addresses: Set::new(
                |a: Public| self.deposit_addresses@.contains(a.bytes.key_spec()),
            ),
            statuses: Map::new(
                |a: Public| self.deposit_statuses@.contains_key(a.bytes.key_spec()),
                |a: Public| self.deposit_statuses@[a.bytes.key_spec()],
            ),
            queue: self.block_confirmation_queue@,
        }
    }
}

/// Whether one of the first `n` outputs of `transaction` goes to `address`.
spec fn pays_within(transaction: TransactionView, n: int, address: Public) -> bool {
    exists|i: int| 0 <= i < n && #[trigger] transaction.outputs[i].receiver == address
}

/// Whether two maps say the same of `address`.
spec fn agree_at(
    one: Map<Public, DepositStatus>,
    other: Map<Public, DepositStatus>,
    address: Public,
) -> bool {
    &&& one.contains_key(address) == other.contains_key(address)
    &&& one.contains_key(address) ==> one[address] == other[address]
}

proof fn lemma_recorded_push(
    statuses: Map<Public, DepositStatus>,
    addresses: Set<Public>,
    transactions: Seq<TransactionView>,
    transaction: TransactionView,
    stage: DepositStage,
)
    ensures
        recorded(
            recorded(statuses, addresses, transactions, stage),
            addresses,
            seq![transaction],
            stage,
        ) == recorded(statuses, addresses, transactions.push(transaction), stage),
{
    let more = transactions.push(transaction);
    let one = seq![transaction];
    assert(more.drop_last() =~= transactions);
    assert(one.drop_last() =~= Seq::<TransactionView>::empty());
    assert forall|a: Public| #[trigger]
        last_payment(more, a) == (if last_payment(one, a) is Some {
            last_payment(one, a)
        } else {
            last_payment(transactions, a)
        }) by {
        assert(last_payment(one.drop_last(), a) is None);
    }
    assert(recorded(recorded(statuses, addresses, transactions, stage), addresses, one, stage)
        =~= recorded(statuses, addresses, more, stage));
}

proof fn lemma_reverted_reverse(
    statuses: Map<Public, DepositStatus>,
    addresses: Set<Public>,
    orphaned: Seq<BlockView>,
    standing: Seq<BlockView>,
)
    ensures
        reverted(statuses, addresses, orphaned.reverse(), standing) == reverted(
            statuses,
            addresses,
            orphaned,
            standing,
        ),
{
    let back = orphaned.reverse();
    assert forall|status: DepositStatus, a: Public| #[trigger]
        confirms_in(status, back, a) <==> confirms_in(status, orphaned, a) by {
        if let DepositStatus::Confirming { transaction } = status {
            if confirms_in(status, orphaned, a) {
                let i = choose|i: int|
                    0 <= i < orphaned.len() && #[trigger] orphaned[i].pays_by(transaction, a);
                assert(back[orphaned.len() - 1 - i].pays_by(transaction, a));
            }
            if confirms_in(status, back, a) {
                let i = choose|i: int|
                    0 <= i < back.len() && #[trigger] back[i].pays_by(transaction, a);
                assert(orphaned[orphaned.len() - 1 - i].pays_by(transaction, a));
            }
        }
    }
    assert(reverted(statuses, addresses, back, standing) =~= reverted(
        statuses,
        addresses,
        orphaned,
        standing,
    ));
}

/// Whether `block` holds a transaction with the given id that pays `address`.
fn block_pays_by(block: &Block, id: &TransactionId, address: &Public) -> (pays: bool)
    ensures
        pays == block@.pays_by(*id, *address),
{
    for i in 0..block.transactions.len()
        invariant
            forall|k: int|
                0 <= k < i ==> !((#[trigger] block@.transactions[k]).pays(*address)
                    && block@.transactions[k].transaction_id == Some(*id)),
    {
        let transaction = &block.transactions[i];
        assert(block@.transactions[i as int] == transaction@);
        let named = match &transaction.transaction_id {
            Some(tx_id) => *tx_id == *id,
            None => false,
        };
        if named && transaction.pays(address) {
            assert(block@.transactions[i as int].pays(*address));
            return true;
        }
    }
    false
}

/// Whether `status` speaks of a deposit to `address` that is confirming by a transaction of one
/// of `blocks`.
fn is_confirming_in(status: &DepositStatus, blocks: &Vec<Block>, address: &Public) -> (
    confirming: bool)
    ensures
        confirming == confirms_in(*status, blocks@.map_values(|b: Block| b@), *address),
{
    let ghost all = blocks@.map_values(|b: Block| b@);
    if let DepositStatus::Confirming { transaction } = status {
        for i in 0..blocks.len()
            invariant
                all == blocks@.map_values(|b: Block| b@),
                *status == (DepositStatus::Confirming { transaction: *transaction }),
                forall|k: int|
                    0 <= k < i ==> !(#[trigger] all[k]).pays_by(*transaction, *address),
        {
            assert(all[i as int] == blocks@[i as int]@);
            if block_pays_by(&blocks[i], transaction, address) {
                assert(all[i as int].pays_by(status->Confirming_transaction, *address));
                return true;
            }
        }
    }
    false
}

impl DepositPaymentProcessor {
    /// A processor that listens to no address.
    pub fn new() -> (processor: Self)
        ensures
            processor@ == DepositLedger::empty(),
            processor@.wf(),
    {
        let processor = DepositPaymentProcessor {
            deposit_addresses: BTreeSet::new(),
            deposit_statuses: BTreeMap::new(),
            block_confirmation_queue: ConfirmationQueue::new(),
        };
        assert(processor@ =~= DepositLedger::empty());
        processor
    }

    /// Add a deposit address this processor cares about.
    pub fn add_deposit_address(&mut self, address: Public)
        ensures
            final(self)@ == old(self)@.add(address),
            old(self)@.wf() ==> final(self)@.wf(),
    {
        proof {
            lemma_pair_order();
        }
        self.deposit_addresses.insert(address.bytes.key());
        self.deposit_statuses.insert(address.bytes.key(), DepositStatus::NotSeen);
        assert(self@ =~= old(self)@.add(address));
    }

    /// Remove a deposit address this processor cares about.
    pub fn remove_deposit_address(&mut self, address: Public)
        ensures
            final(self)@ == old(self)@.remove(address),
            old(self)@.wf() ==> final(self)@.wf(),
    {
        proof {
            lemma_pair_order();
        }
        self.deposit_addresses.remove(&address.bytes.key());
        self.deposit_statuses.remove(&address.bytes.key());
        assert(self@ =~= old(self)@.remove(address));
    }

    /// Get the status of a deposit address this processor cares about.
    pub fn get_deposit_status(&self, address: Public) -> (status: DepositStatus)
        ensures
            status == self@.status(address),
    {
        proof {
            lemma_pair_order();
        }
        match self.deposit_statuses.get(&address.bytes.key()) {
            Some(status) => *status,
            None => DepositStatus::NotSeen,
        }
    }

    fn is_listening(&self, address: &Public) -> (listening: bool)
        ensures
            listening == self@.addresses.contains(*address),
    {
        proof {
            lemma_pair_order();
        }
        self.deposit_addresses.contains(&address.bytes.key())
    }

    fn set_status(&mut self, address: &Public, status: DepositStatus)
        ensures
            final(self)@ == (DepositLedger {
                statuses: old(self)@.statuses.insert(*address, status),
                ..old(self)@
            }),
    {
        proof {
            lemma_pair_order();
        }
        self.deposit_statuses.insert(address.bytes.key(), status);
        assert(self@ =~= (DepositLedger {
            statuses: old(self)@.statuses.insert(*address, status),
            ..old(self)@
        }));
    }

    fn clear_status(&mut self, address: &Public)
        ensures
            final(self)@ == (DepositLedger {
                statuses: old(self)@.statuses.remove(*address),
                ..old(self)@
            }),
    {
        proof {
            lemma_pair_order();
        }
        self.deposit_statuses.remove(&address.bytes.key());
        assert(self@ =~= (DepositLedger {
            statuses: old(self)@.statuses.remove(*address),
            ..old(self)@
        }));
    }

    /// Bring the deposits that `transaction` makes to `stage`.
    fn record(&mut self, transaction: &Transaction, stage: DepositStage)
        requires
            identified(seq![transaction@], old(self)@.addresses),
        ensures
            final(self)@ == (DepositLedger {
                statuses: recorded(
                    old(self)@.statuses,
                    old(self)@.addresses,
                    seq![transaction@],
                    stage,
                ),
                ..old(self)@
            }),
    {
        let ghost start = self@;
        let ghost tx = transaction@;
        for j in 0..transaction.outputs.len()
            invariant
                tx == transaction@,
                identified(seq![tx], start.addresses),
                self@.addresses == start.addresses,
                self@.queue == start.queue,
                forall|a: Public| #[trigger]
                    self@.statuses.contains_key(a) <==> start.statuses.contains_key(a) || (
                    start.addresses.contains(a) && pays_within(tx, j as int, a)),
                forall|a: Public| #[trigger]
                    self@.statuses.contains_key(a) ==> self@.statuses[a] == if (
                    start.addresses.contains(a) && pays_within(tx, j as int, a)) {
                        stage.status_spec(tx.transaction_id->0)
                    } else {
                        start.statuses[a]
                    },
        {
            let receiver = &transaction.outputs[j].receiver;
            assert forall|a: Public| #[trigger] pays_within(tx, j + 1, a) <==> pays_within(
                tx,
                j as int,
                a,
            ) || a == *receiver by {
                assert(tx.outputs[j as int].receiver == *receiver);
            }
            if self.is_listening(receiver) {
                assert(seq![tx][0] == tx);
                assert(pays_any(tx, start.addresses)) by {
                    assert(start.addresses.contains(tx.outputs[j as int].receiver));
                }
                if let Some(id) = transaction.transaction_id {
                    self.set_status(receiver, stage.status(id));
                }
            }
        }
        proof {
            let one = seq![tx];
            let after = recorded(start.statuses, start.addresses, one, stage);
            assert(one.last() == tx);
            assert(one.drop_last() =~= Seq::<TransactionView>::empty());
            assert forall|a: Public| #[trigger]
                last_payment(one, a) == (if pays_within(tx, tx.outputs.len() as int, a) {
                    Some(tx)
                } else {
                    None
                }) by {
                assert(last_payment(one.drop_last(), a) is None);
                assert(pays_within(tx, tx.outputs.len() as int, a) <==> tx.pays(a));
            }
            assert(self@.statuses =~= after);
        }
    }

    /// Bring the deposits that `transactions` make to `stage`.
    fn record_all(&mut self, transactions: &Vec<Transaction>, stage: DepositStage)
        requires
            identified(transactions_view(transactions@), old(self)@.addresses),
        ensures
            final(self)@ == (DepositLedger {
                statuses: recorded(
                    old(self)@.statuses,
                    old(self)@.addresses,
                    transactions_view(transactions@),
                    stage,
                ),
                ..old(self)@
            }),
    {
        let ghost start = self@;
        let ghost all = transactions_view(transactions@);
        assert(recorded(start.statuses, start.addresses, all.take(0), stage) =~= start.statuses);
        for i in 0..transactions.len()
            invariant
                all == transactions_view(transactions@),
                identified(all, start.addresses),
                self@.addresses == start.addresses,
                self@.queue == start.queue,
                self@.statuses == recorded(
                    start.statuses,
                    start.addresses,
                    all.take(i as int),
                    stage,
                ),
        {
            let transaction = &transactions[i];
            proof {
                assert(all[i as int] == transaction@);
                assert(seq![transaction@][0] == all[i as int]);
                lemma_recorded_push(
                    start.statuses,
                    start.addresses,
                    all.take(i as int),
                    transaction@,
                    stage,
                );
                assert(all.take(i + 1) =~= all.take(i as int).push(transaction@));
            }
            self.record(transaction, stage);
        }
        assert(all.take(all.len() as int) =~= all);
    }

    /// The addresses that have a status, in some order.
    fn known_addresses(&self) -> (known: Vec<Public>)
        ensures
            forall|a: Public| #[trigger] self@.statuses.contains_key(a) <==> known@.contains(a),
    {
        proof {
            lemma_pair_order();
        }
        let ghost all = vstd::std_specs::iter::IteratorSpec::remaining(
            &self.deposit_statuses.keys(),
        ).unref();
        let mut known: Vec<Public> = Vec::new();
        for key in iter: self.deposit_statuses.keys()
            invariant
                iter.seq().unref() == all,
                known@.len() == iter.index(),
                forall|i: int|
                    0 <= i < iter.index() ==> (#[trigger] known@[i]).bytes.key_spec() == all[i],
        {
            known.push(Public { bytes: Bytes32 { left: key.0, right: key.1 } });
        }
        assert forall|a: Public| #[trigger] self@.statuses.contains_key(a) <==> known@.contains(
            a,
        ) by {
            let k = a.bytes.key_spec();
            assert(all.to_set().contains(k) <==> all.contains(k));
            if all.contains(k) {
                let i = choose|i: int| 0 <= i < all.len() && all[i] == k;
                assert(known@[i] == a);
            }
            if known@.contains(a) {
                let i = choose|i: int| 0 <= i < known@.len() && known@[i] == a;
                assert(all[i] == k);
            }
        }
        known
    }

    /// Revert the deposits that are confirming in the `dropped` blocks to what the queued blocks
    /// tell of their addresses.
    fn revert(&mut self, dropped: &Vec<Block>)
        ensures
            final(self)@ == (DepositLedger {
                statuses: reverted(
                    old(self)@.statuses,
                    old(self)@.addresses,
                    dropped@.map_values(|b: Block| b@),
                    old(self)@.queue,
                ),
                ..old(self)@
            }),
    {
        let ghost start = self@;
        let ghost target = reverted(
            start.statuses,
            start.addresses,
            dropped@.map_values(|b: Block| b@),
            start.queue,
        );
        let known = self.known_addresses();
        for i in 0..known.len()
            invariant
                target == reverted(
                    start.statuses,
                    start.addresses,
                    dropped@.map_values(|b: Block| b@),
                    start.queue,
                ),
                self@.addresses == start.addresses,
                self@.queue == start.queue,
                forall|a: Public|
                    #![trigger self@.statuses.contains_key(a)]
                    if known@.take(i as int).contains(a) {
                        agree_at(self@.statuses, target, a)
                    } else {
                        agree_at(self@.statuses, start.statuses, a)
                    },
        {
            let address = known[i];
            let ghost before = self@;
            assert(known@.take(i + 1) =~= known@.take(i as int).push(address));
            let status = self.get_deposit_status(address);
            if self.is_listening(&address) && is_confirming_in(&status, dropped, &address) {
                match self.block_confirmation_queue.newest_paying_id(&address) {
                    Some(transaction) => {
                        self.set_status(&address, DepositStatus::Confirming { transaction });
                    },
                    None => {
                        self.clear_status(&address);
                    },
                }
            }
            assert forall|a: Public|
                #![trigger self@.statuses.contains_key(a)]
                if known@.take(i + 1).contains(a) {
                    agree_at(self@.statuses, target, a)
                } else {
                    agree_at(self@.statuses, start.statuses, a)
                } by {
                lemma_push_member(known@.take(i as int), address, a);
                assert(agree_at(before.statuses, self@.statuses, a) || a == address);
            }
        }
        proof {
            assert(known@.take(known@.len() as int) =~= known@);
            assert forall|a: Public| #[trigger]
                self@.statuses.contains_key(a) == target.contains_key(a) && (
                self@.statuses.contains_key(a) ==> self@.statuses[a] == target[a]) by {
                assert(start.statuses.contains_key(a) <==> known@.contains(a));
            }
            assert(self@.statuses =~= target);
        }
    }

    /// Expire the deposits that wait on `transaction`.
    fn expire(&mut self, transaction: TransactionId)
        ensures
            final(self)@ == old(self)@.on_expiration(transaction),
    {
        let ghost start = self@;
        let known = self.known_addresses();
        for i in 0..known.len()
            invariant
                forall|a: Public| #[trigger]
                    start.statuses.contains_key(a) <==> known@.contains(a),
                self@.addresses == start.addresses,
                self@.queue == start.queue,
                self@.statuses.dom() == start.statuses.dom(),
                forall|a: Public| #[trigger]
                    start.statuses.contains_key(a) ==> self@.statuses[a] == if start.statuses[a]
                        == (DepositStatus::Pending { transaction }) && known@.take(
                        i as int,
                    ).contains(a) {
                        DepositStatus::Expired { transaction }
                    } else {
                        start.statuses[a]
                    },
        {
            let address = known[i];
            proof {
                assert(known@.contains(known@[i as int]));
                assert(start.statuses.contains_key(address));
                assert(known@.take(i + 1) =~= known@.take(i as int).push(address));
                assert forall|a: Public| #[trigger]
                    known@.take(i + 1).contains(a) <==> known@.take(i as int).contains(a) || a
                        == address by {
                    lemma_push_member(known@.take(i as int), address, a);
                }
            }
            let status = self.get_deposit_status(address);
            if let DepositStatus::Pending { transaction: waiting } = status {
                if waiting == transaction {
                    self.set_status(&address, DepositStatus::Expired { transaction });
                }
            }
        }
        proof {
            assert(known@.take(known@.len() as int) =~= known@);
            assert(self@.statuses =~= expired(start.statuses, transaction));
        }
    }

    /// The deposits that `transactions` make, output by output.
    fn deposits(&self, transactions: &Vec<Transaction>) -> (deposits: Vec<DepositConfirmation>)
        ensures
            deposits@.map_values(|d: DepositConfirmation| d@) == payments(
                transactions_view(transactions@),
            ).filter(self@.listens()),
    {
        let ghost all = transactions_view(transactions@);
        let ghost listens = self@.listens();
        let mut deposits: Vec<DepositConfirmation> = Vec::new();
        proof {
            reveal(Seq::filter);
            assert(deposits@.map_values(|d: DepositConfirmation| d@) =~= payments(
                all.take(0),
            ).filter(listens));
        }
        for i in 0..transactions.len()
            invariant
                all == transactions_view(transactions@),
                listens == self@.listens(),
                deposits@.map_values(|d: DepositConfirmation| d@) == payments(
                    all.take(i as int),
                ).filter(listens),
        {
            let transaction = &transactions[i];
            let ghost tx = transaction@;
            let ghost earlier = payments(all.take(i as int));
            let ghost own = tx.outputs.map_values(|o: TransactionOutput| (o.receiver, tx));
            assert(earlier + own.take(0) =~= earlier);
            for j in 0..transaction.outputs.len()
                invariant
                    tx == transaction@,
                    listens == self@.listens(),
                    own == tx.outputs.map_values(|o: TransactionOutput| (o.receiver, tx)),
                    deposits@.map_values(|d: DepositConfirmation| d@) == (earlier + own.take(
                        j as int,
                    )).filter(listens),
            {
                let ghost before = deposits@.map_values(|d: DepositConfirmation| d@);
                let receiver = transaction.outputs[j].receiver;
                proof {
                    lemma_filter_push(earlier + own.take(j as int), listens, own[j as int]);
                    assert(earlier + own.take(j + 1) =~= (earlier + own.take(j as int)).push(
                        own[j as int],
                    ));
                }
                if self.is_listening(&receiver) {
                    let deposit = DepositConfirmation {
                        deposit_address: receiver,
                        transaction: transaction.clone(),
                    };
                    deposits.push(deposit);
                    assert(deposits@.map_values(|d: DepositConfirmation| d@) =~= before.push(
                        own[j as int],
                    ));
                }
            }
            proof {
                assert(own.take(own.len() as int) =~= own);
                assert(all.take(i + 1).drop_last() =~= all.take(i as int));
                assert(all.take(i + 1).last() == tx);
            }
        }
        assert(all.take(all.len() as int) =~= all);
        deposits
    }

    fn is_identified(&self, transactions: &Vec<Transaction>) -> (all_identified: bool)
        ensures
            all_identified == identified(transactions_view(transactions@), self@.addresses),
    {
        let ghost all = transactions_view(transactions@);
        for i in 0..transactions.len()
            invariant
                all == transactions_view(transactions@),
                identified(all.take(i as int), self@.addresses),
        {
            let transaction = &transactions[i];
            assert(all[i as int] == transaction@);
            if transaction.transaction_id.is_none() && self.pays_listened(transaction) {
                return false;
            }
            assert forall|k: int|
                0 <= k < all.take(i + 1).len() && pays_any(
                    #[trigger] all.take(i + 1)[k],
                    self@.addresses,
                ) implies all.take(i + 1)[k].transaction_id is Some by {
                if k < i {
                    assert(all.take(i as int)[k] == all.take(i + 1)[k]);
                }
            }
        }
        assert(all.take(all.len() as int) =~= all);
        true
    }

    fn pays_listened(&self, transaction: &Transaction) -> (pays: bool)
        ensures
            pays == pays_any(transaction@, self@.addresses),
    {
        for j in 0..transaction.outputs.len()
            invariant
                forall|k: int|
                    0 <= k < j ==> !self@.addresses.contains(
                        #[trigger] transaction@.outputs[k].receiver,
                    ),
        {
            if self.is_listening(&transaction.outputs[j].receiver) {
                assert(self@.addresses.contains(transaction@.outputs[j as int].receiver));
                return true;
            }
        }
        false
    }

    /// Whether `event` carries every hash and id that handling it looks at.
    pub fn accepts(&self, event: &ChainEvent, confirmation_count: usize) -> (accepted: bool)
        ensures
            accepted == self@.accepts(event@, confirmation_count as nat),
    {
        match event {
            ChainEvent::Block { block } => {
                let kept_len = self.block_confirmation_queue.kept_len(&block.previous_block);
                if !self.is_identified(&block.transactions)
                    || !self.block_confirmation_queue.has_hashed_orphans(&block.previous_block) {
                    return false;
                }
                if kept_len < confirmation_count || kept_len == 0 {
                    return true;
                }
                match self.block_confirmation_queue.oldest() {
                    Some(deep) => self.is_identified(&deep.transactions),
                    None => true,
                }
            },
            ChainEvent::Transaction { transaction } => {
                let accepted = transaction.transaction_id.is_some()
                    || !self.pays_listened(transaction);
                assert(seq![transaction@][0] == transaction@);
                accepted
            },
            ChainEvent::TransactionExpiration { .. } => true,
        }
    }

    /// Take `event` into account. What comes back are the deposits that it confirms, in the order
    /// in which their confirmation is to be reported.
    pub fn handle_event(
        &mut self,
        event: ChainEvent,
        confirmation_count: usize,
    ) -> (confirmations: Vec<DepositConfirmation>)
        requires
            old(self)@.accepts(event@, confirmation_count as nat),
        ensures
            final(self)@ == old(self)@.on_event(event@, confirmation_count as nat),
            confirmations@.map_values(|d: DepositConfirmation| d@) == old(self)@.confirmations(
                event@,
                confirmation_count as nat,
            ),
            old(self)@.wf() ==> final(self)@.wf(),
    {
        let ghost start = self@;
        let ghost happened = event@;
        proof {
            if start.wf() {
                law_events_keep_ledger_wf(start, happened, confirmation_count as nat);
            }
        }
        let mut confirmations: Vec<DepositConfirmation> = Vec::new();
        assert(confirmations@.map_values(|d: DepositConfirmation| d@) =~= Seq::empty());
        match event {
            ChainEvent::Block { block } => {
                let ghost arrived = block@;
                let dropped = self.block_confirmation_queue.drop_orphans(&block.previous_block);
                proof {
                    lemma_reverted_reverse(
                        self@.statuses,
                        self@.addresses,
                        orphans(start.queue, arrived),
                        standing(start.queue, arrived),
                    );
                }
                self.revert(&dropped);
                self.record_all(&block.transactions, DepositStage::Confirming);
                assert(self@.statuses == start.settled(arrived));
                let deepest = self.block_confirmation_queue.push(block, confirmation_count);
                assert(standing(start.queue, arrived).push(arrived) == grown(
                    start.queue,
                    arrived,
                ));
                if let Some(deep) = deepest {
                    confirmations = self.deposits(&deep.transactions);
                    self.record_all(&deep.transactions, DepositStage::Confirmed);
                }
            },
            ChainEvent::Transaction { transaction } => {
                self.record(&transaction, DepositStage::Pending);
            },
            ChainEvent::TransactionExpiration { transaction } => {
                self.expire(transaction);
            },
        }
        confirmations
    }
}

} // verus!
