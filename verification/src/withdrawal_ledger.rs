//! What the withdrawal processor knows, and how each event changes it.
use crate::chain::{BlockView, ChainEventView, TransactionView};
use crate::confirmation_queue::{
    advanced, advanced_by_all, confirmed, confirmed_meanwhile, grown, kept,
    law_confirmed_after_enough_blocks, law_extension_orphans_nothing, law_queue_stays_linked,
    lemma_kept, lemma_recent_blocks, linked, orphans, orphans_hashed,
};
use crate::ids::{Private, Public, TransactionId};
use crate::seq_lemmas::lemma_push_member;
use crate::withdrawal_payment_processor::{WithdrawalId, WithdrawalStatus};
use vstd::prelude::*;

verus! {

/// How far a withdrawal has come on its way to being confirmed.
#[derive(Clone, Copy, PartialEq, Eq, Structural, Debug)]
pub enum WithdrawalStage {
    Pending,
    Confirming,
    Confirmed,
}

impl WithdrawalStage {
    /// The status of a withdrawal whose `transaction` has come this far.
    pub open spec fn status_spec(self, transaction: TransactionId) -> WithdrawalStatus {
        match self {
            WithdrawalStage::Pending => WithdrawalStatus::Pending { transaction },
            WithdrawalStage::Confirming => WithdrawalStatus::Confirming { transaction },
            WithdrawalStage::Confirmed => WithdrawalStatus::Confirmed { transaction },
        }
    }

    /// Whether a withdrawal with `status` has come this far and no further.
    pub open spec fn includes_spec(self, status: WithdrawalStatus) -> bool {
        match self {
            WithdrawalStage::Pending => status is Pending,
            WithdrawalStage::Confirming => status is Confirming,
            WithdrawalStage::Confirmed => status is Confirmed,
        }
    }

    /// The status of a withdrawal whose `transaction` has come this far.
    pub fn status(&self, transaction: TransactionId) -> (status: WithdrawalStatus)
        ensures
            status == self.status_spec(transaction),
    {
        match self {
            WithdrawalStage::Pending => WithdrawalStatus::Pending { transaction },
            WithdrawalStage::Confirming => WithdrawalStatus::Confirming { transaction },
            WithdrawalStage::Confirmed => WithdrawalStatus::Confirmed { transaction },
        }
    }

    /// Whether a withdrawal with `status` has come this far and no further.
    pub fn includes(&self, status: &WithdrawalStatus) -> (included: bool)
        ensures
            included == self.includes_spec(*status),
    {
        match (self, status) {
            (WithdrawalStage::Pending, WithdrawalStatus::Pending { .. }) => true,
            (WithdrawalStage::Confirming, WithdrawalStatus::Confirming { .. }) => true,
            (WithdrawalStage::Confirmed, WithdrawalStatus::Confirmed { .. }) => true,
            _ => false,
        }
    }
}

/// What is known of one withdrawal.
#[verifier::ext_equal]
pub struct WithdrawalView {
    pub sender_private: Private,
    pub recipients: Seq<(Public, u64)>,
    pub status: WithdrawalStatus,
    pub current_tx_id: TransactionId,
    pub current_tx: TransactionView,
    pub is_resubmitting: bool,
}

/// What it takes to submit an expired withdrawal anew.
#[verifier::ext_equal]
pub struct ResubmissionView {
    pub withdrawal_id: WithdrawalId,
    pub sender_private: Private,
    pub recipients: Seq<(Public, u64)>,
    pub expired_tx_id: TransactionId,
    pub expired_tx: TransactionView,
}

/// What an event calls for.
pub enum WithdrawalActionView {
    /// Nothing.
    Idle,
    /// Report the confirmed withdrawals, each with its transaction, in this order.
    Confirm { confirmations: Seq<(WithdrawalId, TransactionView)> },
    /// Submit the withdrawal anew.
    Resubmit { resubmission: ResubmissionView },
}

/// The tracked withdrawals, the withdrawal that each of their transactions belongs to, and the
/// blocks that wait for confirmations, oldest first.
#[verifier::ext_equal]
pub struct WithdrawalLedger {
    pub withdrawals: Map<WithdrawalId, WithdrawalView>,
    pub owners: Map<TransactionId, WithdrawalId>,
    pub queue: Seq<BlockView>,
}

/// The transaction that a status speaks of.
pub open spec fn status_transaction(status: WithdrawalStatus) -> TransactionId {
    match status {
        WithdrawalStatus::Pending { transaction } => transaction,
        WithdrawalStatus::Confirming { transaction } => transaction,
        WithdrawalStatus::Expired { transaction } => transaction,
        WithdrawalStatus::Confirmed { transaction } => transaction,
    }
}

/// The withdrawal that `transaction` belongs to.
pub open spec fn owner(
    transaction: TransactionView,
    owners: Map<TransactionId, WithdrawalId>,
) -> Option<WithdrawalId> {
    match transaction.transaction_id {
        Some(id) => if owners.contains_key(id) {
            Some(owners[id])
        } else {
            None
        },
        None => None,
    }
}

/// The first of `transactions` that belongs to `withdrawal`.
pub open spec fn first_owned(
    transactions: Seq<TransactionView>,
    owners: Map<TransactionId, WithdrawalId>,
    withdrawal: WithdrawalId,
) -> Option<TransactionView>
    decreases transactions.len(),
{
    if transactions.len() == 0 {
        None
    } else {
        match first_owned(transactions.drop_last(), owners, withdrawal) {
            Some(t) => Some(t),
            None => if owner(transactions.last(), owners) == Some(withdrawal) {
                Some(transactions.last())
            } else {
                None
            },
        }
    }
}

/// The withdrawals after those that are at stage `from` and own one of `transactions` have come
/// to stage `to` by the first transaction that they own.
pub open spec fn moved(
    withdrawals: Map<WithdrawalId, WithdrawalView>,
    owners: Map<TransactionId, WithdrawalId>,
    transactions: Seq<TransactionView>,
    from: WithdrawalStage,
    to: WithdrawalStage,
) -> Map<WithdrawalId, WithdrawalView> {
    Map::new(
        |w: WithdrawalId| withdrawals.contains_key(w),
        |w: WithdrawalId|
            if from.includes_spec(withdrawals[w].status) && first_owned(
                transactions,
                owners,
                w,
            ) is Some {
                WithdrawalView {
                    status: to.status_spec(
                        first_owned(transactions, owners, w)->0.transaction_id->0,
                    ),
                    ..withdrawals[w]
                }
            } else {
                withdrawals[w]
            },
    )
}

/// The transactions of `blocks`, newest block first.
pub open spec fn unwound(blocks: Seq<BlockView>) -> Seq<TransactionView>
    decreases blocks.len(),
{
    if blocks.len() == 0 {
        Seq::empty()
    } else {
        blocks.last().transactions + unwound(blocks.drop_last())
    }
}

/// The withdrawals that `transactions` bring from confirming to confirmed, each with the
/// transaction that does, in the order of the transactions.
pub open spec fn newly_confirmed(
    withdrawals: Map<WithdrawalId, WithdrawalView>,
    owners: Map<TransactionId, WithdrawalId>,
    transactions: Seq<TransactionView>,
) -> Seq<(WithdrawalId, TransactionView)>
    decreases transactions.len(),
{
    if transactions.len() == 0 {
        Seq::empty()
    } else {
        let earlier = transactions.drop_last();
        let before = newly_confirmed(withdrawals, owners, earlier);
        match owner(transactions.last(), owners) {
            Some(w) => if withdrawals.contains_key(w) && withdrawals[w].status is Confirming
                && first_owned(earlier, owners, w) is None {
                before.push((w, transactions.last()))
            } else {
                before
            },
            None => before,
        }
    }
}

impl WithdrawalLedger {
    /// Nothing is tracked and nothing was seen.
    pub open spec fn empty() -> Self {
        WithdrawalLedger { withdrawals: Map::empty(), owners: Map::empty(), queue: Seq::empty() }
    }

    /// Each tracked withdrawal owns its current transaction and no other, its status speaks of
    /// that transaction, one that is being resubmitted is expired, and each queued block stands
    /// on the one before it.
    pub open spec fn wf(self) -> bool {
        &&& forall|id: TransactionId| #[trigger]
            self.owners.contains_key(id) ==> self.withdrawals.contains_key(self.owners[id])
                && self.withdrawals[self.owners[id]].current_tx_id == id
        &&& forall|w: WithdrawalId| #[trigger]
            self.withdrawals.contains_key(w) ==> {
                let data = self.withdrawals[w];
                &&& self.owners.contains_key(data.current_tx_id)
                &&& self.owners[data.current_tx_id] == w
                &&& data.current_tx.transaction_id == Some(data.current_tx_id)
                &&& status_transaction(data.status) == data.current_tx_id
                &&& data.is_resubmitting ==> data.status is Expired
            }
        &&& linked(self.queue)
    }

    /// The status of `withdrawal`, if it is tracked.
    pub open spec fn status(self, withdrawal: WithdrawalId) -> Option<WithdrawalStatus> {
        if self.withdrawals.contains_key(withdrawal) {
            Some(self.withdrawals[withdrawal].status)
        } else {
            None
        }
    }

    /// Track `withdrawal`, whose `transaction` was submitted.
    pub open spec fn track(
        self,
        withdrawal: WithdrawalId,
        sender_private: Private,
        recipients: Seq<(Public, u64)>,
        transaction: (TransactionId, TransactionView),
    ) -> Self {
        WithdrawalLedger {
            withdrawals: self.withdrawals.insert(
                withdrawal,
                WithdrawalView {
                    sender_private,
                    recipients,
                    status: WithdrawalStatus::Pending { transaction: transaction.0 },
                    current_tx_id: transaction.0,
                    current_tx: transaction.1,
                    is_resubmitting: false,
                },
            ),
            owners: self.owners.insert(transaction.0, withdrawal),
            queue: self.queue,
        }
    }

    /// Stop tracking `withdrawal`.
    pub open spec fn untrack(self, withdrawal: WithdrawalId) -> Self {
        if self.withdrawals.contains_key(withdrawal) {
            WithdrawalLedger {
                withdrawals: self.withdrawals.remove(withdrawal),
                owners: self.owners.remove(self.withdrawals[withdrawal].current_tx_id),
                queue: self.queue,
            }
        } else {
            self
        }
    }

    /// The withdrawals once those of the blocks that the arriving `block` orphans are pending
    /// again.
    pub open spec fn reverted(self, block: BlockView) -> Map<WithdrawalId, WithdrawalView> {
        moved(
            self.withdrawals,
            self.owners,
            unwound(orphans(self.queue, block)),
            WithdrawalStage::Confirming,
            WithdrawalStage::Pending,
        )
    }

    /// The withdrawals once those of the blocks that the arriving `block` orphans are pending
    /// again and then those of `block` itself are confirming.
    pub open spec fn settled(self, block: BlockView) -> Map<WithdrawalId, WithdrawalView> {
        moved(
            self.reverted(block),
            self.owners,
            block.transactions,
            WithdrawalStage::Pending,
            WithdrawalStage::Confirming,
        )
    }

    /// `block` arrived.
    pub open spec fn on_block(self, block: BlockView, confirmation_count: nat) -> Self {
        WithdrawalLedger {
            withdrawals: match confirmed(self.queue, block, confirmation_count) {
                Some(deep) => moved(
                    self.settled(block),
                    self.owners,
                    deep.transactions,
                    WithdrawalStage::Confirming,
                    WithdrawalStage::Confirmed,
                ),
                None => self.settled(block),
            },
            owners: self.owners,
            queue: advanced(self.queue, block, confirmation_count),
        }
    }

    /// All of `blocks` arrived, in order.
    pub open spec fn on_blocks(self, blocks: Seq<BlockView>, confirmation_count: nat) -> Self
        decreases blocks.len(),
    {
        if blocks.len() == 0 {
            self
        } else {
            self.on_blocks(blocks.drop_last(), confirmation_count).on_block(
                blocks.last(),
                confirmation_count,
            )
        }
    }

    /// The withdrawals that the arriving `block` confirms.
    pub open spec fn confirmations(
        self,
        block: BlockView,
        confirmation_count: nat,
    ) -> Seq<(WithdrawalId, TransactionView)> {
        match confirmed(self.queue, block, confirmation_count) {
            Some(deep) => newly_confirmed(self.settled(block), self.owners, deep.transactions),
            None => Seq::empty(),
        }
    }

    /// Whether the expiry of `transaction` calls for a resubmission: it belongs to a tracked
    /// withdrawal that is pending and is not being resubmitted already.
    pub open spec fn needs_resubmission(self, transaction: TransactionId) -> bool {
        &&& self.owners.contains_key(transaction)
        &&& self.withdrawals.contains_key(self.owners[transaction])
        &&& self.withdrawals[self.owners[transaction]].status is Pending
        &&& !self.withdrawals[self.owners[transaction]].is_resubmitting
    }

    /// `transaction` expired in the mempool.
    pub open spec fn on_expiration(self, transaction: TransactionId) -> Self {
        if self.needs_resubmission(transaction) {
            let w = self.owners[transaction];
            WithdrawalLedger {
                withdrawals: self.withdrawals.insert(
                    w,
                    WithdrawalView {
                        status: WithdrawalStatus::Expired { transaction },
                        is_resubmitting: true,
                        ..self.withdrawals[w]
                    },
                ),
                ..self
            }
        } else {
            self
        }
    }

    /// What it takes to submit the withdrawal anew whose `transaction` expired.
    pub open spec fn resubmission(self, transaction: TransactionId) -> ResubmissionView {
        let w = self.owners[transaction];
        let data = self.withdrawals[w];
        ResubmissionView {
            withdrawal_id: w,
            sender_private: data.sender_private,
            recipients: data.recipients,
            expired_tx_id: transaction,
            expired_tx: data.current_tx,
        }
    }

    /// The attempt to submit `withdrawal` anew, after its transaction `expired` had expired, led
    /// to the given transaction, or failed.
    pub open spec fn on_resubmitted(
        self,
        withdrawal: WithdrawalId,
        expired: TransactionId,
        resubmitted: Option<(TransactionId, TransactionView)>,
    ) -> Self {
        if !self.withdrawals.contains_key(withdrawal) {
            self
        } else {
            match resubmitted {
                Some(transaction) => WithdrawalLedger {
                    withdrawals: self.withdrawals.insert(
                        withdrawal,
                        WithdrawalView {
                            status: WithdrawalStatus::Pending { transaction: transaction.0 },
                            current_tx_id: transaction.0,
                            current_tx: transaction.1,
                            is_resubmitting: false,
                            ..self.withdrawals[withdrawal]
                        },
                    ),
                    owners: self.owners.remove(expired).insert(transaction.0, withdrawal),
                    queue: self.queue,
                },
                None => WithdrawalLedger {
                    withdrawals: self.withdrawals.insert(
                        withdrawal,
                        WithdrawalView {
                            is_resubmitting: false,
                            ..self.withdrawals[withdrawal]
                        },
                    ),
                    ..self
                },
            }
        }
    }

    /// `event` happened.
    pub open spec fn on_event(self, event: ChainEventView, confirmation_count: nat) -> Self {
        match event {
            ChainEventView::Block { block } => self.on_block(block, confirmation_count),
            ChainEventView::Transaction { .. } => self,
            ChainEventView::TransactionExpiration { transaction } => self.on_expiration(
                transaction,
            ),
        }
    }

    /// All of `events` happened, in order.
    pub open spec fn on_events(self, events: Seq<ChainEventView>, confirmation_count: nat) -> Self
        decreases events.len(),
    {
        if events.len() == 0 {
            self
        } else {
            self.on_events(events.drop_last(), confirmation_count).on_event(
                events.last(),
                confirmation_count,
            )
        }
    }

    /// What `event` calls for.
    pub open spec fn action(
        self,
        event: ChainEventView,
        confirmation_count: nat,
    ) -> WithdrawalActionView {
        match event {
            ChainEventView::Block { block } => WithdrawalActionView::Confirm {
                confirmations: self.confirmations(block, confirmation_count),
            },
            ChainEventView::Transaction { .. } => WithdrawalActionView::Idle,
            ChainEventView::TransactionExpiration {
                transaction,
            } => if self.needs_resubmission(transaction) {
                WithdrawalActionView::Resubmit { resubmission: self.resubmission(transaction) }
            } else {
                WithdrawalActionView::Idle
            },
        }
    }

    /// Whether `event` carries every hash that handling it looks at.
    pub open spec fn accepts(self, event: ChainEventView) -> bool {
        match event {
            ChainEventView::Block { block } => orphans_hashed(self.queue, block.previous_block),
            _ => true,
        }
    }
}

/// Tracking a withdrawal under an id and a transaction that are not in use yet keeps the ledger
/// well-formed.
pub proof fn law_tracking_keeps_ledger_wf(
    ledger: WithdrawalLedger,
    withdrawal: WithdrawalId,
    sender_private: Private,
    recipients: Seq<(Public, u64)>,
    transaction: (TransactionId, TransactionView),
)
    requires
        ledger.wf(),
        transaction.1.transaction_id == Some(transaction.0),
    ensures
        !ledger.withdrawals.contains_key(withdrawal) && !ledger.owners.contains_key(transaction.0)
            ==> ledger.track(withdrawal, sender_private, recipients, transaction).wf(),
{
}

/// Untracking a withdrawal keeps the ledger well-formed.
pub proof fn law_untracking_keeps_ledger_wf(ledger: WithdrawalLedger, withdrawal: WithdrawalId)
    requires
        ledger.wf(),
    ensures
        ledger.untrack(withdrawal).wf(),
{
}

/// Concluding the resubmission of a withdrawal, by a transaction that is not in use yet or not at
/// all, keeps the ledger well-formed.
pub proof fn law_resubmission_keeps_ledger_wf(
    ledger: WithdrawalLedger,
    withdrawal: WithdrawalId,
    expired: TransactionId,
    resubmitted: Option<(TransactionId, TransactionView)>,
)
    requires
        ledger.wf(),
        ledger.withdrawals.contains_key(withdrawal) ==> ledger.withdrawals[withdrawal].current_tx_id
            == expired,
        resubmitted matches Some(t) ==> t.1.transaction_id == Some(t.0) && (
        !ledger.owners.contains_key(t.0) || t.0 == expired),
    ensures
        ledger.on_resubmitted(withdrawal, expired, resubmitted).wf(),
{
}

proof fn lemma_first_owned(
    transactions: Seq<TransactionView>,
    owners: Map<TransactionId, WithdrawalId>,
    withdrawal: WithdrawalId,
)
    ensures
        first_owned(transactions, owners, withdrawal) matches Some(t) ==> owner(t, owners) == Some(
            withdrawal,
        ),
    decreases transactions.len(),
{
    if transactions.len() > 0 {
        lemma_first_owned(transactions.drop_last(), owners, withdrawal);
    }
}

proof fn lemma_moved_wf(
    ledger: WithdrawalLedger,
    transactions: Seq<TransactionView>,
    from: WithdrawalStage,
    to: WithdrawalStage,
)
    requires
        ledger.wf(),
    ensures
        (WithdrawalLedger {
            withdrawals: moved(ledger.withdrawals, ledger.owners, transactions, from, to),
            ..ledger
        }).wf(),
{
    let after = moved(ledger.withdrawals, ledger.owners, transactions, from, to);
    assert forall|w: WithdrawalId| #[trigger] after.contains_key(w) implies status_transaction(
        after[w].status,
    ) == after[w].current_tx_id && (after[w].is_resubmitting ==> after[w].status is Expired) by {
        assert(ledger.withdrawals.contains_key(w));
        lemma_first_owned(transactions, ledger.owners, w);
    }
    assert forall|w: WithdrawalId| #[trigger] after.contains_key(w) implies
        ledger.owners.contains_key(after[w].current_tx_id) && ledger.owners[after[w].current_tx_id]
            == w by {
        assert(ledger.withdrawals.contains_key(w));
    }
}

/// Whatever happens on the chain, the ledger stays well-formed, the withdrawals keep their ids,
/// and each keeps its sender, its recipients and its transaction.
pub proof fn law_events_keep_ledger_wf(
    ledger: WithdrawalLedger,
    event: ChainEventView,
    confirmation_count: nat,
)
    requires
        ledger.wf(),
    ensures
        ledger.on_event(event, confirmation_count).wf(),
        ledger.on_event(event, confirmation_count).withdrawals.dom() == ledger.withdrawals.dom(),
        ledger.on_event(event, confirmation_count).owners == ledger.owners,
        forall|w: WithdrawalId| #[trigger]
            ledger.withdrawals.contains_key(w) ==> {
                let before = ledger.withdrawals[w];
                let after = ledger.on_event(event, confirmation_count).withdrawals[w];
                after == WithdrawalView {
                    status: after.status,
                    is_resubmitting: after.is_resubmitting,
                    ..before
                }
            },
{
    let after = ledger.on_event(event, confirmation_count);
    assert(after.withdrawals.dom() =~= ledger.withdrawals.dom());
    if let ChainEventView::Block { block } = event {
        law_queue_stays_linked(ledger.queue, block, confirmation_count);
        lemma_moved_wf(
            ledger,
            unwound(orphans(ledger.queue, block)),
            WithdrawalStage::Confirming,
            WithdrawalStage::Pending,
        );
        let reverted = WithdrawalLedger { withdrawals: ledger.reverted(block), ..ledger };
        lemma_moved_wf(
            reverted,
            block.transactions,
            WithdrawalStage::Pending,
            WithdrawalStage::Confirming,
        );
        let settled = WithdrawalLedger { withdrawals: ledger.settled(block), ..ledger };
        if let Some(deep) = confirmed(ledger.queue, block, confirmation_count) {
            lemma_moved_wf(
                settled,
                deep.transactions,
                WithdrawalStage::Confirming,
                WithdrawalStage::Confirmed,
            );
        }
    }
}

/// A withdrawal that has just been tracked is pending on its transaction.
pub proof fn law_tracked_withdrawal_is_pending(
    ledger: WithdrawalLedger,
    withdrawal: WithdrawalId,
    sender_private: Private,
    recipients: Seq<(Public, u64)>,
    transaction: (TransactionId, TransactionView),
    other: WithdrawalId,
)
    ensures
        ({
            let after = ledger.track(withdrawal, sender_private, recipients, transaction);
            &&& after.status(withdrawal) == Some(
                WithdrawalStatus::Pending { transaction: transaction.0 },
            )
            &&& after.owners[transaction.0] == withdrawal
            &&& other != withdrawal ==> after.status(other) == ledger.status(other)
        }),
{
}

/// A withdrawal that has just been untracked has no status, and no other is affected.
pub proof fn law_untracked_withdrawal_has_no_status(
    ledger: WithdrawalLedger,
    withdrawal: WithdrawalId,
    other: WithdrawalId,
)
    ensures
        ledger.untrack(withdrawal).status(withdrawal) is None,
        other != withdrawal ==> ledger.untrack(withdrawal).status(other) == ledger.status(other),
{
}

/// Untracking a withdrawal undoes tracking it, if neither it nor its transaction was in use.
pub proof fn law_untrack_undoes_track(
    ledger: WithdrawalLedger,
    withdrawal: WithdrawalId,
    sender_private: Private,
    recipients: Seq<(Public, u64)>,
    transaction: (TransactionId, TransactionView),
)
    requires
        !ledger.withdrawals.contains_key(withdrawal),
        !ledger.owners.contains_key(transaction.0),
    ensures
        ledger.track(withdrawal, sender_private, recipients, transaction).untrack(withdrawal)
            == ledger,
{
    assert(ledger.track(withdrawal, sender_private, recipients, transaction).untrack(withdrawal)
        =~= ledger);
}

/// What a block does to the status of a withdrawal: it is pending again if it was confirming and
/// its transaction is in an orphaned block; from there it is confirming if it is pending and its
/// transaction is in the arriving block; and from there it is confirmed if it is confirming and
/// its transaction is in the block that gets enough confirmations.
pub proof fn law_status_after_block(
    ledger: WithdrawalLedger,
    block: BlockView,
    confirmation_count: nat,
    withdrawal: WithdrawalId,
)
    requires
        ledger.wf(),
        ledger.withdrawals.contains_key(withdrawal),
    ensures
        ({
            let id = ledger.withdrawals[withdrawal].current_tx_id;
            let before = ledger.withdrawals[withdrawal].status;
            let reverted = if before is Confirming && some_block_includes(
                orphans(ledger.queue, block),
                id,
            ) {
                WithdrawalStatus::Pending { transaction: id }
            } else {
                before
            };
            let settled = if reverted is Pending && includes(block, id) {
                WithdrawalStatus::Confirming { transaction: id }
            } else {
                reverted
            };
            let deep = confirmed(ledger.queue, block, confirmation_count);
            ledger.on_block(block, confirmation_count).status(withdrawal) == Some(
                if settled is Confirming && deep is Some && includes(deep->0, id) {
                    WithdrawalStatus::Confirmed { transaction: id }
                } else {
                    settled
                },
            )
        }),
{
    lemma_owned(ledger, block.transactions, withdrawal);
    lemma_owned(ledger, unwound(orphans(ledger.queue, block)), withdrawal);
    lemma_unwound(orphans(ledger.queue, block), ledger.withdrawals[withdrawal].current_tx_id);
    if let Some(deep) = confirmed(ledger.queue, block, confirmation_count) {
        lemma_owned(ledger, deep.transactions, withdrawal);
    }
}

/// Whether `transactions` hold the transaction with the given id.
pub open spec fn lists(transactions: Seq<TransactionView>, id: TransactionId) -> bool {
    exists|i: int|
        0 <= i < transactions.len() && (#[trigger] transactions[i]).transaction_id == Some(id)
}

/// Whether `block` holds the transaction with the given id.
pub open spec fn includes(block: BlockView, id: TransactionId) -> bool {
    lists(block.transactions, id)
}

/// Whether some block of `blocks` holds the transaction with the given id.
pub open spec fn some_block_includes(blocks: Seq<BlockView>, id: TransactionId) -> bool {
    exists|i: int| 0 <= i < blocks.len() && includes(#[trigger] blocks[i], id)
}

proof fn lemma_lists_push(
    transactions: Seq<TransactionView>,
    transaction: TransactionView,
    id: TransactionId,
)
    ensures
        lists(transactions.push(transaction), id) <==> lists(transactions, id)
            || transaction.transaction_id == Some(id),
{
    let more = transactions.push(transaction);
    assert(more[transactions.len() as int] == transaction);
    if lists(transactions, id) {
        let i = choose|i: int|
            0 <= i < transactions.len() && (#[trigger] transactions[i]).transaction_id == Some(id);
        assert(more[i].transaction_id == Some(id));
    }
    if lists(more, id) {
        let i = choose|i: int|
            0 <= i < more.len() && (#[trigger] more[i]).transaction_id == Some(id);
        if i < transactions.len() {
            assert(transactions[i].transaction_id == Some(id));
        }
    }
}

proof fn lemma_lists_add(s: Seq<TransactionView>, t: Seq<TransactionView>, id: TransactionId)
    ensures
        lists(s + t, id) <==> lists(s, id) || lists(t, id),
    decreases t.len(),
{
    if t.len() == 0 {
        assert(s + t =~= s);
    } else {
        let rest = t.drop_last();
        lemma_lists_add(s, rest, id);
        lemma_lists_push(s + rest, t.last(), id);
        lemma_lists_push(rest, t.last(), id);
        assert(rest.push(t.last()) =~= t);
        assert((s + rest).push(t.last()) =~= s + t);
    }
}

proof fn lemma_unwound(blocks: Seq<BlockView>, id: TransactionId)
    ensures
        lists(unwound(blocks), id) <==> some_block_includes(blocks, id),
    decreases blocks.len(),
{
    if blocks.len() > 0 {
        let rest = blocks.drop_last();
        lemma_unwound(rest, id);
        lemma_lists_add(blocks.last().transactions, unwound(rest), id);
        if some_block_includes(rest, id) {
            let i = choose|i: int| 0 <= i < rest.len() && includes(#[trigger] rest[i], id);
            assert(includes(blocks[i], id));
        }
        if includes(blocks.last(), id) {
            assert(includes(blocks[blocks.len() - 1], id));
        }
        if some_block_includes(blocks, id) && !includes(blocks.last(), id) {
            let i = choose|i: int| 0 <= i < blocks.len() && includes(#[trigger] blocks[i], id);
            assert(includes(rest[i], id));
        }
    }
}

/// In a well-formed ledger a withdrawal owns no transaction but its current one.
proof fn lemma_owned(
    ledger: WithdrawalLedger,
    transactions: Seq<TransactionView>,
    withdrawal: WithdrawalId,
)
    requires
        ledger.wf(),
        ledger.withdrawals.contains_key(withdrawal),
    ensures
        first_owned(transactions, ledger.owners, withdrawal) is Some <==> lists(
            transactions,
            ledger.withdrawals[withdrawal].current_tx_id,
        ),
        first_owned(transactions, ledger.owners, withdrawal) matches Some(t) ==> t.transaction_id
            == Some(ledger.withdrawals[withdrawal].current_tx_id) && transactions.contains(t),
    decreases transactions.len(),
{
    let id = ledger.withdrawals[withdrawal].current_tx_id;
    if transactions.len() > 0 {
        let rest = transactions.drop_last();
        let last = transactions.last();
        lemma_owned(ledger, rest, withdrawal);
        lemma_lists_push(rest, last, id);
        assert(rest.push(last) =~= transactions);
        assert(owner(last, ledger.owners) == Some(withdrawal) <==> last.transaction_id == Some(id));
        if let Some(t) = first_owned(transactions, ledger.owners, withdrawal) {
            lemma_push_member(rest, last, t);
        }
    }
}

/// A confirmed withdrawal stays confirmed, whatever happens on the chain.
pub proof fn law_confirmed_is_final(
    ledger: WithdrawalLedger,
    event: ChainEventView,
    confirmation_count: nat,
    withdrawal: WithdrawalId,
)
    requires
        ledger.status(withdrawal) matches Some(status) && status is Confirmed,
    ensures
        ledger.on_event(event, confirmation_count).status(withdrawal) == ledger.status(withdrawal),
{
}

proof fn lemma_newly_confirmed(
    withdrawals: Map<WithdrawalId, WithdrawalView>,
    owners: Map<TransactionId, WithdrawalId>,
    transactions: Seq<TransactionView>,
    withdrawal: WithdrawalId,
    transaction: TransactionView,
)
    ensures
        newly_confirmed(withdrawals, owners, transactions).contains((withdrawal, transaction))
            <==> {
            &&& withdrawals.contains_key(withdrawal)
            &&& withdrawals[withdrawal].status is Confirming
            &&& first_owned(transactions, owners, withdrawal) == Some(transaction)
        },
    decreases transactions.len(),
{
    if transactions.len() > 0 {
        let earlier = transactions.drop_last();
        let last = transactions.last();
        let before = newly_confirmed(withdrawals, owners, earlier);
        lemma_newly_confirmed(withdrawals, owners, earlier, withdrawal, transaction);
        if let Some(w) = owner(last, owners) {
            lemma_push_member(before, (w, last), (withdrawal, transaction));
        }
    }
}

proof fn lemma_reported_once(
    withdrawals: Map<WithdrawalId, WithdrawalView>,
    owners: Map<TransactionId, WithdrawalId>,
    transactions: Seq<TransactionView>,
    i: int,
    j: int,
)
    requires
        0 <= i < j < newly_confirmed(withdrawals, owners, transactions).len(),
    ensures
        newly_confirmed(withdrawals, owners, transactions)[i].0 != newly_confirmed(
            withdrawals,
            owners,
            transactions,
        )[j].0,
    decreases transactions.len(),
{
    let earlier = transactions.drop_last();
    let before = newly_confirmed(withdrawals, owners, earlier);
    if j < before.len() {
        lemma_reported_once(withdrawals, owners, earlier, i, j);
    } else {
        assert(before.contains(before[i]));
        lemma_newly_confirmed(withdrawals, owners, earlier, before[i].0, before[i].1);
    }
}

/// A withdrawal is reported exactly when it turns from confirming to confirmed, with the
/// transaction that confirms it; never twice by one block, and never again once it is confirmed.
pub proof fn law_reported_withdrawals(
    ledger: WithdrawalLedger,
    block: BlockView,
    confirmation_count: nat,
    withdrawal: WithdrawalId,
    transaction: TransactionView,
)
    ensures
        ({
            let reported = ledger.confirmations(block, confirmation_count);
            let after = ledger.on_block(block, confirmation_count);
            &&& reported.contains((withdrawal, transaction)) ==> {
                &&& ledger.status(withdrawal) matches Some(before) && !(before is Confirmed)
                &&& after.status(withdrawal) == Some(
                    WithdrawalStatus::Confirmed { transaction: transaction.transaction_id->0 },
                )
                &&& confirmed(ledger.queue, block, confirmation_count) matches Some(deep)
                    && first_owned(deep.transactions, ledger.owners, withdrawal) == Some(
                    transaction,
                )
            }
            &&& (after.status(withdrawal) matches Some(status) && status is Confirmed
                && ledger.status(withdrawal) != after.status(withdrawal)) ==> exists|t|
                #[trigger] reported.contains((withdrawal, t))
            &&& forall|i: int, j: int|
                0 <= i < j < reported.len() ==> (#[trigger] reported[i]).0 != (
                #[trigger] reported[j]).0
        }),
{
    if let Some(deep) = confirmed(ledger.queue, block, confirmation_count) {
        let settled = ledger.settled(block);
        let txs = deep.transactions;
        lemma_newly_confirmed(settled, ledger.owners, txs, withdrawal, transaction);
        if let Some(t) = first_owned(txs, ledger.owners, withdrawal) {
            lemma_newly_confirmed(settled, ledger.owners, txs, withdrawal, t);
        }
        let reported = newly_confirmed(settled, ledger.owners, txs);
        assert forall|i: int, j: int| 0 <= i < j < reported.len() implies (
        #[trigger] reported[i]).0 != (#[trigger] reported[j]).0 by {
            lemma_reported_once(settled, ledger.owners, txs, i, j);
        }
    }
}

/// A withdrawal that is reported stays confirmed and is never reported again, whatever events
/// follow.
pub proof fn law_withdrawal_is_reported_at_most_once(
    ledger: WithdrawalLedger,
    block: BlockView,
    confirmation_count: nat,
    withdrawal: WithdrawalId,
    transaction: TransactionView,
    events: Seq<ChainEventView>,
    later: BlockView,
    again: TransactionView,
)
    requires
        ledger.confirmations(block, confirmation_count).contains((withdrawal, transaction)),
    ensures
        ({
            let after = ledger.on_block(block, confirmation_count);
            let then = after.on_events(events, confirmation_count);
            &&& then.status(withdrawal) == after.status(withdrawal)
            &&& then.status(withdrawal) matches Some(status) && status is Confirmed
            &&& !then.confirmations(later, confirmation_count).contains((withdrawal, again))
        }),
    decreases events.len(),
{
    let after = ledger.on_block(block, confirmation_count);
    law_reported_withdrawals(ledger, block, confirmation_count, withdrawal, transaction);
    if events.len() > 0 {
        let earlier = events.drop_last();
        law_withdrawal_is_reported_at_most_once(
            ledger,
            block,
            confirmation_count,
            withdrawal,
            transaction,
            earlier,
            later,
            again,
        );
        law_confirmed_is_final(
            after.on_events(earlier, confirmation_count),
            events.last(),
            confirmation_count,
            withdrawal,
        );
    }
    let then = after.on_events(events, confirmation_count);
    law_reported_withdrawals(then, later, confirmation_count, withdrawal, again);
}

/// The expiry of the transaction of a pending withdrawal starts one resubmission of it. Until
/// that is concluded the withdrawal is expired, and no further expiry starts another.
pub proof fn law_expiry_starts_one_resubmission(
    ledger: WithdrawalLedger,
    transaction: TransactionId,
    again: TransactionId,
)
    requires
        ledger.wf(),
        ledger.needs_resubmission(transaction),
    ensures
        ({
            let w = ledger.owners[transaction];
            let after = ledger.on_expiration(transaction);
            &&& after.status(w) == Some(WithdrawalStatus::Expired { transaction })
            &&& after.withdrawals[w].is_resubmitting
            &&& after.owners.contains_key(again) && after.owners[again] == w
                ==> !after.needs_resubmission(again)
        }),
{
}

/// A withdrawal that is resubmitted keeps its id, its sender and its recipients, is pending on
/// the new transaction, and can expire and be resubmitted again.
pub proof fn law_resubmitted_withdrawal_is_pending(
    ledger: WithdrawalLedger,
    expired: TransactionId,
    transaction: (TransactionId, TransactionView),
)
    requires
        ledger.wf(),
        ledger.needs_resubmission(expired),
    ensures
        ({
            let w = ledger.owners[expired];
            let before = ledger.withdrawals[w];
            let after = ledger.on_expiration(expired).on_resubmitted(w, expired, Some(transaction));
            &&& after.withdrawals.dom() == ledger.withdrawals.dom()
            &&& after.withdrawals[w] == WithdrawalView {
                status: WithdrawalStatus::Pending { transaction: transaction.0 },
                current_tx_id: transaction.0,
                current_tx: transaction.1,
                ..before
            }
            &&& after.owners[transaction.0] == w
            &&& expired != transaction.0 ==> !after.owners.contains_key(expired)
            &&& after.needs_resubmission(transaction.0)
        }),
{
    let w = ledger.owners[expired];
    let after = ledger.on_expiration(expired).on_resubmitted(w, expired, Some(transaction));
    assert(after.withdrawals.dom() =~= ledger.withdrawals.dom());
}

/// A withdrawal whose resubmission failed stays expired, and no later expiry resubmits it.
pub proof fn law_failed_resubmission_leaves_withdrawal_expired(
    ledger: WithdrawalLedger,
    expired: TransactionId,
    again: TransactionId,
)
    requires
        ledger.wf(),
        ledger.needs_resubmission(expired),
    ensures
        ({
            let w = ledger.owners[expired];
            let after = ledger.on_expiration(expired).on_resubmitted(w, expired, None);
            &&& after.status(w) == Some(WithdrawalStatus::Expired { transaction: expired })
            &&& after.owners.contains_key(again) && after.owners[again] == w
                ==> !after.needs_resubmission(again)
        }),
{
}

/// Concluding the resubmission of a withdrawal that is no longer tracked changes nothing.
pub proof fn law_untracked_resubmission_changes_nothing(
    ledger: WithdrawalLedger,
    withdrawal: WithdrawalId,
    expired: TransactionId,
    resubmitted: Option<(TransactionId, TransactionView)>,
)
    ensures
        ledger.untrack(withdrawal).on_resubmitted(withdrawal, expired, resubmitted)
            == ledger.untrack(withdrawal),
{
}

proof fn lemma_on_blocks(ledger: WithdrawalLedger, blocks: Seq<BlockView>, confirmation_count: nat)
    requires
        ledger.wf(),
    ensures
        ({
            let after = ledger.on_blocks(blocks, confirmation_count);
            &&& after.wf()
            &&& after.owners == ledger.owners
            &&& after.withdrawals.dom() == ledger.withdrawals.dom()
            &&& after.queue == advanced_by_all(ledger.queue, blocks, confirmation_count)
            &&& forall|w: WithdrawalId| #[trigger]
                ledger.withdrawals.contains_key(w) ==> after.withdrawals[w].current_tx_id
                    == ledger.withdrawals[w].current_tx_id
        }),
    decreases blocks.len(),
{
    if blocks.len() > 0 {
        let before = ledger.on_blocks(blocks.drop_last(), confirmation_count);
        lemma_on_blocks(ledger, blocks.drop_last(), confirmation_count);
        let event = ChainEventView::Block { block: blocks.last() };
        law_events_keep_ledger_wf(before, event, confirmation_count);
        assert forall|w: WithdrawalId| #[trigger]
            ledger.withdrawals.contains_key(w) implies ledger.on_blocks(
            blocks,
            confirmation_count,
        ).withdrawals[w].current_tx_id == ledger.withdrawals[w].current_tx_id by {
            assert(before.withdrawals.contains_key(w));
        }
    }
}

proof fn lemma_confirming_meanwhile(
    ledger: WithdrawalLedger,
    blocks: Seq<BlockView>,
    confirmation_count: nat,
    withdrawal: WithdrawalId,
    k: nat,
)
    requires
        ledger.wf(),
        ledger.queue.len() <= confirmation_count,
        linked(blocks),
        1 <= k <= blocks.len(),
        k <= confirmation_count,
        ledger.withdrawals.contains_key(withdrawal),
        ledger.withdrawals[withdrawal].status is Pending
            || ledger.withdrawals[withdrawal].status is Confirming,
        includes(blocks[0], ledger.withdrawals[withdrawal].current_tx_id),
        forall|i: int|
            0 <= i < confirmed_meanwhile(ledger.queue, blocks[0], k, confirmation_count)
                ==> !includes(
                #[trigger] ledger.queue[i],
                ledger.withdrawals[withdrawal].current_tx_id,
            ),
    ensures
        ledger.on_blocks(blocks.take(k as int), confirmation_count).status(withdrawal) == Some(
            WithdrawalStatus::Confirming {
                transaction: ledger.withdrawals[withdrawal].current_tx_id,
            },
        ),
    decreases k,
{
    let upto = blocks.take(k as int);
    let block = blocks[k - 1];
    assert(upto.drop_last() =~= blocks.take(k - 1));
    assert(upto.last() == block);
    let before = ledger.on_blocks(blocks.take(k - 1), confirmation_count);
    lemma_on_blocks(ledger, blocks.take(k - 1), confirmation_count);
    lemma_kept(ledger.queue, blocks[0].previous_block);
    law_status_after_block(before, block, confirmation_count, withdrawal);
    if k == 1 {
        assert(before == ledger);
    } else {
        lemma_confirming_meanwhile(
            ledger,
            blocks,
            confirmation_count,
            withdrawal,
            (k - 1) as nat,
        );
        lemma_recent_blocks(ledger.queue, blocks, confirmation_count, (k - 1) as nat);
        law_extension_orphans_nothing(before.queue, block);
    }
    if let Some(deep) = confirmed(before.queue, block, confirmation_count) {
        let gone = confirmed_meanwhile(ledger.queue, blocks[0], k, confirmation_count);
        assert(deep == ledger.queue[gone - 1]);
    }
}

/// While the blocks on top of its block are fewer than the confirmation count, a withdrawal that
/// was pending or confirming is confirming, whatever blocks the run orphans, unless its
/// transaction is also in a block that the run confirms meanwhile.
pub proof fn law_withdrawal_is_confirming_meanwhile(
    ledger: WithdrawalLedger,
    blocks: Seq<BlockView>,
    confirmation_count: nat,
    withdrawal: WithdrawalId,
)
    requires
        ledger.wf(),
        ledger.queue.len() <= confirmation_count,
        linked(blocks),
        1 <= blocks.len() <= confirmation_count,
        ledger.withdrawals.contains_key(withdrawal),
        ledger.withdrawals[withdrawal].status is Pending
            || ledger.withdrawals[withdrawal].status is Confirming,
        includes(blocks[0], ledger.withdrawals[withdrawal].current_tx_id),
        forall|i: int|
            0 <= i < confirmed_meanwhile(
                ledger.queue,
                blocks[0],
                blocks.len(),
                confirmation_count,
            ) ==> !includes(
                #[trigger] ledger.queue[i],
                ledger.withdrawals[withdrawal].current_tx_id,
            ),
    ensures
        ledger.on_blocks(blocks, confirmation_count).status(withdrawal) == Some(
            WithdrawalStatus::Confirming {
                transaction: ledger.withdrawals[withdrawal].current_tx_id,
            },
        ),
{
    lemma_confirming_meanwhile(ledger, blocks, confirmation_count, withdrawal, blocks.len());
    assert(blocks.take(blocks.len() as int) =~= blocks);
}

/// A pending or confirming withdrawal whose transaction is in the first of a run of linked
/// blocks, one more than the confirmation count, and in no earlier block that stays queued, is
/// reported when the last of them arrives, and is confirmed then. The blocks that the run orphans
/// may hold the transaction too.
pub proof fn law_withdrawal_is_confirmed_after_enough_blocks(
    ledger: WithdrawalLedger,
    blocks: Seq<BlockView>,
    confirmation_count: nat,
    withdrawal: WithdrawalId,
)
    requires
        ledger.wf(),
        ledger.queue.len() <= confirmation_count,
        linked(blocks),
        blocks.len() == confirmation_count + 1,
        ledger.withdrawals.contains_key(withdrawal),
        ledger.withdrawals[withdrawal].status is Pending
            || ledger.withdrawals[withdrawal].status is Confirming,
        includes(blocks[0], ledger.withdrawals[withdrawal].current_tx_id),
        forall|i: int|
            0 <= i < kept(ledger.queue, blocks[0].previous_block) ==> !includes(
                #[trigger] ledger.queue[i],
                ledger.withdrawals[withdrawal].current_tx_id,
            ),
    ensures
        ({
            let id = ledger.withdrawals[withdrawal].current_tx_id;
            let before = ledger.on_blocks(blocks.drop_last(), confirmation_count);
            &&& exists|t: TransactionView|
                t.transaction_id == Some(id) && #[trigger] before.confirmations(
                    blocks.last(),
                    confirmation_count,
                ).contains((withdrawal, t))
            &&& ledger.on_blocks(blocks, confirmation_count).status(withdrawal) == Some(
                WithdrawalStatus::Confirmed { transaction: id },
            )
        }),
{
    let id = ledger.withdrawals[withdrawal].current_tx_id;
    let n = confirmation_count as int;
    let last = blocks.last();
    let before = ledger.on_blocks(blocks.drop_last(), confirmation_count);
    assert(blocks.drop_last() =~= blocks.take(n));
    lemma_on_blocks(ledger, blocks.drop_last(), confirmation_count);
    law_confirmed_after_enough_blocks(ledger.queue, blocks, confirmation_count);
    law_status_after_block(before, last, confirmation_count, withdrawal);
    let gone = orphans(before.queue, last);
    if n == 0 {
        assert(blocks.drop_last() =~= Seq::<BlockView>::empty());
        assert(blocks[0] == last);
    } else {
        lemma_recent_blocks(ledger.queue, blocks, confirmation_count, confirmation_count);
        lemma_confirming_meanwhile(
            ledger,
            blocks,
            confirmation_count,
            withdrawal,
            confirmation_count,
        );
    }
    law_extension_orphans_nothing(before.queue, last);
    assert(!some_block_includes(gone, id));
    lemma_owned(before, blocks[0].transactions, withdrawal);
    let t = first_owned(blocks[0].transactions, before.owners, withdrawal)->0;
    let settled = before.settled(last);
    lemma_owned(before, last.transactions, withdrawal);
    lemma_unwound(gone, id);
    lemma_owned(before, unwound(gone), withdrawal);
    lemma_newly_confirmed(settled, before.owners, blocks[0].transactions, withdrawal, t);
    assert(before.confirmations(last, confirmation_count).contains((withdrawal, t)));
}

/// As long as every block has its hash, every event is accepted.
pub proof fn law_hashed_blocks_are_accepted(
    ledger: WithdrawalLedger,
    event: ChainEventView,
    confirmation_count: nat,
)
    requires
        forall|i: int| 0 <= i < ledger.queue.len() ==> (#[trigger] ledger.queue[i]).hash is Some,
        event matches ChainEventView::Block { block } ==> block.hash is Some,
    ensures
        ledger.accepts(event),
        ({
            let after = ledger.on_event(event, confirmation_count).queue;
            forall|i: int| 0 <= i < after.len() ==> (#[trigger] after[i]).hash is Some
        }),
{
    if let ChainEventView::Block { block } = event {
        let all = grown(ledger.queue, block);
        lemma_kept(ledger.queue, block.previous_block);
        assert forall|i: int| 0 <= i < all.len() implies (#[trigger] all[i]).hash is Some by {
            if i < all.len() - 1 {
                assert(all[i] == ledger.queue[i]);
            }
        }
        let after = advanced(ledger.queue, block, confirmation_count);
        if all.len() > confirmation_count {
            assert forall|i: int| 0 <= i < after.len() implies (
            #[trigger] after[i]).hash is Some by {
                assert(after[i] == all[i + 1]);
            }
        }
    }
}

} // verus!
