//! Handles outgoing (withdrawal) payments.
use crate::chain::{transactions_view, Block, BlockView, ChainEvent, Transaction, TransactionView};
use crate::chain_interaction::{
    accept_submission, blockchain_error_text, identify, ChainInteractionError,
    IdentifiedTransaction,
};
use crate::confirmation_queue::{grown, kept, orphans, ConfirmationQueue};
use crate::ids::{lemma_pair_order, Private, Public, TransactionId};
use crate::withdrawal_ledger::{
    first_owned, law_events_keep_ledger_wf, law_resubmission_keeps_ledger_wf,
    law_tracking_keeps_ledger_wf, law_untracking_keeps_ledger_wf, moved, newly_confirmed, owner,
    unwound, ResubmissionView, WithdrawalActionView, WithdrawalLedger, WithdrawalStage,
    WithdrawalView,
};
use std::collections::{BTreeMap, HashMap};
use vstd::prelude::*;

verus! {

broadcast use {
    vstd::std_specs::btree::group_btree_axioms,
    vstd::std_specs::hash::group_hash_axioms,
};

/// Stable identifier for a withdrawal that persists across resubmissions: the value of a UUID.
pub type WithdrawalId = u128;

/// Status of any withdrawal transaction.
#[derive(Clone, Copy, PartialEq, Eq, Structural, Debug)]
pub enum WithdrawalStatus {
    /// Waiting in the mempool.
    Pending { transaction: TransactionId },
    /// Added to an unconfirmed block.
    Confirming { transaction: TransactionId },
    /// Expired in the mempool (being resubmitted).
    Expired { transaction: TransactionId },
    /// Confirmed with enough blocks on top.
    Confirmed { transaction: TransactionId },
}

/// Whether `id` is marked as a random UUID: version 4, variant of RFC 9562.
pub open spec fn is_random_uuid(id: WithdrawalId) -> bool {
    id & 0xF000_C000_0000_0000_0000u128 == 0x4000_8000_0000_0000_0000u128
}

/// `uuid::Uuid::new_v4`, as an integer. Nothing is said of the random bits; the version and the
/// variant are always those of a random UUID.
#[verifier::external_body]
fn random_withdrawal_id() -> (id: WithdrawalId)
    ensures
        is_random_uuid(id),
{
    uuid::Uuid::new_v4().as_u128()
}

/// Withdrawal transaction data.
struct WithdrawalData {
    sender_private: Private,
    recipients: Vec<(Public, u64)>,
    status: WithdrawalStatus,
    current_tx_id: TransactionId,
    current_tx: Transaction,
    is_resubmitting: bool,
}

impl View for WithdrawalData {
    type V = WithdrawalView;

    closed spec fn view(&self) -> WithdrawalView {
        WithdrawalView {
            sender_private: self.sender_private,
            recipients: self.recipients@,
            status: self.status,
            current_tx_id: self.current_tx_id,
            current_tx: self.current_tx@,
            is_resubmitting: self.is_resubmitting,
        }
    }
}

/// A withdrawal whose transaction is ready to be submitted.
#[derive(PartialEq, Eq, Debug)]
pub struct PreparedWithdrawal {
    pub withdrawal_id: WithdrawalId,
    pub identified: IdentifiedTransaction,
}

/// A withdrawal that has enough confirmations.
#[derive(PartialEq, Eq, Debug)]
pub struct WithdrawalConfirmation {
    pub withdrawal_id: WithdrawalId,
    pub transaction: Transaction,
}

impl View for WithdrawalConfirmation {
    type V = (WithdrawalId, TransactionView);

    open spec fn view(&self) -> (WithdrawalId, TransactionView) {
        (self.withdrawal_id, self.transaction@)
    }
}

/// What it takes to submit an expired withdrawal anew: release the inputs of `expired_tx`, build
/// a transaction from `sender_private` to `recipients`, and submit it.
#[derive(PartialEq, Eq, Debug)]
pub struct Resubmission {
    pub withdrawal_id: WithdrawalId,
    pub sender_private: Private,
    pub recipients: Vec<(Public, u64)>,
    pub expired_tx_id: TransactionId,
    pub expired_tx: Transaction,
}

impl View for Resubmission {
    type V = ResubmissionView;

    open spec fn view(&self) -> ResubmissionView {
        ResubmissionView {
            withdrawal_id: self.withdrawal_id,
            sender_private: self.sender_private,
            recipients: self.recipients@,
            expired_tx_id: self.expired_tx_id,
            expired_tx: self.expired_tx@,
        }
    }
}

/// What an event calls for.
#[derive(PartialEq, Eq, Debug)]
pub enum WithdrawalAction {
    /// Nothing.
    Idle,
    /// Report the confirmed withdrawals, in this order.
    Confirm { confirmations: Vec<WithdrawalConfirmation> },
    /// Submit the withdrawal anew.
    Resubmit { resubmission: Resubmission },
}

impl View for WithdrawalAction {
    type V = WithdrawalActionView;

    open spec fn view(&self) -> WithdrawalActionView {
        match self {
            WithdrawalAction::Idle => WithdrawalActionView::Idle,
            WithdrawalAction::Confirm { confirmations } => WithdrawalActionView::Confirm {
                confirmations: confirmations@.map_values(|c: WithdrawalConfirmation| c@),
            },
            WithdrawalAction::Resubmit { resubmission } => WithdrawalActionView::Resubmit {
                resubmission: resubmission@,
            },
        }
    }
}

/// The transaction that a resubmission led to, if it led to one.
pub open spec fn resubmitted_view(
    resubmitted: Result<IdentifiedTransaction, ChainInteractionError>,
) -> Option<(TransactionId, TransactionView)> {
    match resubmitted {
        Ok(identified) => Some(identified@),
        Err(_) => None,
    }
}

/// Handles all outgoing withdrawals.
pub struct WithdrawalPaymentProcessor {
    withdrawal_by_id: HashMap<WithdrawalId, WithdrawalData>,
    tx_id_to_withdrawal_id: BTreeMap<(u128, u128), WithdrawalId>,
    block_confirmation_queue: ConfirmationQueue,
}

impl View for WithdrawalPaymentProcessor {
    type V = WithdrawalLedger;

    closed spec fn view(&self) -> WithdrawalLedger {
        WithdrawalLedger {
            withdrawals: Map::new(
                |w: WithdrawalId| self.withdrawal_by_id@.contains_key(w),
                |w: WithdrawalId| self.withdrawal_by_id@[w]@,
            ),
            owners: Map::new(
                |id: TransactionId| self.tx_id_to_withdrawal_id@.contains_key(id.bytes.key_spec()),
                |id: TransactionId| self.tx_id_to_withdrawal_id@[id.bytes.key_spec()],
            ),
            queue: self.block_confirmation_queue@,
        }
    }
}

proof fn lemma_moved_push(
    withdrawals: Map<WithdrawalId, WithdrawalView>,
    owners: Map<TransactionId, WithdrawalId>,
    transactions: Seq<TransactionView>,
    transaction: TransactionView,
    from: WithdrawalStage,
    to: WithdrawalStage,
)
    requires
        from != to,
    ensures
        moved(
            moved(withdrawals, owners, transactions, from, to),
            owners,
            seq![transaction],
            from,
            to,
        ) == moved(withdrawals, owners, transactions.push(transaction), from, to),
{
    let more = transactions.push(transaction);
    let one = seq![transaction];
    assert(more.drop_last() =~= transactions);
    assert(one.drop_last() =~= Seq::<TransactionView>::empty());
    assert forall|w: WithdrawalId| #[trigger]
        first_owned(more, owners, w) == (match first_owned(transactions, owners, w) {
            Some(t) => Some(t),
            None => first_owned(one, owners, w),
        }) by {
        assert(first_owned(one.drop_last(), owners, w) is None);
    }
    assert(moved(moved(withdrawals, owners, transactions, from, to), owners, one, from, to)
        =~= moved(withdrawals, owners, more, from, to));
}

proof fn lemma_moved_add(
    withdrawals: Map<WithdrawalId, WithdrawalView>,
    owners: Map<TransactionId, WithdrawalId>,
    first: Seq<TransactionView>,
    then: Seq<TransactionView>,
    from: WithdrawalStage,
    to: WithdrawalStage,
)
    requires
        from != to,
    ensures
        moved(moved(withdrawals, owners, first, from, to), owners, then, from, to) == moved(
            withdrawals,
            owners,
            first + then,
            from,
            to,
        ),
    decreases then.len(),
{
    let halfway = moved(withdrawals, owners, first, from, to);
    if then.len() == 0 {
        assert(first + then =~= first);
        assert(moved(halfway, owners, then, from, to) =~= halfway);
    } else {
        let rest = then.drop_last();
        lemma_moved_add(withdrawals, owners, first, rest, from, to);
        lemma_moved_push(halfway, owners, rest, then.last(), from, to);
        lemma_moved_push(withdrawals, owners, first + rest, then.last(), from, to);
        assert(rest.push(then.last()) =~= then);
        assert((first + rest).push(then.last()) =~= first + then);
    }
}

proof fn lemma_unwound_push_front(oldest: BlockView, blocks: Seq<BlockView>)
    ensures
        unwound(seq![oldest] + blocks) == unwound(blocks) + oldest.transactions,
    decreases blocks.len(),
{
    let all = seq![oldest] + blocks;
    if blocks.len() == 0 {
        assert(all.drop_last() =~= Seq::<BlockView>::empty());
        assert(unwound(all.drop_last()) =~= Seq::<TransactionView>::empty());
        assert(all.last() == oldest);
        assert(unwound(all) =~= unwound(blocks) + oldest.transactions);
    } else {
        lemma_unwound_push_front(oldest, blocks.drop_last());
        assert(all.drop_last() =~= seq![oldest] + blocks.drop_last());
        assert(all.last() == blocks.last());
        assert(unwound(all) =~= unwound(blocks) + oldest.transactions);
    }
}

/// The recipients of a withdrawal, once more.
fn copy_recipients(recipients: &Vec<(Public, u64)>) -> (copy: Vec<(Public, u64)>)
    ensures
        copy@ == recipients@,
{
    let mut copy: Vec<(Public, u64)> = Vec::new();
    for i in 0..recipients.len()
        invariant
            copy@ == recipients@.take(i as int),
    {
        copy.push(recipients[i]);
    }
    assert(recipients@.take(recipients.len() as int) =~= recipients@);
    copy
}

impl WithdrawalPaymentProcessor {
    /// A processor that tracks no withdrawal.
    pub fn new() -> (processor: Self)
        ensures
            processor@ == WithdrawalLedger::empty(),
            processor@.wf(),
    {
        let processor = WithdrawalPaymentProcessor {
            withdrawal_by_id: HashMap::new(),
            tx_id_to_withdrawal_id: BTreeMap::new(),
            block_confirmation_queue: ConfirmationQueue::new(),
        };
        assert(processor@ =~= WithdrawalLedger::empty());
        processor
    }

    /// Name a withdrawal whose transaction was to be built, by an id that is given.
    pub fn prepare_withdrawal_as(
        withdrawal_id: WithdrawalId,
        built: Result<Transaction, ChainInteractionError>,
    ) -> (prepared: Result<PreparedWithdrawal, ChainInteractionError>)
        ensures
            match built {
                Ok(transaction) => match transaction.transaction_id {
                    Some(id) => {
                        &&& prepared matches Ok(p)
                        &&& p.withdrawal_id == withdrawal_id
                        &&& p.identified@ == (id, transaction@)
                        &&& p.identified.wf()
                    },
                    None => prepared == Err::<PreparedWithdrawal, _>(
                        ChainInteractionError::MissingTransactionId,
                    ),
                },
                Err(error) => prepared == Err::<PreparedWithdrawal, _>(error),
            },
    {
        match identify(built) {
            Ok(identified) => Ok(PreparedWithdrawal { withdrawal_id, identified }),
            Err(error) => Err(error),
        }
    }

    /// Name a withdrawal whose transaction was to be built, by a random id.
    pub fn prepare_withdrawal(
        built: Result<Transaction, ChainInteractionError>,
    ) -> (prepared: Result<PreparedWithdrawal, ChainInteractionError>)
        ensures
            match built {
                Ok(transaction) => match transaction.transaction_id {
                    Some(id) => {
                        &&& prepared matches Ok(p)
                        &&& is_random_uuid(p.withdrawal_id)
                        &&& p.identified@ == (id, transaction@)
                        &&& p.identified.wf()
                    },
                    None => prepared == Err::<PreparedWithdrawal, _>(
                        ChainInteractionError::MissingTransactionId,
                    ),
                },
                Err(error) => prepared == Err::<PreparedWithdrawal, _>(error),
            },
    {
        Self::prepare_withdrawal_as(random_withdrawal_id(), built)
    }

    /// Track a new withdrawal if the chain took its transaction: `accepted` is that transaction,
    /// or why there is none.
    pub fn track_withdrawal(
        &mut self,
        recipients: Vec<(Public, u64)>,
        sender_private: Private,
        withdrawal_id: WithdrawalId,
        accepted: Result<IdentifiedTransaction, ChainInteractionError>,
    ) -> (concluded: Result<WithdrawalId, ChainInteractionError>)
        ensures
            match accepted {
                Ok(identified) => {
                    &&& concluded == Ok::<_, ChainInteractionError>(withdrawal_id)
                    &&& final(self)@ == old(self)@.track(
                        withdrawal_id,
                        sender_private,
                        recipients@,
                        identified@,
                    )
                    &&& ({
                        &&& old(self)@.wf()
                        &&& identified.wf()
                        &&& !old(self)@.withdrawals.contains_key(withdrawal_id)
                        &&& !old(self)@.owners.contains_key(identified.transaction_id)
                    }) ==> final(self)@.wf()
                },
                Err(error) => {
                    &&& concluded == Err::<WithdrawalId, _>(error)
                    &&& final(self)@ == old(self)@
                },
            },
    {
        proof {
            lemma_pair_order();
        }
        let identified = match accepted {
            Ok(identified) => identified,
            Err(error) => {
                return Err(error);
            },
        };
        proof {
            if old(self)@.wf() && identified.wf() {
                law_tracking_keeps_ledger_wf(
                    old(self)@,
                    withdrawal_id,
                    sender_private,
                    recipients@,
                    identified@,
                );
            }
        }
        let tx_id = identified.transaction_id;
        let data = WithdrawalData {
            sender_private,
            recipients,
            status: WithdrawalStatus::Pending { transaction: tx_id },
            current_tx_id: tx_id,
            current_tx: identified.transaction,
            is_resubmitting: false,
        };
        self.withdrawal_by_id.insert(withdrawal_id, data);
        self.tx_id_to_withdrawal_id.insert(tx_id.bytes.key(), withdrawal_id);
        assert(self@ =~= old(self)@.track(
            withdrawal_id,
            sender_private,
            recipients@,
            identified@,
        ));
        Ok(withdrawal_id)
    }

    /// Conclude the submission of a new withdrawal transaction: track it if the chain took it.
    pub fn submit_withdrawal(
        &mut self,
        recipients: Vec<(Public, u64)>,
        sender_private: Private,
        prepared: PreparedWithdrawal,
        submitted: Result<
            Result<(), snap_coin::core::blockchain::BlockchainError>,
            ChainInteractionError,
        >,
    ) -> (withdrawal_id: Result<WithdrawalId, ChainInteractionError>)
        ensures
            match submitted {
                Ok(Ok(())) => {
                    &&& withdrawal_id == Ok::<_, ChainInteractionError>(prepared.withdrawal_id)
                    &&& final(self)@ == old(self)@.track(
                        prepared.withdrawal_id,
                        sender_private,
                        recipients@,
                        prepared.identified@,
                    )
                },
                Ok(Err(refusal)) => {
                    &&& withdrawal_id matches Err(ChainInteractionError::SubmissionFailed(reason))
                    &&& reason@ == blockchain_error_text(refusal)
                    &&& final(self)@ == old(self)@
                },
                Err(error) => {
                    &&& withdrawal_id == Err::<WithdrawalId, _>(error)
                    &&& final(self)@ == old(self)@
                },
            },
            ({
                &&& old(self)@.wf()
                &&& prepared.identified.wf()
                &&& !old(self)@.withdrawals.contains_key(prepared.withdrawal_id)
                &&& !old(self)@.owners.contains_key(prepared.identified.transaction_id)
            }) ==> final(self)@.wf(),
    {
        let accepted = accept_submission(prepared.identified, submitted);
        self.track_withdrawal(recipients, sender_private, prepared.withdrawal_id, accepted)
    }

    /// Stop tracking a withdrawal (e.g., after it's confirmed and processed).
    pub fn untrack_withdrawal(&mut self, withdrawal_id: WithdrawalId)
        ensures
            final(self)@ == old(self)@.untrack(withdrawal_id),
            old(self)@.wf() ==> final(self)@.wf(),
    {
        proof {
            lemma_pair_order();
            if old(self)@.wf() {
                law_untracking_keeps_ledger_wf(old(self)@, withdrawal_id);
            }
        }
        if let Some(data) = self.withdrawal_by_id.remove(&withdrawal_id) {
            self.tx_id_to_withdrawal_id.remove(&data.current_tx_id.bytes.key());
        }
        assert(self@ =~= old(self)@.untrack(withdrawal_id));
    }

    /// Get the status of a withdrawal.
    pub fn get_withdrawal_status(&self, withdrawal_id: WithdrawalId) -> (status: Option<
        WithdrawalStatus,
    >)
        ensures
            status == self@.status(withdrawal_id),
    {
        match self.withdrawal_by_id.get(&withdrawal_id) {
            Some(data) => Some(data.status),
            None => None,
        }
    }

    /// Get the current transaction id for a withdrawal.
    pub fn get_current_tx_id(&self, withdrawal_id: WithdrawalId) -> (id: Option<TransactionId>)
        ensures
            id == if self@.withdrawals.contains_key(withdrawal_id) {
                Some(self@.withdrawals[withdrawal_id].current_tx_id)
            } else {
                None
            },
    {
        match self.withdrawal_by_id.get(&withdrawal_id) {
            Some(data) => Some(data.current_tx_id),
            None => None,
        }
    }

    /// Get the current transaction for a withdrawal.
    pub fn get_current_tx(&self, withdrawal_id: WithdrawalId) -> (transaction: Option<Transaction>)
        ensures
            transaction is Some <==> self@.withdrawals.contains_key(withdrawal_id),
            transaction matches Some(t) ==> t@ == self@.withdrawals[withdrawal_id].current_tx,
    {
        match self.withdrawal_by_id.get(&withdrawal_id) {
            Some(data) => Some(data.current_tx.clone()),
            None => None,
        }
    }

    /// Get all tracked withdrawals and their statuses.
    pub fn get_all_withdrawals(&self) -> (statuses: HashMap<WithdrawalId, WithdrawalStatus>)
        ensures
            statuses@ == Map::new(
                |w: WithdrawalId| self@.withdrawals.contains_key(w),
                |w: WithdrawalId| self@.withdrawals[w].status,
            ),
            forall|w: WithdrawalId|
                self@.status(w) == if #[trigger] statuses@.contains_key(w) {
                    Some(statuses@[w])
                } else {
                    None
                },
    {
        let ghost all = vstd::std_specs::iter::IteratorSpec::remaining(
            &self.withdrawal_by_id.iter(),
        );
        let mut statuses: HashMap<WithdrawalId, WithdrawalStatus> = HashMap::new();
        for entry in iter: self.withdrawal_by_id.iter()
            invariant
                iter.seq() == all,
                forall|i: int|
                    0 <= i < all.len() ==> self.withdrawal_by_id@.contains_key(
                        *(#[trigger] all[i]).0,
                    ) && self.withdrawal_by_id@[*all[i].0] == *all[i].1,
                forall|w: WithdrawalId| #[trigger]
                    statuses@.contains_key(w) ==> self.withdrawal_by_id@.contains_key(w)
                        && statuses@[w] == self.withdrawal_by_id@[w].status,
                forall|i: int|
                    0 <= i < iter.index() ==> statuses@.contains_key(*(#[trigger] all[i]).0),
        {
            statuses.insert(*entry.0, entry.1.status);
        }
        proof {
            assert forall|w: WithdrawalId| #[trigger]
                self.withdrawal_by_id@.contains_key(w) implies statuses@.contains_key(w) by {
                let entry = (&w, &self.withdrawal_by_id@[w]);
                assert(all.contains(entry));
                let i = choose|i: int| 0 <= i < all.len() && all[i] == entry;
                assert(*all[i].0 == w);
            }
            assert(statuses@ =~= Map::new(
                |w: WithdrawalId| self@.withdrawals.contains_key(w),
                |w: WithdrawalId| self@.withdrawals[w].status,
            ));
        }
        statuses
    }

    /// Bring the withdrawal that `transaction` belongs to from stage `from` to stage `to`.
    /// What comes back is its id, if there is one and it was at stage `from`.
    fn advance(
        &mut self,
        transaction: &Transaction,
        from: WithdrawalStage,
        to: WithdrawalStage,
    ) -> (advanced: Option<WithdrawalId>)
        ensures
            final(self)@ == (WithdrawalLedger {
                withdrawals: moved(
                    old(self)@.withdrawals,
                    old(self)@.owners,
                    seq![transaction@],
                    from,
                    to,
                ),
                ..old(self)@
            }),
            advanced == match owner(transaction@, old(self)@.owners) {
                Some(w) => if old(self)@.withdrawals.contains_key(w) && from.includes_spec(
                    old(self)@.withdrawals[w].status,
                ) {
                    Some(w)
                } else {
                    None
                },
                None => None,
            },
    {
        proof {
            lemma_pair_order();
            let one = seq![transaction@];
            assert(one.drop_last() =~= Seq::<TransactionView>::empty());
            assert forall|w: WithdrawalId| #[trigger]
                first_owned(one, self@.owners, w) == (if owner(transaction@, self@.owners) == Some(
                    w,
                ) {
                    Some(transaction@)
                } else {
                    None
                }) by {
                assert(first_owned(one.drop_last(), self@.owners, w) is None);
            }
        }
        let ghost start = self@;
        let ghost after = WithdrawalLedger {
            withdrawals: moved(start.withdrawals, start.owners, seq![transaction@], from, to),
            ..start
        };
        let mut advanced: Option<WithdrawalId> = None;
        if let Some(tx_id) = transaction.transaction_id {
            if let Some(owning) = self.tx_id_to_withdrawal_id.get(&tx_id.bytes.key()) {
                let withdrawal_id = *owning;
                if let Some(mut data) = self.withdrawal_by_id.remove(&withdrawal_id) {
                    if from.includes(&data.status) {
                        data.status = to.status(tx_id);
                        advanced = Some(withdrawal_id);
                    }
                    self.withdrawal_by_id.insert(withdrawal_id, data);
                }
            }
        }
        assert(self@ =~= after);
        advanced
    }

    /// Bring the withdrawals that `transactions` belong to from stage `from` to stage `to`.
    fn advance_all(
        &mut self,
        transactions: &Vec<Transaction>,
        from: WithdrawalStage,
        to: WithdrawalStage,
    )
        requires
            from != to,
        ensures
            final(self)@ == (WithdrawalLedger {
                withdrawals: moved(
                    old(self)@.withdrawals,
                    old(self)@.owners,
                    transactions_view(transactions@),
                    from,
                    to,
                ),
                ..old(self)@
            }),
    {
        let ghost start = self@;
        let ghost all = transactions_view(transactions@);
        assert(moved(start.withdrawals, start.owners, all.take(0), from, to)
            =~= start.withdrawals);
        for i in 0..transactions.len()
            invariant
                from != to,
                all == transactions_view(transactions@),
                self@.owners == start.owners,
                self@.queue == start.queue,
                self@.withdrawals == moved(
                    start.withdrawals,
                    start.owners,
                    all.take(i as int),
                    from,
                    to,
                ),
        {
            proof {
                let tx = transactions@[i as int]@;
                lemma_moved_push(
                    start.withdrawals,
                    start.owners,
                    all.take(i as int),
                    tx,
                    from,
                    to,
                );
                assert(all.take(i + 1) =~= all.take(i as int).push(tx));
            }
            let _ = self.advance(&transactions[i], from, to);
        }
        assert(all.take(all.len() as int) =~= all);
    }

    /// Make the withdrawals of `blocks`, the newest of which comes first, pending again.
    fn revert_all(&mut self, blocks: &Vec<Block>)
        ensures
            final(self)@ == (WithdrawalLedger {
                withdrawals: moved(
                    old(self)@.withdrawals,
                    old(self)@.owners,
                    unwound(blocks@.map_values(|b: Block| b@).reverse()),
                    WithdrawalStage::Confirming,
                    WithdrawalStage::Pending,
                ),
                ..old(self)@
            }),
    {
        let ghost start = self@;
        let ghost all = blocks@.map_values(|b: Block| b@);
        proof {
            assert(all.take(0).reverse() =~= Seq::<BlockView>::empty());
            assert(moved(
                start.withdrawals,
                start.owners,
                unwound(all.take(0).reverse()),
                WithdrawalStage::Confirming,
                WithdrawalStage::Pending,
            ) =~= start.withdrawals);
        }
        for i in 0..blocks.len()
            invariant
                all == blocks@.map_values(|b: Block| b@),
                self@.owners == start.owners,
                self@.queue == start.queue,
                self@.withdrawals == moved(
                    start.withdrawals,
                    start.owners,
                    unwound(all.take(i as int).reverse()),
                    WithdrawalStage::Confirming,
                    WithdrawalStage::Pending,
                ),
        {
            proof {
                let txs = all[i as int].transactions;
                lemma_moved_add(
                    start.withdrawals,
                    start.owners,
                    unwound(all.take(i as int).reverse()),
                    txs,
                    WithdrawalStage::Confirming,
                    WithdrawalStage::Pending,
                );
                lemma_unwound_push_front(all[i as int], all.take(i as int).reverse());
                assert(all.take(i + 1).reverse() =~= seq![all[i as int]] + all.take(
                    i as int,
                ).reverse());
            }
            self.advance_all(
                &blocks[i].transactions,
                WithdrawalStage::Confirming,
                WithdrawalStage::Pending,
            );
        }
        assert(all.take(all.len() as int) =~= all);
    }

    /// Confirm the withdrawals that `transactions` belong to.
    fn confirm_all(&mut self, transactions: &Vec<Transaction>) -> (confirmations: Vec<
        WithdrawalConfirmation,
    >)
        ensures
            final(self)@ == (WithdrawalLedger {
                withdrawals: moved(
                    old(self)@.withdrawals,
                    old(self)@.owners,
                    transactions_view(transactions@),
                    WithdrawalStage::Confirming,
                    WithdrawalStage::Confirmed,
                ),
                ..old(self)@
            }),
            confirmations@.map_values(|c: WithdrawalConfirmation| c@) == newly_confirmed(
                old(self)@.withdrawals,
                old(self)@.owners,
                transactions_view(transactions@),
            ),
    {
        let ghost start = self@;
        let ghost all = transactions_view(transactions@);
        let mut confirmations: Vec<WithdrawalConfirmation> = Vec::new();
        proof {
            assert(moved(
                start.withdrawals,
                start.owners,
                all.take(0),
                WithdrawalStage::Confirming,
                WithdrawalStage::Confirmed,
            ) =~= start.withdrawals);
            assert(confirmations@.map_values(|c: WithdrawalConfirmation| c@) =~= newly_confirmed(
                start.withdrawals,
                start.owners,
                all.take(0),
            ));
        }
        for i in 0..transactions.len()
            invariant
                all == transactions_view(transactions@),
                self@.owners == start.owners,
                self@.queue == start.queue,
                self@.withdrawals == moved(
                    start.withdrawals,
                    start.owners,
                    all.take(i as int),
                    WithdrawalStage::Confirming,
                    WithdrawalStage::Confirmed,
                ),
                confirmations@.map_values(|c: WithdrawalConfirmation| c@) == newly_confirmed(
                    start.withdrawals,
                    start.owners,
                    all.take(i as int),
                ),
        {
            let transaction = &transactions[i];
            let ghost before = confirmations@.map_values(|c: WithdrawalConfirmation| c@);
            proof {
                lemma_moved_push(
                    start.withdrawals,
                    start.owners,
                    all.take(i as int),
                    transaction@,
                    WithdrawalStage::Confirming,
                    WithdrawalStage::Confirmed,
                );
                assert(all.take(i + 1) =~= all.take(i as int).push(transaction@));
                assert(all.take(i + 1).drop_last() =~= all.take(i as int));
            }
            if let Some(withdrawal_id) = self.advance(
                transaction,
                WithdrawalStage::Confirming,
                WithdrawalStage::Confirmed,
            ) {
                let confirmation = WithdrawalConfirmation {
                    withdrawal_id,
                    transaction: transaction.clone(),
                };
                confirmations.push(confirmation);
                assert(confirmations@.map_values(|c: WithdrawalConfirmation| c@) =~= before.push(
                    (withdrawal_id, transaction@),
                ));
            }
        }
        assert(all.take(all.len() as int) =~= all);
        confirmations
    }

    /// Take the expiry of `transaction` into account. What comes back is what it takes to submit
    /// its withdrawal anew, if that is called for.
    fn expire(&mut self, transaction: TransactionId) -> (resubmission: Option<Resubmission>)
        ensures
            final(self)@ == old(self)@.on_expiration(transaction),
            resubmission is Some <==> old(self)@.needs_resubmission(transaction),
            resubmission matches Some(r) ==> r@ == old(self)@.resubmission(transaction),
    {
        proof {
            lemma_pair_order();
        }
        let ghost start = self@;
        let mut resubmission: Option<Resubmission> = None;
        if let Some(owning) = self.tx_id_to_withdrawal_id.get(&transaction.bytes.key()) {
            let withdrawal_id = *owning;
            if let Some(mut data) = self.withdrawal_by_id.remove(&withdrawal_id) {
                if WithdrawalStage::Pending.includes(&data.status) && !data.is_resubmitting {
                    data.status = WithdrawalStatus::Expired { transaction };
                    data.is_resubmitting = true;
                    let due = Resubmission {
                        withdrawal_id,
                        sender_private: data.sender_private,
                        recipients: copy_recipients(&data.recipients),
                        expired_tx_id: transaction,
                        expired_tx: data.current_tx.clone(),
                    };
                    assert(due@ =~= start.resubmission(transaction));
                    resubmission = Some(due);
                }
                self.withdrawal_by_id.insert(withdrawal_id, data);
            }
        }
        assert(self@ =~= start.on_expiration(transaction));
        resubmission
    }

    /// Conclude the resubmission of an expired withdrawal: `resubmitted` is the transaction that
    /// the chain took, or why there is none.
    pub fn finish_resubmission(
        &mut self,
        withdrawal_id: WithdrawalId,
        expired_tx_id: TransactionId,
        resubmitted: Result<IdentifiedTransaction, ChainInteractionError>,
    )
        ensures
            final(self)@ == old(self)@.on_resubmitted(
                withdrawal_id,
                expired_tx_id,
                resubmitted_view(resubmitted),
            ),
            ({
                &&& old(self)@.wf()
                &&& old(self)@.withdrawals.contains_key(withdrawal_id)
                    ==> old(self)@.withdrawals[withdrawal_id].current_tx_id == expired_tx_id
                &&& resubmitted matches Ok(identified) ==> identified.wf() && (
                !old(self)@.owners.contains_key(identified.transaction_id)
                    || identified.transaction_id == expired_tx_id)
            }) ==> final(self)@.wf(),
    {
        proof {
            lemma_pair_order();
        }
        let ghost start = self@;
        let ghost outcome = resubmitted_view(resubmitted);
        proof {
            if start.wf() && (start.withdrawals.contains_key(withdrawal_id)
                ==> start.withdrawals[withdrawal_id].current_tx_id == expired_tx_id) && (
            outcome matches Some(t) ==> t.1.transaction_id == Some(t.0) && (
            !start.owners.contains_key(t.0) || t.0 == expired_tx_id)) {
                law_resubmission_keeps_ledger_wf(start, withdrawal_id, expired_tx_id, outcome);
            }
        }
        if let Some(mut data) = self.withdrawal_by_id.remove(&withdrawal_id) {
            match resubmitted {
                Ok(identified) => {
                    let new_tx_id = identified.transaction_id;
                    self.tx_id_to_withdrawal_id.remove(&expired_tx_id.bytes.key());
                    data.current_tx_id = new_tx_id;
                    data.current_tx = identified.transaction;
                    data.status = WithdrawalStatus::Pending { transaction: new_tx_id };
                    data.is_resubmitting = false;
                    self.tx_id_to_withdrawal_id.insert(new_tx_id.bytes.key(), withdrawal_id);
                },
                Err(_) => {
                    data.is_resubmitting = false;
                },
            }
            self.withdrawal_by_id.insert(withdrawal_id, data);
        }
        assert(self@ =~= start.on_resubmitted(withdrawal_id, expired_tx_id, outcome));
    }

    /// Whether `event` carries every hash that handling it looks at.
    pub fn accepts(&self, event: &ChainEvent) -> (accepted: bool)
        ensures
            accepted == self@.accepts(event@),
    {
        match event {
            ChainEvent::Block { block } => self.block_confirmation_queue.has_hashed_orphans(
                &block.previous_block,
            ),
            _ => true,
        }
    }

    /// Take `event` into account. What comes back is what it calls for.
    pub fn handle_event(
        &mut self,
        event: ChainEvent,
        confirmation_count: usize,
    ) -> (action: WithdrawalAction)
        requires
            old(self)@.accepts(event@),
        ensures
            final(self)@ == old(self)@.on_event(event@, confirmation_count as nat),
            action@ == old(self)@.action(event@, confirmation_count as nat),
            old(self)@.wf() ==> final(self)@.wf(),
    {
        let ghost start = self@;
        proof {
            if start.wf() {
                law_events_keep_ledger_wf(start, event@, confirmation_count as nat);
            }
        }
        match event {
            ChainEvent::Block { block } => {
                let ghost arrived = block@;
                let dropped = self.block_confirmation_queue.drop_orphans(&block.previous_block);
                assert(orphans(start.queue, arrived).reverse().reverse() =~= orphans(
                    start.queue,
                    arrived,
                ));
                self.revert_all(&dropped);
                assert(self@.withdrawals == start.reverted(arrived));
                self.advance_all(
                    &block.transactions,
                    WithdrawalStage::Pending,
                    WithdrawalStage::Confirming,
                );
                assert(self@.withdrawals == start.settled(arrived));
                let deepest = self.block_confirmation_queue.push(block, confirmation_count);
                assert(start.queue.take(
                    kept(start.queue, arrived.previous_block) as int,
                ).push(arrived) == grown(start.queue, arrived));
                let confirmations = match deepest {
                    Some(deep) => self.confirm_all(&deep.transactions),
                    None => Vec::new(),
                };
                assert(confirmations@.map_values(|c: WithdrawalConfirmation| c@)
                    =~= start.confirmations(arrived, confirmation_count as nat));
                WithdrawalAction::Confirm { confirmations }
            },
            ChainEvent::Transaction { .. } => WithdrawalAction::Idle,
            ChainEvent::TransactionExpiration { transaction } => match self.expire(transaction) {
                Some(resubmission) => WithdrawalAction::Resubmit { resubmission },
                None => WithdrawalAction::Idle,
            },
        }
    }
}

} // verus!
