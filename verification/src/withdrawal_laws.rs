//! What the withdrawal processor is for, operation by operation.
use crate::chain::{BlockView, ChainEventView, TransactionView};
use crate::chain_interaction::{ChainInteractionError, IdentifiedTransaction};
use crate::chain_laws::{forks_at, law_queue_after_a_block};
use crate::deposit_laws::oldest_of;
use crate::ids::{Private, Public, TransactionId};
use crate::seq_lemmas::lemma_push_member;
use crate::withdrawal_ledger::{
    first_owned, includes, law_reported_withdrawals, law_status_after_block, newly_confirmed,
    owner, some_block_includes, unwound, ResubmissionView, WithdrawalActionView,
    WithdrawalLedger, WithdrawalView,
};
use crate::withdrawal_payment_processor::{
    resubmitted_view, Resubmission, WithdrawalAction, WithdrawalConfirmation, WithdrawalId,
    WithdrawalStatus,
};
use vstd::prelude::*;

verus! {

/// Whether one of `transactions` carries the given id.
pub open spec fn carries(transactions: Seq<TransactionView>, id: TransactionId) -> bool {
    exists|i: int|
        0 <= i < transactions.len() && (#[trigger] transactions[i]).transaction_id == Some(id)
}

/// Whether the transaction at `i` is the first of `transactions` that carries the given id.
pub open spec fn first_with(transactions: Seq<TransactionView>, id: TransactionId, i: int) -> bool {
    &&& 0 <= i < transactions.len()
    &&& transactions[i].transaction_id == Some(id)
    &&& forall|k: int| 0 <= k < i ==> (#[trigger] transactions[k]).transaction_id != Some(id)
}

/// A new ledger tracks nothing and queues nothing.
pub proof fn law_a_new_withdrawal_ledger_knows_nothing(
    withdrawal: WithdrawalId,
    transaction: TransactionId,
)
    ensures
        !WithdrawalLedger::empty().withdrawals.contains_key(withdrawal),
        !WithdrawalLedger::empty().owners.contains_key(transaction),
        WithdrawalLedger::empty().queue.len() == 0,
{
}

/// The status that is reported is the one on record; of an untracked withdrawal there is none.
pub proof fn law_the_withdrawal_status_is_reported(
    ledger: WithdrawalLedger,
    withdrawal: WithdrawalId,
)
    ensures
        ledger.withdrawals.contains_key(withdrawal) ==> ledger.status(withdrawal) == Some(
            ledger.withdrawals[withdrawal].status,
        ),
        !ledger.withdrawals.contains_key(withdrawal) ==> ledger.status(withdrawal) is None,
{
}

/// A tracked withdrawal holds exactly the sender, the recipients and the transaction that were
/// submitted, is pending on that transaction and owns it. Nothing else changes.
pub proof fn law_tracking_holds_what_was_submitted(
    ledger: WithdrawalLedger,
    withdrawal: WithdrawalId,
    sender_private: Private,
    recipients: Seq<(Public, u64)>,
    transaction: (TransactionId, TransactionView),
    other: WithdrawalId,
    id: TransactionId,
)
    ensures
        ({
            let after = ledger.track(withdrawal, sender_private, recipients, transaction);
            &&& after.withdrawals.contains_key(withdrawal)
            &&& after.withdrawals[withdrawal].sender_private == sender_private
            &&& after.withdrawals[withdrawal].recipients == recipients
            &&& after.withdrawals[withdrawal].status == (WithdrawalStatus::Pending {
                transaction: transaction.0,
            })
            &&& after.withdrawals[withdrawal].current_tx_id == transaction.0
            &&& after.withdrawals[withdrawal].current_tx == transaction.1
            &&& !after.withdrawals[withdrawal].is_resubmitting
            &&& after.owners.contains_key(transaction.0)
            &&& after.owners[transaction.0] == withdrawal
            &&& other != withdrawal ==> {
                &&& after.withdrawals.contains_key(other) == ledger.withdrawals.contains_key(other)
                &&& ledger.withdrawals.contains_key(other) ==> after.withdrawals[other]
                    == ledger.withdrawals[other]
            }
            &&& id != transaction.0 ==> {
                &&& after.owners.contains_key(id) == ledger.owners.contains_key(id)
                &&& ledger.owners.contains_key(id) ==> after.owners[id] == ledger.owners[id]
            }
            &&& after.queue == ledger.queue
        }),
{
}

/// Untracking a withdrawal forgets it and that it owned its current transaction. Nothing else
/// changes, and nothing at all if it was not tracked.
pub proof fn law_untracking_forgets_one_withdrawal(
    ledger: WithdrawalLedger,
    withdrawal: WithdrawalId,
    other: WithdrawalId,
    id: TransactionId,
)
    ensures
        ({
            let after = ledger.untrack(withdrawal);
            &&& !after.withdrawals.contains_key(withdrawal)
            &&& other != withdrawal ==> {
                &&& after.withdrawals.contains_key(other) == ledger.withdrawals.contains_key(other)
                &&& ledger.withdrawals.contains_key(other) ==> after.withdrawals[other]
                    == ledger.withdrawals[other]
            }
            &&& ledger.withdrawals.contains_key(withdrawal)
                && ledger.withdrawals[withdrawal].current_tx_id == id
                ==> !after.owners.contains_key(id)
            &&& !(ledger.withdrawals.contains_key(withdrawal)
                && ledger.withdrawals[withdrawal].current_tx_id == id) ==> {
                &&& after.owners.contains_key(id) == ledger.owners.contains_key(id)
                &&& ledger.owners.contains_key(id) ==> after.owners[id] == ledger.owners[id]
            }
            &&& after.queue == ledger.queue
        }),
{
}

proof fn lemma_first_owned(
    ledger: WithdrawalLedger,
    transactions: Seq<TransactionView>,
    withdrawal: WithdrawalId,
) -> (i: int)
    requires
        ledger.wf(),
        ledger.withdrawals.contains_key(withdrawal),
    ensures
        first_owned(transactions, ledger.owners, withdrawal) is Some ==> first_with(
            transactions,
            ledger.withdrawals[withdrawal].current_tx_id,
            i,
        ) && first_owned(transactions, ledger.owners, withdrawal) == Some(transactions[i]),
        first_owned(transactions, ledger.owners, withdrawal) is None ==> !carries(
            transactions,
            ledger.withdrawals[withdrawal].current_tx_id,
        ),
    decreases transactions.len(),
{
    let id = ledger.withdrawals[withdrawal].current_tx_id;
    if transactions.len() == 0 {
        0
    } else {
        let rest = transactions.drop_last();
        let n = transactions.len() - 1;
        let i = lemma_first_owned(ledger, rest, withdrawal);
        assert(owner(transactions[n], ledger.owners) == Some(withdrawal)
            <==> transactions[n].transaction_id == Some(id));
        assert forall|k: int| 0 <= k < n implies rest[k] == #[trigger] transactions[k] by {}
        if first_owned(rest, ledger.owners, withdrawal) is Some {
            i
        } else {
            assert forall|k: int| 0 <= k < n implies (#[trigger] transactions[k]).transaction_id
                != Some(id) by {
                assert(rest[k].transaction_id != Some(id));
            }
            n
        }
    }
}

/// What a block does to a withdrawal, by where its transaction stands. An expired or a confirmed
/// one stays. A pending one is confirming once the arriving block carries its transaction. A
/// confirming one is pending again if an orphaned block carries its transaction and the arriving
/// one does not. One that is confirming then is confirmed if the block that gets enough
/// confirmations carries its transaction. All else about it stays, and so do the owners.
pub proof fn law_a_block_moves_withdrawals(
    ledger: WithdrawalLedger,
    block: BlockView,
    confirmation_count: nat,
    n: int,
    withdrawal: WithdrawalId,
)
    requires
        ledger.wf(),
        ledger.withdrawals.contains_key(withdrawal),
        forks_at(ledger.queue, block.previous_block, n),
    ensures
        ({
            let before = ledger.withdrawals[withdrawal];
            let id = before.current_tx_id;
            let after = ledger.on_event(ChainEventView::Block { block }, confirmation_count);
            let orphaned = exists|b: int|
                n <= b < ledger.queue.len() && carries(
                    (#[trigger] ledger.queue[b]).transactions,
                    id,
                );
            let arrives = carries(block.transactions, id);
            let deep = n + 1 > confirmation_count && carries(
                oldest_of(ledger.queue, n, block).transactions,
                id,
            );
            let reached = if deep {
                WithdrawalStatus::Confirmed { transaction: id }
            } else {
                WithdrawalStatus::Confirming { transaction: id }
            };
            let status = match before.status {
                WithdrawalStatus::Pending { .. } => if arrives {
                    reached
                } else {
                    before.status
                },
                WithdrawalStatus::Confirming { .. } => if orphaned && !arrives {
                    WithdrawalStatus::Pending { transaction: id }
                } else {
                    reached
                },
                WithdrawalStatus::Expired { .. } => before.status,
                WithdrawalStatus::Confirmed { .. } => before.status,
            };
            &&& after.withdrawals.contains_key(withdrawal)
            &&& after.withdrawals[withdrawal].status == status
            &&& after.withdrawals[withdrawal].sender_private == before.sender_private
            &&& after.withdrawals[withdrawal].recipients == before.recipients
            &&& after.withdrawals[withdrawal].current_tx_id == before.current_tx_id
            &&& after.withdrawals[withdrawal].current_tx == before.current_tx
            &&& after.withdrawals[withdrawal].is_resubmitting == before.is_resubmitting
        }),
{
    let id = ledger.withdrawals[withdrawal].current_tx_id;
    let gone = ledger.queue.skip(n);
    law_queue_after_a_block(ledger.queue, block, confirmation_count, n);
    law_status_after_block(ledger, block, confirmation_count, withdrawal);
    assert(includes(block, id) == carries(block.transactions, id));
    let oldest = oldest_of(ledger.queue, n, block);
    assert(includes(oldest, id) == carries(oldest.transactions, id));
    if some_block_includes(gone, id) {
        let b = choose|b: int| 0 <= b < gone.len() && includes(#[trigger] gone[b], id);
        assert(carries(ledger.queue[b + n].transactions, id));
    }
    if exists|b: int|
        n <= b < ledger.queue.len() && carries((#[trigger] ledger.queue[b]).transactions, id) {
        let b = choose|b: int|
            n <= b < ledger.queue.len() && carries((#[trigger] ledger.queue[b]).transactions, id);
        assert(gone[b - n] == ledger.queue[b]);
        assert(includes(gone[b - n], id));
    }
}

/// Whether `transaction` carries an id that `withdrawal` owns.
pub open spec fn owned_by(
    ledger: WithdrawalLedger,
    withdrawal: WithdrawalId,
    transaction: TransactionView,
) -> bool {
    transaction.transaction_id matches Some(id) && ledger.owners.contains_key(id)
        && ledger.owners[id] == withdrawal
}

/// Whether one of `transactions` carries an id that `withdrawal` owns.
pub open spec fn owns_one(
    ledger: WithdrawalLedger,
    withdrawal: WithdrawalId,
    transactions: Seq<TransactionView>,
) -> bool {
    exists|i: int|
        0 <= i < transactions.len() && owned_by(ledger, withdrawal, #[trigger] transactions[i])
}

proof fn lemma_owns_one(
    ledger: WithdrawalLedger,
    withdrawal: WithdrawalId,
    transactions: Seq<TransactionView>,
)
    ensures
        first_owned(transactions, ledger.owners, withdrawal) is Some <==> owns_one(
            ledger,
            withdrawal,
            transactions,
        ),
        first_owned(transactions, ledger.owners, withdrawal) matches Some(t) ==> owned_by(
            ledger,
            withdrawal,
            t,
        ) && transactions.contains(t),
    decreases transactions.len(),
{
    if transactions.len() > 0 {
        let rest = transactions.drop_last();
        let n = transactions.len() - 1;
        lemma_owns_one(ledger, withdrawal, rest);
        assert(transactions[n] == transactions.last());
        if let Some(t) = first_owned(transactions, ledger.owners, withdrawal) {
            lemma_push_member(rest, transactions.last(), t);
            assert(rest.push(transactions.last()) =~= transactions);
        }
        if owns_one(ledger, withdrawal, rest) {
            let i = choose|i: int|
                0 <= i < rest.len() && owned_by(ledger, withdrawal, #[trigger] rest[i]);
            assert(transactions[i] == rest[i]);
        }
        if owns_one(ledger, withdrawal, transactions) {
            let i = choose|i: int|
                0 <= i < transactions.len() && owned_by(
                    ledger,
                    withdrawal,
                    #[trigger] transactions[i],
                );
            if i < n {
                assert(rest[i] == transactions[i]);
            }
        }
    }
}

proof fn lemma_owns_one_of(
    ledger: WithdrawalLedger,
    withdrawal: WithdrawalId,
    blocks: Seq<BlockView>,
)
    ensures
        owns_one(ledger, withdrawal, unwound(blocks)) <==> exists|b: int|
            0 <= b < blocks.len() && owns_one(
                ledger,
                withdrawal,
                (#[trigger] blocks[b]).transactions,
            ),
    decreases blocks.len(),
{
    if blocks.len() > 0 {
        let rest = blocks.drop_last();
        let n = blocks.len() - 1;
        let newest = blocks[n].transactions;
        let all = unwound(blocks);
        lemma_owns_one_of(ledger, withdrawal, rest);
        assert(blocks.last() == blocks[n]);
        assert(all == newest + unwound(rest));
        assert forall|b: int| 0 <= b < n implies rest[b] == #[trigger] blocks[b] by {}
        if owns_one(ledger, withdrawal, newest) {
            let i = choose|i: int|
                0 <= i < newest.len() && owned_by(ledger, withdrawal, #[trigger] newest[i]);
            assert(all[i] == newest[i]);
        }
        if owns_one(ledger, withdrawal, unwound(rest)) {
            let older = unwound(rest);
            let i = choose|i: int|
                0 <= i < older.len() && owned_by(ledger, withdrawal, #[trigger] older[i]);
            assert(all[newest.len() + i] == older[i]);
            let b = choose|b: int|
                0 <= b < rest.len() && owns_one(
                    ledger,
                    withdrawal,
                    (#[trigger] rest[b]).transactions,
                );
            assert(owns_one(ledger, withdrawal, blocks[b].transactions));
        }
        if owns_one(ledger, withdrawal, all) && !owns_one(ledger, withdrawal, newest) {
            let i = choose|i: int|
                0 <= i < all.len() && owned_by(ledger, withdrawal, #[trigger] all[i]);
            if i < newest.len() {
                assert(all[i] == newest[i]);
            } else {
                assert(unwound(rest)[i - newest.len()] == all[i]);
            }
        }
        if exists|b: int|
            0 <= b < blocks.len() && owns_one(
                ledger,
                withdrawal,
                (#[trigger] blocks[b]).transactions,
            ) {
            let b = choose|b: int|
                0 <= b < blocks.len() && owns_one(
                    ledger,
                    withdrawal,
                    (#[trigger] blocks[b]).transactions,
                );
            if b < n {
                assert(owns_one(ledger, withdrawal, rest[b].transactions));
            }
        }
    }
}

/// What a block does to a withdrawal of any ledger, by the ids that it owns: whether it is
/// pending, confirming, expired or confirmed then. One that no block at hand concerns keeps its
/// status, and every one keeps all but its status.
pub proof fn law_a_block_moves_the_owners(
    ledger: WithdrawalLedger,
    block: BlockView,
    confirmation_count: nat,
    n: int,
    withdrawal: WithdrawalId,
)
    requires
        ledger.withdrawals.contains_key(withdrawal),
        forks_at(ledger.queue, block.previous_block, n),
    ensures
        ({
            let before = ledger.withdrawals[withdrawal];
            let after = ledger.on_event(
                ChainEventView::Block { block },
                confirmation_count,
            ).withdrawals[withdrawal];
            let orphaned = exists|b: int|
                n <= b < ledger.queue.len() && owns_one(
                    ledger,
                    withdrawal,
                    (#[trigger] ledger.queue[b]).transactions,
                );
            let arrives = owns_one(ledger, withdrawal, block.transactions);
            let deep = n + 1 > confirmation_count && owns_one(
                ledger,
                withdrawal,
                oldest_of(ledger.queue, n, block).transactions,
            );
            let in_block = before.status is Pending && arrives || before.status is Confirming && (
            !orphaned || arrives);
            &&& after == WithdrawalView { status: after.status, ..before }
            &&& after.status is Confirmed <==> before.status is Confirmed || in_block && deep
            &&& after.status is Confirming <==> in_block && !deep
            &&& after.status is Expired <==> before.status is Expired
            &&& before.status is Expired || before.status is Confirmed || !orphaned && !arrives
                && !deep ==> after.status == before.status
        }),
{
    let gone = ledger.queue.skip(n);
    law_queue_after_a_block(ledger.queue, block, confirmation_count, n);
    lemma_owns_one(ledger, withdrawal, unwound(gone));
    lemma_owns_one_of(ledger, withdrawal, gone);
    lemma_owns_one(ledger, withdrawal, block.transactions);
    lemma_owns_one(ledger, withdrawal, oldest_of(ledger.queue, n, block).transactions);
    assert forall|b: int| 0 <= b < gone.len() implies ledger.queue[b + n]
        == #[trigger] gone[b] by {}
    assert forall|b: int| n <= b < ledger.queue.len() implies gone[b - n]
        == #[trigger] ledger.queue[b] by {}
}

/// What a block calls for, in any ledger: the report of exactly the withdrawals that it turns
/// confirmed, each once and with a transaction of the confirmed block that it owns.
pub proof fn law_a_block_reports_the_owners(
    ledger: WithdrawalLedger,
    block: BlockView,
    confirmation_count: nat,
    n: int,
    withdrawal: WithdrawalId,
    transaction: TransactionView,
)
    requires
        forks_at(ledger.queue, block.previous_block, n),
    ensures
        ({
            let event = ChainEventView::Block { block };
            let after = ledger.on_event(event, confirmation_count);
            let turned = {
                &&& ledger.withdrawals.contains_key(withdrawal)
                &&& !(ledger.withdrawals[withdrawal].status is Confirmed)
                &&& after.withdrawals[withdrawal].status is Confirmed
            };
            &&& ledger.action(event, confirmation_count) matches WithdrawalActionView::Confirm {
                confirmations,
            }
            &&& confirmations.contains((withdrawal, transaction)) ==> {
                &&& turned
                &&& after.withdrawals[withdrawal].status == (WithdrawalStatus::Confirmed {
                    transaction: transaction.transaction_id->0,
                })
                &&& n + 1 > confirmation_count
                &&& oldest_of(ledger.queue, n, block).transactions.contains(transaction)
                &&& owned_by(ledger, withdrawal, transaction)
            }
            &&& turned ==> exists|t: TransactionView| #[trigger]
                confirmations.contains((withdrawal, t))
            &&& forall|x: int, y: int|
                0 <= x < y < confirmations.len() ==> (#[trigger] confirmations[x]).0 != (
                #[trigger] confirmations[y]).0
        }),
{
    law_queue_after_a_block(ledger.queue, block, confirmation_count, n);
    law_reported_withdrawals(ledger, block, confirmation_count, withdrawal, transaction);
    lemma_owns_one(ledger, withdrawal, oldest_of(ledger.queue, n, block).transactions);
    if ledger.withdrawals.contains_key(withdrawal) {
        law_a_block_moves_the_owners(ledger, block, confirmation_count, n, withdrawal);
    }
}

/// A block tracks and untracks nothing, changes no owner, drops the blocks above the one it stands
/// on, comes on top of the rest, and lets the oldest go if they are then more than the
/// confirmation count.
pub proof fn law_a_block_keeps_the_withdrawals(
    ledger: WithdrawalLedger,
    block: BlockView,
    confirmation_count: nat,
    n: int,
    withdrawal: WithdrawalId,
)
    requires
        forks_at(ledger.queue, block.previous_block, n),
    ensures
        ({
            let after = ledger.on_event(ChainEventView::Block { block }, confirmation_count);
            &&& after.withdrawals.contains_key(withdrawal) == ledger.withdrawals.contains_key(
                withdrawal,
            )
            &&& after.owners == ledger.owners
            &&& after.queue == if n + 1 > confirmation_count {
                ledger.queue.take(n).push(block).skip(1)
            } else {
                ledger.queue.take(n).push(block)
            }
        }),
{
    law_queue_after_a_block(ledger.queue, block, confirmation_count, n);
}

proof fn lemma_reported_in_order(
    withdrawals: Map<WithdrawalId, WithdrawalView>,
    owners: Map<TransactionId, WithdrawalId>,
    transactions: Seq<TransactionView>,
    x: int,
    y: int,
    p: int,
) -> (q: int)
    requires
        0 <= x < y < newly_confirmed(withdrawals, owners, transactions).len(),
        0 <= p < transactions.len(),
        owner(transactions[p], owners) == Some(
            newly_confirmed(withdrawals, owners, transactions)[y].0,
        ),
    ensures
        0 <= q < p,
        owner(transactions[q], owners) == Some(
            newly_confirmed(withdrawals, owners, transactions)[x].0,
        ),
    decreases transactions.len(),
{
    let rest = transactions.drop_last();
    let before = newly_confirmed(withdrawals, owners, rest);
    let all = newly_confirmed(withdrawals, owners, transactions);
    let n = transactions.len() - 1;
    assert(all[x] == before[x]);
    if y < before.len() && p < n {
        assert(rest[p] == transactions[p]);
        let q = lemma_reported_in_order(withdrawals, owners, rest, x, y, p);
        assert(rest[q] == transactions[q]);
        q
    } else {
        let q = lemma_reported_has_place(withdrawals, owners, rest, x);
        assert(rest[q] == transactions[q]);
        if p < n {
            assert(all[y].0 == owner(transactions[n], owners)->0);
            lemma_unowned(rest, owners, all[y].0, p);
        }
        q
    }
}

proof fn lemma_unowned(
    transactions: Seq<TransactionView>,
    owners: Map<TransactionId, WithdrawalId>,
    withdrawal: WithdrawalId,
    p: int,
)
    requires
        first_owned(transactions, owners, withdrawal) is None,
        0 <= p < transactions.len(),
    ensures
        owner(transactions[p], owners) != Some(withdrawal),
    decreases transactions.len(),
{
    if p < transactions.len() - 1 {
        lemma_unowned(transactions.drop_last(), owners, withdrawal, p);
    }
}

proof fn lemma_reported_has_place(
    withdrawals: Map<WithdrawalId, WithdrawalView>,
    owners: Map<TransactionId, WithdrawalId>,
    transactions: Seq<TransactionView>,
    x: int,
) -> (q: int)
    requires
        0 <= x < newly_confirmed(withdrawals, owners, transactions).len(),
    ensures
        0 <= q < transactions.len(),
        owner(transactions[q], owners) == Some(
            newly_confirmed(withdrawals, owners, transactions)[x].0,
        ),
    decreases transactions.len(),
{
    let rest = transactions.drop_last();
    let before = newly_confirmed(withdrawals, owners, rest);
    if x < before.len() {
        let q = lemma_reported_has_place(withdrawals, owners, rest, x);
        assert(rest[q] == transactions[q]);
        q
    } else {
        transactions.len() - 1
    }
}

/// What a block calls for: the report of exactly the withdrawals that it turns confirmed, whatever
/// the block itself holds, each with the first transaction of the confirmed block that carries its
/// id.
pub proof fn law_a_block_reports_what_it_confirms(
    ledger: WithdrawalLedger,
    block: BlockView,
    confirmation_count: nat,
    n: int,
    withdrawal: WithdrawalId,
    transaction: TransactionView,
)
    requires
        ledger.wf(),
        forks_at(ledger.queue, block.previous_block, n),
    ensures
        ({
            let event = ChainEventView::Block { block };
            let after = ledger.on_event(event, confirmation_count);
            let deep = oldest_of(ledger.queue, n, block).transactions;
            let turned = {
                &&& ledger.withdrawals.contains_key(withdrawal)
                &&& !(ledger.withdrawals[withdrawal].status is Confirmed)
                &&& after.withdrawals[withdrawal].status is Confirmed
            };
            let id = ledger.withdrawals[withdrawal].current_tx_id;
            &&& ledger.action(event, confirmation_count) matches WithdrawalActionView::Confirm {
                confirmations,
            }
            &&& confirmations.contains((withdrawal, transaction)) <==> turned && exists|i: int|
                #![trigger deep[i]]
                first_with(deep, id, i) && deep[i] == transaction
            &&& turned ==> exists|i: int|
                #![trigger deep[i]]
                first_with(deep, id, i) && confirmations.contains((withdrawal, deep[i]))
        }),
{
    let event = ChainEventView::Block { block };
    let after = ledger.on_event(event, confirmation_count);
    let deep = oldest_of(ledger.queue, n, block).transactions;
    let reported = ledger.confirmations(block, confirmation_count);
    law_queue_after_a_block(ledger.queue, block, confirmation_count, n);
    law_reported_withdrawals(ledger, block, confirmation_count, withdrawal, transaction);
    if ledger.withdrawals.contains_key(withdrawal) {
        let id = ledger.withdrawals[withdrawal].current_tx_id;
        law_a_block_moves_withdrawals(ledger, block, confirmation_count, n, withdrawal);
        let i = lemma_first_owned(ledger, deep, withdrawal);
        if !(ledger.withdrawals[withdrawal].status is Confirmed)
            && after.withdrawals[withdrawal].status is Confirmed {
            let t = choose|t: TransactionView| #[trigger] reported.contains((withdrawal, t));
            law_reported_withdrawals(ledger, block, confirmation_count, withdrawal, t);
            assert(first_with(deep, id, i) && deep[i] == t);
            assert forall|k: int| #![trigger deep[k]] first_with(deep, id, k) implies k == i by {
                if k < i {
                    assert(deep[k].transaction_id != Some(id));
                }
                if i < k {
                    assert(deep[i].transaction_id != Some(id));
                }
            }
        }
    }
}

/// A block reports no withdrawal twice, and reports them in the order in which the confirmed block
/// first carries their transactions.
pub proof fn law_reports_are_in_order(
    ledger: WithdrawalLedger,
    block: BlockView,
    confirmation_count: nat,
    n: int,
    x: int,
    y: int,
    p: int,
)
    requires
        ledger.wf(),
        forks_at(ledger.queue, block.previous_block, n),
    ensures
        ({
            let deep = oldest_of(ledger.queue, n, block).transactions;
            ledger.action(
                ChainEventView::Block { block },
                confirmation_count,
            ) matches WithdrawalActionView::Confirm { confirmations } && (0 <= x < y
                < confirmations.len() ==> {
                &&& confirmations[x].0 != confirmations[y].0
                &&& 0 <= p < deep.len() && deep[p].transaction_id == Some(
                    ledger.withdrawals[confirmations[y].0].current_tx_id,
                ) ==> exists|q: int|
                    0 <= q < p && (#[trigger] deep[q]).transaction_id == Some(
                        ledger.withdrawals[confirmations[x].0].current_tx_id,
                    )
            })
        }),
{
    let deep = oldest_of(ledger.queue, n, block).transactions;
    let reported = ledger.confirmations(block, confirmation_count);
    law_queue_after_a_block(ledger.queue, block, confirmation_count, n);
    if 0 <= x < y < reported.len() {
        let (v, w) = (reported[x], reported[y]);
        assert(reported.contains(v));
        assert(reported.contains(w));
        law_reported_withdrawals(ledger, block, confirmation_count, v.0, v.1);
        law_reported_withdrawals(ledger, block, confirmation_count, w.0, w.1);
        assert(ledger.withdrawals.contains_key(v.0));
        assert(ledger.withdrawals.contains_key(w.0));
        if 0 <= p < deep.len() && deep[p].transaction_id == Some(
            ledger.withdrawals[w.0].current_tx_id,
        ) {
            let q = lemma_reported_in_order(
                ledger.settled(block),
                ledger.owners,
                deep,
                x,
                y,
                p,
            );
            assert(deep[q].transaction_id == Some(ledger.withdrawals[v.0].current_tx_id));
        }
    }
}

/// A transaction that enters the mempool changes nothing and calls for nothing.
pub proof fn law_the_mempool_leaves_withdrawals_alone(
    ledger: WithdrawalLedger,
    transaction: TransactionView,
    confirmation_count: nat,
)
    ensures
        ledger.on_event(ChainEventView::Transaction { transaction }, confirmation_count) == ledger,
        ledger.action(ChainEventView::Transaction { transaction }, confirmation_count)
            == WithdrawalActionView::Idle,
{
}

/// The expiry of the transaction that a withdrawal is pending on makes the withdrawal expired and
/// calls for its resubmission, under its id, from its sender, to all of its recipients, with the
/// transaction that expired. Everything else stays.
pub proof fn law_a_pending_withdrawal_is_resubmitted(
    ledger: WithdrawalLedger,
    transaction: TransactionId,
    confirmation_count: nat,
    withdrawal: WithdrawalId,
    other: WithdrawalId,
)
    requires
        ledger.wf(),
        ledger.withdrawals.contains_key(withdrawal),
        ledger.withdrawals[withdrawal].status == (WithdrawalStatus::Pending { transaction }),
    ensures
        ({
            let event = ChainEventView::TransactionExpiration { transaction };
            let before = ledger.withdrawals[withdrawal];
            let after = ledger.on_event(event, confirmation_count);
            &&& after.withdrawals.contains_key(withdrawal)
            &&& after.withdrawals[withdrawal].status == (WithdrawalStatus::Expired { transaction })
            &&& after.withdrawals[withdrawal].is_resubmitting
            &&& after.withdrawals[withdrawal].sender_private == before.sender_private
            &&& after.withdrawals[withdrawal].recipients == before.recipients
            &&& after.withdrawals[withdrawal].current_tx_id == before.current_tx_id
            &&& after.withdrawals[withdrawal].current_tx == before.current_tx
            &&& other != withdrawal ==> {
                &&& after.withdrawals.contains_key(other) == ledger.withdrawals.contains_key(other)
                &&& ledger.withdrawals.contains_key(other) ==> after.withdrawals[other]
                    == ledger.withdrawals[other]
            }
            &&& after.owners == ledger.owners
            &&& after.queue == ledger.queue
            &&& ledger.action(event, confirmation_count) matches WithdrawalActionView::Resubmit {
                resubmission,
            }
            &&& resubmission.withdrawal_id == withdrawal
            &&& resubmission.sender_private == before.sender_private
            &&& resubmission.recipients == before.recipients
            &&& resubmission.expired_tx_id == transaction
            &&& resubmission.expired_tx == before.current_tx
        }),
{
    assert(ledger.owners.contains_key(ledger.withdrawals[withdrawal].current_tx_id));
}

/// An expiry calls for a resubmission, in any ledger, exactly when the withdrawal that owns the
/// transaction is tracked, is pending and is not being resubmitted; otherwise it changes nothing.
pub proof fn law_an_expiry_concerns_the_owner(
    ledger: WithdrawalLedger,
    transaction: TransactionId,
    confirmation_count: nat,
    withdrawal: WithdrawalId,
)
    requires
        ledger.owners.contains_key(transaction) ==> ledger.owners[transaction] == withdrawal,
    ensures
        ({
            let event = ChainEventView::TransactionExpiration { transaction };
            let before = ledger.withdrawals[withdrawal];
            let after = ledger.on_event(event, confirmation_count);
            let due = ledger.owners.contains_key(transaction) && ledger.withdrawals.contains_key(
                withdrawal,
            ) && before.status is Pending && !before.is_resubmitting;
            &&& due ==> after.withdrawals[withdrawal] == WithdrawalView {
                status: WithdrawalStatus::Expired { transaction },
                is_resubmitting: true,
                ..before
            }
            &&& due ==> ledger.action(event, confirmation_count) == (
            WithdrawalActionView::Resubmit {
                resubmission: ResubmissionView {
                    withdrawal_id: withdrawal,
                    sender_private: before.sender_private,
                    recipients: before.recipients,
                    expired_tx_id: transaction,
                    expired_tx: before.current_tx,
                },
            })
            &&& !due ==> after == ledger && ledger.action(event, confirmation_count)
                == WithdrawalActionView::Idle
        }),
{
}

/// The expiry of a transaction that no withdrawal is pending on changes nothing and calls for
/// nothing.
pub proof fn law_other_expiries_are_ignored(
    ledger: WithdrawalLedger,
    transaction: TransactionId,
    confirmation_count: nat,
)
    requires
        ledger.wf(),
        forall|w: WithdrawalId| #[trigger]
            ledger.withdrawals.contains_key(w) ==> ledger.withdrawals[w].status != (
            WithdrawalStatus::Pending { transaction }),
    ensures
        ({
            let event = ChainEventView::TransactionExpiration { transaction };
            &&& ledger.on_event(event, confirmation_count) == ledger
            &&& ledger.action(event, confirmation_count) == WithdrawalActionView::Idle
        }),
{
    if ledger.owners.contains_key(transaction) {
        assert(ledger.withdrawals.contains_key(ledger.owners[transaction]));
    }
}

/// A resubmission that led to a transaction makes the withdrawal pending on it: it holds and owns
/// the new transaction, no longer owns the expired one, and keeps its sender and recipients. One
/// that failed only ends the resubmission. Nothing else changes, and nothing at all if the
/// withdrawal is not tracked.
pub proof fn law_concluding_a_resubmission(
    ledger: WithdrawalLedger,
    withdrawal: WithdrawalId,
    expired: TransactionId,
    transaction: (TransactionId, TransactionView),
    other: WithdrawalId,
    id: TransactionId,
)
    ensures
        ({
            let before = ledger.withdrawals[withdrawal];
            let done = ledger.on_resubmitted(withdrawal, expired, Some(transaction));
            let failed = ledger.on_resubmitted(withdrawal, expired, None);
            if ledger.withdrawals.contains_key(withdrawal) {
                &&& done.withdrawals.contains_key(withdrawal)
                &&& done.withdrawals[withdrawal].sender_private == before.sender_private
                &&& done.withdrawals[withdrawal].recipients == before.recipients
                &&& done.withdrawals[withdrawal].status == (WithdrawalStatus::Pending {
                    transaction: transaction.0,
                })
                &&& done.withdrawals[withdrawal].current_tx_id == transaction.0
                &&& done.withdrawals[withdrawal].current_tx == transaction.1
                &&& !done.withdrawals[withdrawal].is_resubmitting
                &&& done.owners.contains_key(transaction.0)
                &&& done.owners[transaction.0] == withdrawal
                &&& expired != transaction.0 ==> !done.owners.contains_key(expired)
                &&& id != transaction.0 && id != expired ==> {
                    &&& done.owners.contains_key(id) == ledger.owners.contains_key(id)
                    &&& ledger.owners.contains_key(id) ==> done.owners[id] == ledger.owners[id]
                }
                &&& other != withdrawal ==> {
                    &&& done.withdrawals.contains_key(other) == ledger.withdrawals.contains_key(
                        other,
                    )
                    &&& ledger.withdrawals.contains_key(other) ==> done.withdrawals[other]
                        == ledger.withdrawals[other]
                    &&& failed.withdrawals.contains_key(other) == ledger.withdrawals.contains_key(
                        other,
                    )
                    &&& ledger.withdrawals.contains_key(other) ==> failed.withdrawals[other]
                        == ledger.withdrawals[other]
                }
                &&& done.queue == ledger.queue
                &&& failed.withdrawals.contains_key(withdrawal)
                &&& failed.withdrawals[withdrawal].sender_private == before.sender_private
                &&& failed.withdrawals[withdrawal].recipients == before.recipients
                &&& failed.withdrawals[withdrawal].status == before.status
                &&& failed.withdrawals[withdrawal].current_tx_id == before.current_tx_id
                &&& failed.withdrawals[withdrawal].current_tx == before.current_tx
                &&& !failed.withdrawals[withdrawal].is_resubmitting
                &&& failed.owners == ledger.owners
                &&& failed.queue == ledger.queue
            } else {
                &&& done == ledger
                &&& failed == ledger
            }
        }),
{
}

/// Exactly these events are accepted: every one but a block that orphans one without a hash.
pub proof fn law_accepted_withdrawal_events(
    ledger: WithdrawalLedger,
    block: BlockView,
    transaction: TransactionView,
    expired: TransactionId,
    n: int,
)
    requires
        forks_at(ledger.queue, block.previous_block, n),
    ensures
        ledger.accepts(ChainEventView::Transaction { transaction }),
        ledger.accepts(ChainEventView::TransactionExpiration { transaction: expired }),
        ledger.accepts(ChainEventView::Block { block }) <==> forall|b: int|
            n <= b < ledger.queue.len() ==> (#[trigger] ledger.queue[b]).hash is Some,
{
    law_queue_after_a_block(ledger.queue, block, 0, n);
}

/// The view of a reported withdrawal holds its id and the whole transaction.
pub proof fn law_withdrawal_confirmation_view(confirmation: WithdrawalConfirmation)
    ensures
        confirmation@.0 == confirmation.withdrawal_id,
        confirmation@.1 == confirmation.transaction@,
{
}

/// The view of a resubmission holds all that the resubmission holds.
pub proof fn law_resubmission_view(resubmission: Resubmission)
    ensures
        resubmission@ == (ResubmissionView {
            withdrawal_id: resubmission.withdrawal_id,
            sender_private: resubmission.sender_private,
            recipients: resubmission.recipients@,
            expired_tx_id: resubmission.expired_tx_id,
            expired_tx: resubmission.expired_tx@,
        }),
{
}

/// The view of an action is of the same kind and holds every confirmation in its place, or the
/// resubmission.
pub proof fn law_action_view(action: WithdrawalAction)
    ensures
        action is Idle ==> action@ == WithdrawalActionView::Idle,
        action matches WithdrawalAction::Confirm { confirmations } ==> {
            &&& action@ matches WithdrawalActionView::Confirm { confirmations: seen }
            &&& seen.len() == confirmations@.len()
            &&& forall|i: int|
                0 <= i < seen.len() ==> #[trigger] seen[i] == confirmations@[i]@
        },
        action matches WithdrawalAction::Resubmit { resubmission } ==> action@ == (
        WithdrawalActionView::Resubmit { resubmission: resubmission@ }),
{
}

/// A resubmission led to a transaction exactly when it came out well, and then to that one.
pub proof fn law_resubmitted_view(
    resubmitted: Result<IdentifiedTransaction, ChainInteractionError>,
)
    ensures
        resubmitted matches Ok(identified) ==> resubmitted_view(resubmitted) == Some(
            (identified.transaction_id, identified.transaction@),
        ),
        resubmitted is Err ==> resubmitted_view(resubmitted) is None,
{
}

} // verus!
