use snap_coin_pay::chain::{Block, ChainEvent, Transaction, TransactionInput, TransactionOutput};
use snap_coin_pay::chain_interaction::{ChainInteractionError, IdentifiedTransaction};
use snap_coin_pay::ids::{Bytes32, Digest, Private, Public};
use snap_coin_pay::withdrawal_payment_processor::{
    PreparedWithdrawal, Resubmission, WithdrawalAction, WithdrawalConfirmation, WithdrawalId,
    WithdrawalPaymentProcessor, WithdrawalStatus,
};

fn hash(tag: u8) -> Digest {
    Digest { bytes: Bytes32::from_bytes(&[tag; 32]) }
}

fn receiver() -> Public {
    Public { bytes: Bytes32::from_bytes(&[200; 32]) }
}

fn sender() -> Private {
    Private { bytes: Bytes32::from_bytes(&[201; 32]) }
}

fn tx(id: u8) -> Transaction {
    Transaction {
        inputs: vec![TransactionInput {
            transaction_id: hash(90),
            output_index: 4,
            signature: None,
            output_owner: receiver(),
        }],
        outputs: vec![TransactionOutput { amount: 1, receiver: receiver() }],
        transaction_id: Some(hash(id)),
        nonce: 3,
        timestamp: 4,
    }
}

fn identified(id: u8) -> IdentifiedTransaction {
    IdentifiedTransaction { transaction_id: hash(id), transaction: tx(id) }
}

fn submit(processor: &mut WithdrawalPaymentProcessor, withdrawal_id: WithdrawalId, id: u8) {
    let prepared = PreparedWithdrawal { withdrawal_id, identified: identified(id) };
    let submitted =
        processor.submit_withdrawal(vec![(receiver(), 1)], sender(), prepared, Ok(Ok(())));
    assert_eq!(submitted.unwrap(), withdrawal_id);
}

fn block(tag: u8, previous: u8, transactions: Vec<Transaction>) -> ChainEvent {
    ChainEvent::Block {
        block: Block { transactions, previous_block: hash(previous), hash: Some(hash(tag)) },
    }
}

fn expiry(id: u8) -> ChainEvent {
    ChainEvent::TransactionExpiration { transaction: hash(id) }
}

fn handle(
    processor: &mut WithdrawalPaymentProcessor,
    event: ChainEvent,
    count: usize,
) -> WithdrawalAction {
    assert!(processor.accepts(&event));
    processor.handle_event(event, count)
}

fn confirmed(action: WithdrawalAction) -> Vec<WithdrawalConfirmation> {
    match action {
        WithdrawalAction::Confirm { confirmations } => confirmations,
        other => panic!("{:?}", other),
    }
}

fn pending(id: u8) -> Option<WithdrawalStatus> {
    Some(WithdrawalStatus::Pending { transaction: hash(id) })
}

fn confirming(id: u8) -> Option<WithdrawalStatus> {
    Some(WithdrawalStatus::Confirming { transaction: hash(id) })
}

#[test]
fn withdrawal() {
    let wallet_private = snap_coin::crypto::keys::Private::new_from_base36(
        "jw4iipqhquxz60pw3b5vt531fy5z58w9zu56qfm631adq71pz",
    )
    .unwrap();
    let wallet = Private { bytes: Bytes32::from_bytes(wallet_private.dump_buf()) };
    let receiver = snap_coin::crypto::keys::Public::new_from_base36(
        "2j25rf3xur2ytvb8yg31l6h61t6944gfshufypdlzyqp6jdm08",
    )
    .unwrap();
    let receiver = Public { bytes: Bytes32::from_bytes(receiver.dump_buf()) };

    let mut processor = WithdrawalPaymentProcessor::new();
    let mut ids = vec![];
    for id in [1u8, 2u8] {
        let prepared = WithdrawalPaymentProcessor::prepare_withdrawal(Ok(tx(id))).unwrap();
        let wid = processor
            .submit_withdrawal(vec![(receiver, 1)], wallet, prepared, Ok(Ok(())))
            .unwrap();
        assert_eq!(processor.get_withdrawal_status(wid), pending(id));
        ids.push(wid);
    }
    assert_ne!(ids[0], ids[1]);

    assert!(confirmed(handle(&mut processor, block(1, 0, vec![tx(1)]), 3)).is_empty());
    assert_eq!(processor.get_withdrawal_status(ids[0]), confirming(1));
    assert_eq!(processor.get_withdrawal_status(ids[1]), pending(2));
    assert!(confirmed(handle(&mut processor, block(2, 1, vec![]), 3)).is_empty());
    assert!(confirmed(handle(&mut processor, block(3, 2, vec![]), 3)).is_empty());
    assert_eq!(
        confirmed(handle(&mut processor, block(4, 3, vec![]), 3)),
        vec![WithdrawalConfirmation { withdrawal_id: ids[0], transaction: tx(1) }]
    );
    assert_eq!(
        processor.get_withdrawal_status(ids[0]),
        Some(WithdrawalStatus::Confirmed { transaction: hash(1) })
    );
    match handle(&mut processor, expiry(2), 3) {
        WithdrawalAction::Resubmit { resubmission } => {
            assert_eq!(resubmission.withdrawal_id, ids[1]);
            assert_eq!(resubmission.sender_private, wallet);
            assert_eq!(resubmission.recipients, vec![(receiver, 1)]);
        }
        other => panic!("{:?}", other),
    }
}

#[test]
fn a_withdrawal_id_is_a_random_uuid() {
    let prepared = WithdrawalPaymentProcessor::prepare_withdrawal(Ok(tx(1))).unwrap();
    let id = uuid::Uuid::from_u128(prepared.withdrawal_id);
    assert_eq!(id.get_version(), Some(uuid::Version::Random));
    assert_eq!(id.get_variant(), uuid::Variant::RFC4122);
    assert_eq!(prepared.identified, identified(1));
    let other = WithdrawalPaymentProcessor::prepare_withdrawal(Ok(tx(1))).unwrap();
    assert_ne!(prepared.withdrawal_id, other.withdrawal_id);
}

#[test]
fn a_withdrawal_whose_transaction_was_not_built_is_not_prepared() {
    let mut nameless = tx(1);
    nameless.transaction_id = None;
    assert!(matches!(
        WithdrawalPaymentProcessor::prepare_withdrawal(Ok(nameless)),
        Err(ChainInteractionError::MissingTransactionId)
    ));
    let failed = ChainInteractionError::Other("offline".to_string());
    match WithdrawalPaymentProcessor::prepare_withdrawal_as(5, Err(failed)) {
        Err(ChainInteractionError::Other(text)) => assert_eq!(text, "offline"),
        other => panic!("{:?}", other),
    }
    let prepared = WithdrawalPaymentProcessor::prepare_withdrawal_as(5, Ok(tx(1))).unwrap();
    assert_eq!(prepared.withdrawal_id, 5);
}

#[test]
fn a_refused_withdrawal_is_not_tracked() {
    let mut processor = WithdrawalPaymentProcessor::new();
    let prepared = PreparedWithdrawal { withdrawal_id: 5, identified: identified(1) };
    let refused = Ok(Err(snap_coin::core::blockchain::BlockchainError::DoubleSpend));
    match processor.submit_withdrawal(vec![], sender(), prepared, refused) {
        Err(ChainInteractionError::SubmissionFailed(reason)) => {
            assert_eq!(reason, "Double spend detected in transaction input")
        }
        other => panic!("{:?}", other),
    }
    let late = Err(ChainInteractionError::SubmissionFailed("too late".to_string()));
    match processor.track_withdrawal(vec![], sender(), 5, late) {
        Err(ChainInteractionError::SubmissionFailed(reason)) => assert_eq!(reason, "too late"),
        other => panic!("{:?}", other),
    }
    let prepared = PreparedWithdrawal { withdrawal_id: 5, identified: identified(1) };
    let lost = Err(ChainInteractionError::Other("lost".to_string()));
    assert!(matches!(
        processor.submit_withdrawal(vec![], sender(), prepared, lost),
        Err(ChainInteractionError::Other(_))
    ));
    assert_eq!(processor.get_withdrawal_status(5), None);
    assert!(processor.get_all_withdrawals().is_empty());
}

#[test]
fn a_tracked_withdrawal_can_be_looked_up() {
    let mut processor = WithdrawalPaymentProcessor::new();
    submit(&mut processor, 5, 1);
    submit(&mut processor, 6, 2);
    handle(&mut processor, block(1, 0, vec![tx(2)]), 3);
    assert_eq!(processor.get_current_tx_id(5), Some(hash(1)));
    assert_eq!(processor.get_current_tx(5), Some(tx(1)));
    assert_eq!(processor.get_current_tx_id(7), None);
    assert_eq!(processor.get_current_tx(7), None);
    let all = processor.get_all_withdrawals();
    assert_eq!(all.len(), 2);
    assert_eq!(all.get(&5).copied(), pending(1));
    assert_eq!(all.get(&6).copied(), confirming(2));
}

#[test]
fn an_accepted_withdrawal_is_pending() {
    let mut processor = WithdrawalPaymentProcessor::new();
    let concluded =
        processor.track_withdrawal(vec![(receiver(), 1)], sender(), 5, Ok(identified(1)));
    assert_eq!(concluded.unwrap(), 5);
    assert_eq!(processor.get_withdrawal_status(5), pending(1));
    assert_eq!(processor.get_current_tx(5), Some(tx(1)));
}

#[test]
fn an_untracked_withdrawal_is_forgotten() {
    let mut processor = WithdrawalPaymentProcessor::new();
    submit(&mut processor, 5, 1);
    submit(&mut processor, 6, 2);
    processor.untrack_withdrawal(5);
    processor.untrack_withdrawal(9);
    assert_eq!(processor.get_withdrawal_status(5), None);
    assert_eq!(processor.get_withdrawal_status(6), pending(2));
    assert_eq!(handle(&mut processor, expiry(1), 3), WithdrawalAction::Idle);
}

#[test]
fn a_transaction_in_the_mempool_changes_nothing() {
    let mut processor = WithdrawalPaymentProcessor::new();
    submit(&mut processor, 5, 1);
    let seen = ChainEvent::Transaction { transaction: tx(1) };
    assert_eq!(handle(&mut processor, seen, 3), WithdrawalAction::Idle);
    assert_eq!(processor.get_withdrawal_status(5), pending(1));
}

#[test]
fn an_orphaned_withdrawal_is_pending_again() {
    let mut processor = WithdrawalPaymentProcessor::new();
    submit(&mut processor, 5, 1);
    handle(&mut processor, block(1, 0, vec![]), 2);
    handle(&mut processor, block(2, 1, vec![tx(1)]), 2);
    handle(&mut processor, block(12, 1, vec![]), 2);
    assert_eq!(processor.get_withdrawal_status(5), pending(1));
    handle(&mut processor, block(13, 12, vec![tx(1)]), 2);
    assert_eq!(processor.get_withdrawal_status(5), confirming(1));
    assert!(confirmed(handle(&mut processor, block(14, 13, vec![]), 2)).is_empty());
    assert_eq!(confirmed(handle(&mut processor, block(15, 14, vec![]), 2)).len(), 1);
}

#[test]
fn a_withdrawal_mined_again_by_the_replacing_block_is_confirmed() {
    let mut processor = WithdrawalPaymentProcessor::new();
    submit(&mut processor, 5, 1);
    handle(&mut processor, block(1, 0, vec![tx(1)]), 2);
    assert!(confirmed(handle(&mut processor, block(2, 0, vec![tx(1)]), 2)).is_empty());
    assert_eq!(processor.get_withdrawal_status(5), confirming(1));
    assert!(confirmed(handle(&mut processor, block(3, 2, vec![]), 2)).is_empty());
    assert_eq!(
        confirmed(handle(&mut processor, block(4, 3, vec![]), 2)),
        vec![WithdrawalConfirmation { withdrawal_id: 5, transaction: tx(1) }]
    );
    assert_eq!(
        processor.get_withdrawal_status(5),
        Some(WithdrawalStatus::Confirmed { transaction: hash(1) })
    );
    assert!(confirmed(handle(&mut processor, block(5, 4, vec![]), 2)).is_empty());
}

#[test]
fn a_confirmed_withdrawal_stays_confirmed() {
    let mut processor = WithdrawalPaymentProcessor::new();
    submit(&mut processor, 5, 1);
    assert_eq!(confirmed(handle(&mut processor, block(1, 0, vec![tx(1)]), 0)).len(), 1);
    assert!(confirmed(handle(&mut processor, block(2, 1, vec![tx(1)]), 0)).is_empty());
    assert_eq!(handle(&mut processor, expiry(1), 0), WithdrawalAction::Idle);
    assert!(confirmed(handle(&mut processor, block(3, 0, vec![tx(1)]), 0)).is_empty());
    assert_eq!(
        processor.get_withdrawal_status(5),
        Some(WithdrawalStatus::Confirmed { transaction: hash(1) })
    );
}

#[test]
fn a_withdrawal_listed_twice_is_reported_once() {
    let mut processor = WithdrawalPaymentProcessor::new();
    submit(&mut processor, 5, 1);
    submit(&mut processor, 6, 2);
    let reported = confirmed(handle(&mut processor, block(1, 0, vec![tx(2), tx(1), tx(1)]), 0));
    let ids: Vec<WithdrawalId> = reported.iter().map(|c| c.withdrawal_id).collect();
    assert_eq!(ids, vec![6, 5]);
}

#[test]
fn an_expired_withdrawal_is_resubmitted_once() {
    let mut processor = WithdrawalPaymentProcessor::new();
    submit(&mut processor, 5, 1);
    assert_eq!(
        handle(&mut processor, expiry(1), 3),
        WithdrawalAction::Resubmit {
            resubmission: Resubmission {
                withdrawal_id: 5,
                sender_private: sender(),
                recipients: vec![(receiver(), 1)],
                expired_tx_id: hash(1),
                expired_tx: tx(1),
            }
        }
    );
    assert_eq!(
        processor.get_withdrawal_status(5),
        Some(WithdrawalStatus::Expired { transaction: hash(1) })
    );
    assert_eq!(handle(&mut processor, expiry(1), 3), WithdrawalAction::Idle);

    processor.finish_resubmission(5, hash(1), Ok(identified(2)));
    assert_eq!(processor.get_withdrawal_status(5), pending(2));
    assert_eq!(processor.get_current_tx_id(5), Some(hash(2)));
    assert_eq!(processor.get_current_tx(5), Some(tx(2)));
    assert_eq!(handle(&mut processor, expiry(1), 3), WithdrawalAction::Idle);
    assert!(matches!(
        handle(&mut processor, expiry(2), 3),
        WithdrawalAction::Resubmit { .. }
    ));
}

#[test]
fn a_failed_resubmission_leaves_the_withdrawal_expired() {
    let mut processor = WithdrawalPaymentProcessor::new();
    submit(&mut processor, 5, 1);
    handle(&mut processor, expiry(1), 3);
    let failed = ChainInteractionError::MissingTransactionId;
    processor.finish_resubmission(5, hash(1), Err(failed));
    assert_eq!(
        processor.get_withdrawal_status(5),
        Some(WithdrawalStatus::Expired { transaction: hash(1) })
    );
    assert_eq!(handle(&mut processor, expiry(1), 3), WithdrawalAction::Idle);
    handle(&mut processor, block(1, 0, vec![tx(1)]), 3);
    assert_eq!(
        processor.get_withdrawal_status(5),
        Some(WithdrawalStatus::Expired { transaction: hash(1) })
    );
}

#[test]
fn a_withdrawal_untracked_while_it_is_resubmitted_stays_untracked() {
    let mut processor = WithdrawalPaymentProcessor::new();
    submit(&mut processor, 5, 1);
    handle(&mut processor, expiry(1), 3);
    processor.untrack_withdrawal(5);
    processor.finish_resubmission(5, hash(1), Ok(identified(2)));
    assert_eq!(processor.get_withdrawal_status(5), None);
    assert_eq!(handle(&mut processor, expiry(2), 3), WithdrawalAction::Idle);
}

#[test]
fn a_confirming_withdrawal_does_not_expire() {
    let mut processor = WithdrawalPaymentProcessor::new();
    submit(&mut processor, 5, 1);
    handle(&mut processor, block(1, 0, vec![tx(1)]), 3);
    assert_eq!(handle(&mut processor, expiry(1), 3), WithdrawalAction::Idle);
    assert_eq!(processor.get_withdrawal_status(5), confirming(1));
}

#[test]
fn a_block_over_one_without_a_hash_is_not_accepted() {
    let mut processor = WithdrawalPaymentProcessor::new();
    let unhashed = ChainEvent::Block {
        block: Block { transactions: vec![tx(1)], previous_block: hash(0), hash: None },
    };
    handle(&mut processor, unhashed, 3);
    assert!(!processor.accepts(&block(2, 1, vec![])));
    assert!(processor.accepts(&expiry(1)));
    let seen = ChainEvent::Transaction { transaction: tx(1) };
    assert!(processor.accepts(&seen));
}
