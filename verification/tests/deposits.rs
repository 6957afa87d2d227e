use snap_coin_pay::chain::{Block, ChainEvent, Transaction, TransactionOutput};
use snap_coin_pay::deposit_payment_processor::{
    DepositConfirmation, DepositPaymentProcessor, DepositStatus,
};
use snap_coin_pay::ids::{Bytes32, Digest, Public};

fn hash(tag: u8) -> Digest {
    Digest { bytes: Bytes32::from_bytes(&[tag; 32]) }
}

fn address(tag: u8) -> Public {
    Public { bytes: Bytes32::from_bytes(&[tag; 32]) }
}

fn pay(id: u8, receivers: &[u8]) -> Transaction {
    Transaction {
        inputs: vec![],
        outputs: receivers
            .iter()
            .map(|r| TransactionOutput { amount: 5, receiver: address(*r) })
            .collect(),
        transaction_id: Some(hash(id)),
        nonce: 1,
        timestamp: 2,
    }
}

fn block(tag: u8, previous: u8, transactions: Vec<Transaction>) -> ChainEvent {
    ChainEvent::Block {
        block: Block { transactions, previous_block: hash(previous), hash: Some(hash(tag)) },
    }
}

fn listening(tags: &[u8]) -> DepositPaymentProcessor {
    let mut processor = DepositPaymentProcessor::new();
    for tag in tags {
        processor.add_deposit_address(address(*tag));
    }
    processor
}

fn handle(
    processor: &mut DepositPaymentProcessor,
    event: ChainEvent,
    count: usize,
) -> Vec<DepositConfirmation> {
    assert!(processor.accepts(&event, count));
    processor.handle_event(event, count)
}

#[test]
fn deposit() {
    let private = snap_coin::crypto::keys::Private::new_random();
    let deposit_address =
        Public { bytes: Bytes32::from_bytes(private.to_public().dump_buf()) };
    let mut processor = DepositPaymentProcessor::new();
    processor.add_deposit_address(deposit_address);
    assert_eq!(processor.get_deposit_status(deposit_address), DepositStatus::NotSeen);

    let transaction = || {
        let mut tx = pay(70, &[71]);
        tx.outputs.push(TransactionOutput { amount: 1, receiver: deposit_address });
        tx
    };
    let seen = ChainEvent::Transaction { transaction: transaction() };
    assert!(handle(&mut processor, seen, 3).is_empty());
    assert_eq!(
        processor.get_deposit_status(deposit_address),
        DepositStatus::Pending { transaction: hash(70) }
    );
    assert!(handle(&mut processor, block(1, 0, vec![transaction()]), 3).is_empty());
    for tag in 2..4 {
        assert_eq!(
            processor.get_deposit_status(deposit_address),
            DepositStatus::Confirming { transaction: hash(70) }
        );
        assert!(handle(&mut processor, block(tag, tag - 1, vec![]), 3).is_empty());
    }
    let confirmed = handle(&mut processor, block(4, 3, vec![]), 3);
    assert_eq!(
        confirmed,
        vec![DepositConfirmation { deposit_address, transaction: transaction() }]
    );
    assert_eq!(
        processor.get_deposit_status(deposit_address),
        DepositStatus::Confirmed { transaction: hash(70) }
    );
}

#[test]
fn an_unknown_address_is_not_seen() {
    let processor = DepositPaymentProcessor::new();
    assert_eq!(processor.get_deposit_status(address(7)), DepositStatus::NotSeen);
}

#[test]
fn a_transaction_in_the_mempool_makes_its_receivers_pending() {
    let mut processor = listening(&[1, 2]);
    let event = ChainEvent::Transaction { transaction: pay(10, &[1, 3]) };
    assert!(handle(&mut processor, event, 3).is_empty());
    assert_eq!(
        processor.get_deposit_status(address(1)),
        DepositStatus::Pending { transaction: hash(10) }
    );
    assert_eq!(processor.get_deposit_status(address(2)), DepositStatus::NotSeen);
    assert_eq!(processor.get_deposit_status(address(3)), DepositStatus::NotSeen);
}

#[test]
fn an_expired_transaction_expires_the_deposits_that_wait_on_it() {
    let mut processor = listening(&[1, 2, 3]);
    handle(&mut processor, ChainEvent::Transaction { transaction: pay(10, &[1, 2]) }, 3);
    handle(&mut processor, ChainEvent::Transaction { transaction: pay(11, &[3]) }, 3);
    handle(&mut processor, block(1, 0, vec![pay(10, &[2])]), 3);
    let expiry = ChainEvent::TransactionExpiration { transaction: hash(10) };
    assert!(handle(&mut processor, expiry, 3).is_empty());
    assert_eq!(
        processor.get_deposit_status(address(1)),
        DepositStatus::Expired { transaction: hash(10) }
    );
    assert_eq!(
        processor.get_deposit_status(address(2)),
        DepositStatus::Confirming { transaction: hash(10) }
    );
    assert_eq!(
        processor.get_deposit_status(address(3)),
        DepositStatus::Pending { transaction: hash(11) }
    );
}

#[test]
fn an_address_paid_twice_keeps_the_last_transaction() {
    let mut processor = listening(&[1]);
    handle(&mut processor, block(1, 0, vec![pay(10, &[1]), pay(11, &[1]), pay(12, &[2])]), 3);
    assert_eq!(
        processor.get_deposit_status(address(1)),
        DepositStatus::Confirming { transaction: hash(11) }
    );
}

#[test]
fn every_output_of_a_confirmed_block_is_reported_in_order() {
    let mut processor = listening(&[1, 2]);
    let event = block(1, 0, vec![pay(10, &[2, 1, 2, 9]), pay(11, &[1])]);
    let confirmed = handle(&mut processor, event, 0);
    let expected: Vec<(Public, Transaction)> = vec![
        (address(2), pay(10, &[2, 1, 2, 9])),
        (address(1), pay(10, &[2, 1, 2, 9])),
        (address(2), pay(10, &[2, 1, 2, 9])),
        (address(1), pay(11, &[1])),
    ];
    let got: Vec<(Public, Transaction)> =
        confirmed.into_iter().map(|c| (c.deposit_address, c.transaction)).collect();
    assert_eq!(got, expected);
    assert_eq!(
        processor.get_deposit_status(address(1)),
        DepositStatus::Confirmed { transaction: hash(11) }
    );
    assert_eq!(
        processor.get_deposit_status(address(2)),
        DepositStatus::Confirmed { transaction: hash(10) }
    );
}

#[test]
fn an_orphaned_deposit_is_forgotten() {
    let mut processor = listening(&[1, 2]);
    handle(&mut processor, block(1, 0, vec![pay(10, &[2])]), 3);
    handle(&mut processor, block(2, 1, vec![pay(11, &[1])]), 3);
    handle(&mut processor, block(12, 1, vec![]), 3);
    assert_eq!(processor.get_deposit_status(address(1)), DepositStatus::NotSeen);
    assert_eq!(
        processor.get_deposit_status(address(2)),
        DepositStatus::Confirming { transaction: hash(10) }
    );
}

#[test]
fn a_deposit_mined_again_by_the_replacing_block_is_confirming() {
    let mut processor = listening(&[1]);
    handle(&mut processor, block(1, 0, vec![pay(11, &[1])]), 2);
    assert!(handle(&mut processor, block(2, 0, vec![pay(11, &[1])]), 2).is_empty());
    assert_eq!(
        processor.get_deposit_status(address(1)),
        DepositStatus::Confirming { transaction: hash(11) }
    );
    assert!(handle(&mut processor, block(3, 2, vec![]), 2).is_empty());
    let confirmed = handle(&mut processor, block(4, 3, vec![]), 2);
    assert_eq!(
        confirmed,
        vec![DepositConfirmation { deposit_address: address(1), transaction: pay(11, &[1]) }]
    );
    assert_eq!(
        processor.get_deposit_status(address(1)),
        DepositStatus::Confirmed { transaction: hash(11) }
    );
}

#[test]
fn a_deposit_replaced_by_another_is_confirming_by_the_other() {
    let mut processor = listening(&[1]);
    handle(&mut processor, block(1, 0, vec![pay(11, &[1])]), 2);
    handle(&mut processor, block(2, 0, vec![pay(12, &[1])]), 2);
    assert_eq!(
        processor.get_deposit_status(address(1)),
        DepositStatus::Confirming { transaction: hash(12) }
    );
}

#[test]
fn an_orphaned_deposit_gives_way_to_an_earlier_one_that_still_stands() {
    let mut processor = listening(&[1]);
    handle(&mut processor, block(1, 0, vec![pay(10, &[1]), pay(11, &[1]), pay(12, &[9])]), 5);
    handle(&mut processor, block(2, 1, vec![pay(13, &[1])]), 5);
    handle(&mut processor, block(3, 2, vec![]), 5);
    handle(&mut processor, block(4, 3, vec![pay(14, &[1])]), 5);
    assert!(handle(&mut processor, block(14, 3, vec![]), 5).is_empty());
    assert_eq!(
        processor.get_deposit_status(address(1)),
        DepositStatus::Confirming { transaction: hash(13) }
    );
    assert!(handle(&mut processor, block(12, 1, vec![]), 5).is_empty());
    assert_eq!(
        processor.get_deposit_status(address(1)),
        DepositStatus::Confirming { transaction: hash(11) }
    );
    assert!(handle(&mut processor, block(20, 0, vec![]), 5).is_empty());
    assert_eq!(processor.get_deposit_status(address(1)), DepositStatus::NotSeen);
}

#[test]
fn an_earlier_deposit_without_an_id_is_passed_over_after_a_fork() {
    let mut processor = listening(&[]);
    handle(&mut processor, block(1, 0, vec![pay(10, &[1])]), 5);
    handle(&mut processor, block(2, 1, vec![nameless(&[1])]), 5);
    processor.add_deposit_address(address(1));
    handle(&mut processor, block(3, 2, vec![pay(11, &[1])]), 5);
    handle(&mut processor, block(13, 2, vec![]), 5);
    assert_eq!(
        processor.get_deposit_status(address(1)),
        DepositStatus::Confirming { transaction: hash(10) }
    );
}

#[test]
fn a_transaction_pays_its_receivers_alone() {
    let tx = pay(10, &[1, 2]);
    assert!(tx.pays(&address(1)));
    assert!(tx.pays(&address(2)));
    assert!(!tx.pays(&address(3)));
}

#[test]
fn a_fork_leaves_a_confirmed_deposit_confirmed() {
    let mut processor = listening(&[1]);
    handle(&mut processor, block(1, 0, vec![pay(10, &[1])]), 1);
    assert_eq!(handle(&mut processor, block(2, 1, vec![pay(11, &[1])]), 1).len(), 1);
    assert!(handle(&mut processor, block(3, 1, vec![]), 1).is_empty());
    assert_eq!(
        processor.get_deposit_status(address(1)),
        DepositStatus::Confirmed { transaction: hash(10) }
    );
}

#[test]
fn a_fork_leaves_a_deposit_in_the_mempool_pending() {
    let mut processor = listening(&[1]);
    handle(&mut processor, block(1, 0, vec![]), 3);
    handle(&mut processor, block(2, 1, vec![pay(10, &[1])]), 3);
    handle(&mut processor, ChainEvent::Transaction { transaction: pay(11, &[1]) }, 3);
    handle(&mut processor, block(3, 1, vec![]), 3);
    assert_eq!(
        processor.get_deposit_status(address(1)),
        DepositStatus::Pending { transaction: hash(11) }
    );
}

#[test]
fn a_fork_forgets_the_deposits_of_every_orphan() {
    let mut processor = listening(&[1, 2, 3]);
    handle(&mut processor, block(1, 0, vec![pay(10, &[3])]), 5);
    handle(&mut processor, block(2, 1, vec![pay(11, &[1])]), 5);
    handle(&mut processor, block(3, 2, vec![pay(12, &[2]), pay(13, &[9])]), 5);
    handle(&mut processor, block(12, 1, vec![]), 5);
    assert_eq!(processor.get_deposit_status(address(1)), DepositStatus::NotSeen);
    assert_eq!(processor.get_deposit_status(address(2)), DepositStatus::NotSeen);
    assert_eq!(
        processor.get_deposit_status(address(3)),
        DepositStatus::Confirming { transaction: hash(10) }
    );
}

#[test]
fn a_lower_count_confirms_one_block_at_a_time() {
    let mut processor = listening(&[1]);
    handle(&mut processor, block(1, 0, vec![pay(10, &[1])]), 5);
    handle(&mut processor, block(2, 1, vec![pay(11, &[1])]), 5);
    let confirmed = handle(&mut processor, block(3, 2, vec![]), 0);
    assert_eq!(confirmed.len(), 1);
    assert_eq!(confirmed[0].transaction, pay(10, &[1]));
}

#[test]
fn a_removed_address_is_not_listened_to() {
    let mut processor = listening(&[1, 2]);
    handle(&mut processor, ChainEvent::Transaction { transaction: pay(10, &[1, 2]) }, 3);
    processor.remove_deposit_address(address(1));
    assert_eq!(processor.get_deposit_status(address(1)), DepositStatus::NotSeen);
    assert_eq!(
        processor.get_deposit_status(address(2)),
        DepositStatus::Pending { transaction: hash(10) }
    );
    handle(&mut processor, block(1, 0, vec![pay(10, &[1])]), 0);
    assert_eq!(processor.get_deposit_status(address(1)), DepositStatus::NotSeen);
}

#[test]
fn adding_an_address_again_resets_it() {
    let mut processor = listening(&[1]);
    handle(&mut processor, ChainEvent::Transaction { transaction: pay(10, &[1]) }, 3);
    processor.add_deposit_address(address(1));
    assert_eq!(processor.get_deposit_status(address(1)), DepositStatus::NotSeen);
}

#[test]
fn an_address_added_later_is_still_confirmed() {
    let mut processor = listening(&[]);
    handle(&mut processor, block(1, 0, vec![pay(10, &[1])]), 1);
    processor.add_deposit_address(address(1));
    assert_eq!(processor.get_deposit_status(address(1)), DepositStatus::NotSeen);
    assert_eq!(handle(&mut processor, block(2, 1, vec![]), 1).len(), 1);
    assert_eq!(
        processor.get_deposit_status(address(1)),
        DepositStatus::Confirmed { transaction: hash(10) }
    );
}

fn nameless(receivers: &[u8]) -> Transaction {
    let mut tx = pay(1, receivers);
    tx.transaction_id = None;
    tx
}

#[test]
fn a_transaction_without_an_id_is_accepted_only_if_nobody_listens() {
    let processor = listening(&[1]);
    let listened = ChainEvent::Transaction { transaction: nameless(&[2, 1]) };
    let ignored = ChainEvent::Transaction { transaction: nameless(&[2]) };
    assert!(!processor.accepts(&listened, 3));
    assert!(processor.accepts(&ignored, 3));
    assert!(!processor.accepts(&block(1, 0, vec![pay(10, &[1]), nameless(&[1])]), 3));
    assert!(processor.accepts(&block(1, 0, vec![nameless(&[2])]), 3));
    let expiry = ChainEvent::TransactionExpiration { transaction: hash(1) };
    assert!(processor.accepts(&expiry, 3));
}

#[test]
fn a_queued_transaction_without_an_id_is_looked_at_when_it_is_confirmed() {
    let mut processor = listening(&[]);
    handle(&mut processor, block(1, 0, vec![nameless(&[1])]), 1);
    processor.add_deposit_address(address(1));
    assert!(!processor.accepts(&block(2, 1, vec![]), 1));
    assert!(processor.accepts(&block(2, 1, vec![]), 2));
    assert!(processor.accepts(&block(2, 5, vec![]), 1));
}

#[test]
fn a_queued_block_without_a_hash_is_not_compared() {
    let mut processor = listening(&[1]);
    let unhashed = ChainEvent::Block {
        block: Block { transactions: vec![], previous_block: hash(0), hash: None },
    };
    handle(&mut processor, unhashed, 3);
    assert!(!processor.accepts(&block(2, 1, vec![]), 3));
}
