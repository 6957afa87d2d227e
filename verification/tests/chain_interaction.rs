use snap_coin_pay::chain::{Transaction, TransactionInput, TransactionOutput};
use snap_coin_pay::chain_interaction::{
    accept_answer, accept_submission, identify, ChainInteractionError, IdentifiedTransaction,
    PowTarget, SpentInputs,
};
use snap_coin_pay::ids::{Bytes32, Digest, Public, Signature};

fn bytes(tag: u8) -> Bytes32 {
    Bytes32::from_bytes(&[tag; 32])
}

fn input(tag: u8, index: usize) -> TransactionInput {
    TransactionInput {
        transaction_id: Digest { bytes: bytes(tag) },
        output_index: index,
        signature: None,
        output_owner: Public { bytes: bytes(9) },
    }
}

fn transaction(id: Option<u8>, inputs: Vec<TransactionInput>) -> Transaction {
    Transaction {
        inputs,
        outputs: vec![TransactionOutput { amount: 3, receiver: Public { bytes: bytes(8) } }],
        transaction_id: id.map(|tag| Digest { bytes: bytes(tag) }),
        nonce: 11,
        timestamp: 12,
    }
}

#[test]
fn a_built_transaction_is_known_by_its_id() {
    let identified = identify(Ok(transaction(Some(5), vec![input(1, 0)]))).unwrap();
    assert_eq!(identified.transaction_id, Digest { bytes: bytes(5) });
    assert_eq!(identified.transaction, transaction(Some(5), vec![input(1, 0)]));
}

#[test]
fn a_built_transaction_without_an_id_is_refused() {
    let identified = identify(Ok(transaction(None, vec![])));
    assert!(matches!(identified, Err(ChainInteractionError::MissingTransactionId)));
}

#[test]
fn a_failure_to_build_is_passed_on() {
    let error = ChainInteractionError::Other("no funds".to_string());
    match identify(Err(error)) {
        Err(ChainInteractionError::Other(text)) => assert_eq!(text, "no funds"),
        other => panic!("{:?}", other),
    }
    let error = ChainInteractionError::UtilError(snap_coin::UtilError::InsufficientFunds);
    assert!(matches!(
        identify(Err(error)),
        Err(ChainInteractionError::UtilError(snap_coin::UtilError::InsufficientFunds))
    ));
}

fn identified() -> IdentifiedTransaction {
    IdentifiedTransaction {
        transaction_id: Digest { bytes: bytes(5) },
        transaction: transaction(Some(5), vec![]),
    }
}

#[test]
fn an_accepted_submission_hands_the_transaction_on() {
    assert_eq!(accept_submission(identified(), Ok(Ok(()))).unwrap(), identified());
}

#[test]
fn a_refused_submission_tells_the_reason() {
    match accept_answer(identified(), Ok(Err("double spend".to_string()))) {
        Err(ChainInteractionError::SubmissionFailed(reason)) => assert_eq!(reason, "double spend"),
        other => panic!("{:?}", other),
    }
}

#[test]
fn a_refused_submission_tells_what_the_error_says() {
    let refusal = snap_coin::core::blockchain::BlockchainError::DoubleSpend;
    match accept_submission(identified(), Ok(Err(refusal))) {
        Err(ChainInteractionError::SubmissionFailed(reason)) => {
            assert_eq!(reason, "Double spend detected in transaction input")
        }
        other => panic!("{:?}", other),
    }
    let refusal =
        snap_coin::core::blockchain::BlockchainError::InvalidTransaction("unsigned".to_string());
    match accept_submission(identified(), Ok(Err(refusal))) {
        Err(ChainInteractionError::SubmissionFailed(reason)) => {
            assert_eq!(reason, "Transaction is invalid: unsigned")
        }
        other => panic!("{:?}", other),
    }
}

#[test]
fn an_answer_is_judged_as_the_submission_is() {
    assert_eq!(accept_answer(identified(), Ok(Ok(()))).unwrap(), identified());
    let lost = ChainInteractionError::Other("lost".to_string());
    assert!(matches!(
        accept_answer(identified(), Err(lost)),
        Err(ChainInteractionError::Other(_))
    ));
}

#[test]
fn a_built_transaction_spends_its_inputs() {
    let mut spent = SpentInputs::new();
    let tx = transaction(Some(5), vec![input(1, 0), input(1, 1)]);
    let built = spent.finish_build(tx, Ok(())).unwrap();
    assert_eq!(built, transaction(Some(5), vec![input(1, 0), input(1, 1)]));
    assert_eq!(*spent.inputs(), vec![input(1, 0), input(1, 1)]);
}

#[test]
fn a_transaction_whose_proof_of_work_failed_spends_nothing() {
    let mut spent = SpentInputs::new();
    spent.record(&transaction(None, vec![input(7, 3)]));
    let tx = transaction(None, vec![input(1, 0)]);
    match spent.finish_build(tx, Err("buffer is full".to_string())) {
        Err(ChainInteractionError::BlockchainError(error)) => {
            assert_eq!(error.to_string(), "Bincode encode error: buffer is full");
            assert!(matches!(
                error,
                snap_coin::core::blockchain::BlockchainError::BincodeEncode(_)
            ));
        }
        other => panic!("{:?}", other),
    }
    assert_eq!(*spent.inputs(), vec![input(7, 3)]);
}

#[test]
fn a_submission_without_an_answer_fails() {
    let io = std::io::Error::new(std::io::ErrorKind::ConnectionReset, "gone");
    match accept_submission(identified(), Err(ChainInteractionError::IoError(io))) {
        Err(ChainInteractionError::IoError(e)) => {
            assert_eq!(e.kind(), std::io::ErrorKind::ConnectionReset)
        }
        other => panic!("{:?}", other),
    }
    let refused = snap_coin::core::blockchain::BlockchainError::DoubleSpend;
    assert!(matches!(
        accept_submission(identified(), Err(ChainInteractionError::BlockchainError(refused))),
        Err(ChainInteractionError::BlockchainError(_))
    ));
    let provider = snap_coin::blockchain_data_provider::BlockchainDataProviderError::AccessError;
    let failed = ChainInteractionError::BlockchainDataProvider(provider);
    assert!(matches!(
        accept_submission(identified(), Err(failed)),
        Err(ChainInteractionError::BlockchainDataProvider(_))
    ));
}

#[test]
fn spent_inputs_add_up_in_order() {
    let mut spent = SpentInputs::new();
    assert!(spent.inputs().is_empty());
    spent.record(&transaction(None, vec![input(1, 0), input(1, 1)]));
    spent.record(&transaction(None, vec![input(2, 0)]));
    assert_eq!(*spent.inputs(), vec![input(1, 0), input(1, 1), input(2, 0)]);
}

#[test]
fn an_expired_transaction_releases_its_inputs() {
    let mut spent = SpentInputs::new();
    let first = transaction(None, vec![input(1, 0), input(1, 1)]);
    spent.record(&first);
    spent.record(&transaction(None, vec![input(2, 0)]));
    spent.on_expiry(&first);
    assert_eq!(*spent.inputs(), vec![input(2, 0)]);
}

#[test]
fn an_input_recorded_twice_is_released_at_once() {
    let mut spent = SpentInputs::new();
    let tx = transaction(None, vec![input(1, 0)]);
    spent.record(&tx);
    spent.record(&tx);
    spent.on_expiry(&tx);
    assert!(spent.inputs().is_empty());
}

#[test]
fn an_input_that_differs_in_its_signature_alone_stays_spent() {
    let mut spent = SpentInputs::new();
    let mut signed = input(1, 0);
    signed.signature = Some(Signature { first: bytes(1), second: bytes(2) });
    spent.record(&transaction(None, vec![signed, input(1, 0)]));
    spent.on_expiry(&transaction(None, vec![input(1, 0)]));
    assert_eq!(*spent.inputs(), vec![signed]);
}

#[test]
fn releasing_undoes_recording() {
    let mut spent = SpentInputs::new();
    spent.record(&transaction(None, vec![input(7, 3)]));
    let tx = transaction(None, vec![input(1, 0), input(1, 1)]);
    spent.record(&tx);
    spent.on_expiry(&tx);
    assert_eq!(*spent.inputs(), vec![input(7, 3)]);
}

#[test]
fn a_reported_live_difficulty_is_taken_as_it_is() {
    let target = PowTarget::from_live_difficulty([0x1fu8; 32]);
    assert_eq!(target.live_difficulty, [0x1fu8; 32]);
    assert_eq!(target.margin_percent, 10);
}

#[test]
fn an_empty_mempool_leaves_the_difficulty_as_it_is() {
    let target = PowTarget::from_mempool(&[0x1fu8; 32], 0);
    assert_eq!(target.live_difficulty, [0x1fu8; 32]);
    assert_eq!(target.margin_percent, 10);
}

#[test]
fn a_filled_mempool_lowers_the_difficulty() {
    let half = PowTarget::from_mempool(&[0xffu8; 32], 250);
    let mut expected = [0xffu8; 32];
    expected[0] = 0x7f;
    assert_eq!(half.live_difficulty, expected);
    let full = PowTarget::from_mempool(&[0xffu8; 32], 500);
    assert_eq!(full.live_difficulty, [0u8; 32]);
    let over = PowTarget::from_mempool(&[0xffu8; 32], 501);
    assert_eq!(over.live_difficulty, [0u8; 32]);
}
