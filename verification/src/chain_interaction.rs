//! What is decided around each exchange with the chain: which inputs are already spoken for, how
//! hard a proof of work must be, and what a built or submitted transaction amounts to.
use crate::chain::{Transaction, TransactionInput, TransactionView};
use crate::ids::TransactionId;
use crate::seq_lemmas::{lemma_filter_member, lemma_filter_push};
use snap_coin::blockchain_data_provider::BlockchainDataProviderError;
use snap_coin::UtilError;
use vstd::prelude::*;

verus! {

/// The error of `snap_coin::blockchain_data_provider`, carried through unread.
#[verifier::external_type_specification]
#[verifier::external_body]
pub struct ExBlockchainDataProviderError(BlockchainDataProviderError);

/// The error of `snap_coin::core::blockchain`, carried through unread.
#[verifier::external_type_specification]
#[verifier::external_body]
pub struct ExBlockchainError(snap_coin::core::blockchain::BlockchainError);

/// The error of `snap_coin::build_transaction`, carried through unread.
#[verifier::external_type_specification]
#[verifier::external_body]
pub struct ExUtilError(UtilError);

/// The error of `std::io`, carried through unread.
#[verifier::external_type_specification]
#[verifier::external_body]
pub struct ExIoError(std::io::Error);

/// Why an exchange with the chain failed.
#[derive(Debug)]
pub enum ChainInteractionError {
    Other(String),
    IoError(std::io::Error),
    BlockchainDataProvider(BlockchainDataProviderError),
    UtilError(UtilError),
    BlockchainError(snap_coin::core::blockchain::BlockchainError),
    /// The transaction has no transaction id attached.
    MissingTransactionId,
    /// The chain refused the transaction, for the reason given.
    SubmissionFailed(String),
}

/// A transaction together with the id that it is known by.
#[derive(PartialEq, Eq, Debug)]
pub struct IdentifiedTransaction {
    pub transaction_id: TransactionId,
    pub transaction: Transaction,
}

impl View for IdentifiedTransaction {
    type V = (TransactionId, TransactionView);

    open spec fn view(&self) -> (TransactionId, TransactionView) {
        (self.transaction_id, self.transaction@)
    }
}

impl IdentifiedTransaction {
    /// The id is the one that the transaction itself carries.
    pub open spec fn wf(self) -> bool {
        self.transaction.transaction_id == Some(self.transaction_id)
    }
}

/// What a transaction amounts to that was to be built: it can be submitted only under an id.
pub fn identify(built: Result<Transaction, ChainInteractionError>) -> (identified: Result<
    IdentifiedTransaction,
    ChainInteractionError,
>)
    ensures
        match built {
            Ok(transaction) => match transaction.transaction_id {
                Some(id) => identified matches Ok(i) && i@ == (id, transaction@) && i.wf(),
                None => identified == Err::<IdentifiedTransaction, _>(
                    ChainInteractionError::MissingTransactionId,
                ),
            },
            Err(error) => identified == Err::<IdentifiedTransaction, _>(error),
        },
{
    match built {
        Ok(transaction) => match transaction.transaction_id {
            Some(transaction_id) => Ok(IdentifiedTransaction { transaction_id, transaction }),
            None => Err(ChainInteractionError::MissingTransactionId),
        },
        Err(error) => Err(error),
    }
}

/// What `snap_coin::core::blockchain::BlockchainError` displays.
pub uninterp spec fn blockchain_error_text(
    error: snap_coin::core::blockchain::BlockchainError,
) -> Seq<char>;

/// `snap_coin::core::blockchain::BlockchainError::to_string`: the text depends on the error alone.
#[verifier::external_body]
fn display_blockchain_error(error: &snap_coin::core::blockchain::BlockchainError) -> (text: String)
    ensures
        text@ == blockchain_error_text(*error),
{
    error.to_string()
}

/// `snap_coin::core::blockchain::BlockchainError::BincodeEncode`: an error that displays as a
/// failure to encode, followed by `text`.
#[verifier::external_body]
fn bincode_encode_error(text: String) -> (error: snap_coin::core::blockchain::BlockchainError)
    ensures
        blockchain_error_text(error) == "Bincode encode error: "@ + text@,
{
    snap_coin::core::blockchain::BlockchainError::BincodeEncode(text)
}

/// What the answer to the submission of a transaction amounts to, where a refusal comes as its
/// reason: the transaction is on its way, or was refused, or there was no answer.
pub fn accept_answer(
    identified: IdentifiedTransaction,
    answer: Result<Result<(), String>, ChainInteractionError>,
) -> (accepted: Result<IdentifiedTransaction, ChainInteractionError>)
    ensures
        accepted == match answer {
            Ok(Ok(())) => Ok(identified),
            Ok(Err(reason)) => Err(ChainInteractionError::SubmissionFailed(reason)),
            Err(error) => Err(error),
        },
{
    match answer {
        Ok(Ok(())) => Ok(identified),
        Ok(Err(reason)) => Err(ChainInteractionError::SubmissionFailed(reason)),
        Err(error) => Err(error),
    }
}

/// What the answer to the submission of a transaction amounts to: the transaction is on its way,
/// or was refused with an error whose text is the reason, or there was no answer.
pub fn accept_submission(
    identified: IdentifiedTransaction,
    submitted: Result<
        Result<(), snap_coin::core::blockchain::BlockchainError>,
        ChainInteractionError,
    >,
) -> (accepted: Result<IdentifiedTransaction, ChainInteractionError>)
    ensures
        match submitted {
            Ok(Ok(())) => accepted == Ok::<_, ChainInteractionError>(identified),
            Ok(Err(refusal)) => {
                &&& accepted matches Err(ChainInteractionError::SubmissionFailed(reason))
                &&& reason@ == blockchain_error_text(refusal)
            },
            Err(error) => accepted == Err::<IdentifiedTransaction, _>(error),
        },
{
    let answer = match submitted {
        Ok(Ok(())) => Ok(Ok(())),
        Ok(Err(refusal)) => Ok(Err(display_blockchain_error(&refusal))),
        Err(error) => Err(error),
    };
    accept_answer(identified, answer)
}

/// The inputs that transactions built earlier already spend, although the chain may not know yet.
pub struct SpentInputs {
    inputs: Vec<TransactionInput>,
}

impl View for SpentInputs {
    type V = Seq<TransactionInput>;

    closed spec fn view(&self) -> Seq<TransactionInput> {
        self.inputs@
    }
}

/// The inputs of `spent` that `transaction` does not spend.
pub open spec fn released(
    spent: Seq<TransactionInput>,
    transaction: TransactionView,
) -> Seq<TransactionInput> {
    spent.filter(|input: TransactionInput| !transaction.inputs.contains(input))
}

impl SpentInputs {
    /// No input is spent.
    pub fn new() -> (spent: Self)
        ensures
            spent@ == Seq::<TransactionInput>::empty(),
    {
        SpentInputs { inputs: Vec::new() }
    }

    /// The spent inputs, in the order in which they were spent.
    pub fn inputs(&self) -> (inputs: &Vec<TransactionInput>)
        ensures
            inputs@ == self@,
    {
        &self.inputs
    }

    /// The inputs of `transaction` are spent from now on.
    pub fn record(&mut self, transaction: &Transaction)
        ensures
            final(self)@ == old(self)@ + transaction.inputs@,
    {
        let ghost start = self@;
        assert(start + transaction.inputs@.take(0) =~= start);
        for i in 0..transaction.inputs.len()
            invariant
                self@ == start + transaction.inputs@.take(i as int),
        {
            self.inputs.push(transaction.inputs[i]);
            assert(self@ =~= start + transaction.inputs@.take(i + 1));
        }
        assert(transaction.inputs@.take(transaction.inputs.len() as int) =~= transaction.inputs@);
    }

    /// Conclude the building of `transaction` after its proof of work: its inputs are spent from
    /// now on, unless the work failed for the reason given.
    pub fn finish_build(
        &mut self,
        transaction: Transaction,
        worked: Result<(), String>,
    ) -> (built: Result<Transaction, ChainInteractionError>)
        ensures
            match worked {
                Ok(()) => {
                    &&& built == Ok::<_, ChainInteractionError>(transaction)
                    &&& final(self)@ == old(self)@ + transaction.inputs@
                },
                Err(text) => {
                    &&& built matches Err(ChainInteractionError::BlockchainError(error))
                    &&& blockchain_error_text(error) == "Bincode encode error: "@ + text@
                    &&& final(self)@ == old(self)@
                },
            },
    {
        match worked {
            Ok(()) => {
                self.record(&transaction);
                Ok(transaction)
            },
            Err(text) => Err(ChainInteractionError::BlockchainError(bincode_encode_error(text))),
        }
    }

    /// `transaction` expired, so its inputs can be spent again.
    pub fn on_expiry(&mut self, transaction: &Transaction)
        ensures
            final(self)@ == released(old(self)@, transaction@),
    {
        let ghost start = self@;
        let ghost keep = |input: TransactionInput| !transaction@.inputs.contains(input);
        let mut remaining: Vec<TransactionInput> = Vec::new();
        proof {
            reveal(Seq::filter);
            assert(remaining@ =~= start.take(0).filter(keep));
        }
        for i in 0..self.inputs.len()
            invariant
                start == self.inputs@,
                keep == (|input: TransactionInput| !transaction@.inputs.contains(input)),
                remaining@ == start.take(i as int).filter(keep),
        {
            let input = self.inputs[i];
            proof {
                lemma_filter_push(start.take(i as int), keep, input);
                assert(start.take(i + 1) =~= start.take(i as int).push(input));
            }
            if !spends(transaction, &input) {
                remaining.push(input);
            }
        }
        assert(start.take(start.len() as int) =~= start);
        self.inputs = remaining;
    }
}

/// Whether `transaction` spends `input`.
fn spends(transaction: &Transaction, input: &TransactionInput) -> (spends: bool)
    ensures
        spends == transaction.inputs@.contains(*input),
{
    for i in 0..transaction.inputs.len()
        invariant
            forall|j: int| 0 <= j < i ==> transaction.inputs@[j] != *input,
    {
        if transaction.inputs[i] == *input {
            return true;
        }
    }
    false
}

/// Once a transaction's inputs are released, none of them counts as spent.
pub proof fn law_released_inputs_are_free(
    spent: Seq<TransactionInput>,
    transaction: TransactionView,
    input: TransactionInput,
)
    ensures
        released(spent, transaction).contains(input) <==> spent.contains(input)
            && !transaction.inputs.contains(input),
{
    let keep = |i: TransactionInput| !transaction.inputs.contains(i);
    lemma_filter_member(spent, keep, input);
}

/// Releasing a transaction undoes recording it, as long as none of its inputs was spent before.
pub proof fn law_release_undoes_record(
    spent: Seq<TransactionInput>,
    transaction: TransactionView,
)
    requires
        forall|input: TransactionInput| #[trigger]
            transaction.inputs.contains(input) ==> !spent.contains(input),
    ensures
        released(spent + transaction.inputs, transaction) == spent,
{
    lemma_release_prefix(spent, transaction, transaction.inputs.len() as int);
    assert(transaction.inputs.take(transaction.inputs.len() as int) =~= transaction.inputs);
}

proof fn lemma_release_prefix(spent: Seq<TransactionInput>, transaction: TransactionView, n: int)
    requires
        0 <= n <= transaction.inputs.len(),
        forall|input: TransactionInput| #[trigger]
            transaction.inputs.contains(input) ==> !spent.contains(input),
    ensures
        released(spent + transaction.inputs.take(n), transaction) == spent,
    decreases spent.len() + n,
{
    reveal(Seq::filter);
    let all = spent + transaction.inputs.take(n);
    if n > 0 {
        assert(all.drop_last() =~= spent + transaction.inputs.take(n - 1));
        assert(all.last() == transaction.inputs[n - 1]);
        lemma_release_prefix(spent, transaction, n - 1);
    } else if spent.len() > 0 {
        let rest = spent.drop_last();
        assert(all =~= spent);
        assert(rest + transaction.inputs.take(0) =~= rest);
        assert(spent.contains(spent[spent.len() - 1]));
        assert forall|input: TransactionInput| #[trigger]
            transaction.inputs.contains(input) implies !rest.contains(input) by {
            if rest.contains(input) {
                let i = choose|i: int| 0 <= i < rest.len() && rest[i] == input;
                assert(spent[i] == input);
            }
        }
        lemma_release_prefix(rest, transaction, 0);
        assert(rest.push(spent.last()) =~= spent);
    } else {
        assert(all =~= Seq::<TransactionInput>::empty());
    }
}

/// What `snap_coin::core::difficulty::calculate_live_transaction_difficulty` makes of a
/// transaction difficulty and the number of transactions in the mempool.
pub uninterp spec fn live_difficulty(difficulty: Seq<u8>, mempool_size: usize) -> Seq<u8>;

/// `snap_coin::core::difficulty::calculate_live_transaction_difficulty`: the result depends on
/// the two arguments alone, and an empty mempool leaves the difficulty as it is. How much a filled
/// mempool lowers it is left to that function.
#[verifier::external_body]
fn calculate_live_difficulty(difficulty: &[u8; 32], mempool_size: usize) -> (live: [u8; 32])
    ensures
        live@ == live_difficulty(difficulty@, mempool_size),
        mempool_size == 0 ==> live@ == difficulty@,
{
    snap_coin::core::difficulty::calculate_live_transaction_difficulty(difficulty, mempool_size)
}

/// By how many percent a proof of work beats the live difficulty, so that it still holds when the
/// mempool fills up meanwhile.
pub const POW_MARGIN_PERCENT: u8 = 10;

/// What a transaction's proof of work has to reach.
#[derive(Clone, Copy, Debug)]
pub struct PowTarget {
    pub live_difficulty: [u8; 32],
    pub margin_percent: u8,
}

impl PowTarget {
    /// The target for a difficulty that a node reports as the live one.
    pub fn from_live_difficulty(live_difficulty: [u8; 32]) -> (target: Self)
        ensures
            target.live_difficulty@ == live_difficulty@,
            target.margin_percent == POW_MARGIN_PERCENT,
    {
        PowTarget { live_difficulty, margin_percent: POW_MARGIN_PERCENT }
    }

    /// The target for the difficulty of the chain and the size of the mempool.
    pub fn from_mempool(transaction_difficulty: &[u8; 32], mempool_size: usize) -> (target: Self)
        ensures
            target.live_difficulty@ == live_difficulty(transaction_difficulty@, mempool_size),
            target.margin_percent == POW_MARGIN_PERCENT,
            mempool_size == 0 ==> target.live_difficulty@ == transaction_difficulty@,
    {
        Self::from_live_difficulty(calculate_live_difficulty(transaction_difficulty, mempool_size))
    }
}

} // verus!
