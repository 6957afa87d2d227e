//! What the chain reports: transactions, blocks and the events that carry them.
use crate::ids::{Digest, Public, Signature, TransactionId};
use vstd::prelude::*;

verus! {

/// An output of an earlier transaction that a transaction spends.
#[derive(Clone, Copy, PartialEq, Eq, Structural, Debug)]
pub struct TransactionInput {
    pub transaction_id: TransactionId,
    pub output_index: usize,
    pub signature: Option<Signature>,
    pub output_owner: Public,
}

/// An amount that a transaction sends to an address.
#[derive(Clone, Copy, PartialEq, Eq, Structural, Debug)]
pub struct TransactionOutput {
    pub amount: u64,
    pub receiver: Public,
}

/// A transfer of coins. `transaction_id` is absent until its proof of work is done.
#[derive(PartialEq, Eq, Debug)]
pub struct Transaction {
    pub inputs: Vec<TransactionInput>,
    pub outputs: Vec<TransactionOutput>,
    pub transaction_id: Option<TransactionId>,
    pub nonce: u64,
    pub timestamp: u64,
}

/// The contents of a [`Transaction`].
pub struct TransactionView {
    pub inputs: Seq<TransactionInput>,
    pub outputs: Seq<TransactionOutput>,
    pub transaction_id: Option<TransactionId>,
    pub nonce: u64,
    pub timestamp: u64,
}

impl View for Transaction {
    type V = TransactionView;

    open spec fn view(&self) -> TransactionView {
        TransactionView {
            inputs: self.inputs@,
            outputs: self.outputs@,
            transaction_id: self.transaction_id,
            nonce: self.nonce,
            timestamp: self.timestamp,
        }
    }
}

impl TransactionView {
    /// Whether some output of the transaction goes to `address`.
    pub open spec fn pays(self, address: Public) -> bool {
        exists|i: int| 0 <= i < self.outputs.len() && #[trigger] self.outputs[i].receiver == address
    }
}

impl Transaction {
    /// Whether some output of the transaction goes to `address`.
    pub fn pays(&self, address: &Public) -> (pays: bool)
        ensures
            pays == self@.pays(*address),
    {
        for i in 0..self.outputs.len()
            invariant
                forall|j: int| 0 <= j < i ==> (#[trigger] self@.outputs[j]).receiver != *address,
        {
            if self.outputs[i].receiver == *address {
                assert(self@.outputs[i as int].receiver == *address);
                return true;
            }
        }
        false
    }
}

impl Clone for Transaction {
    fn clone(&self) -> (copy: Self)
        ensures
            copy@ == self@,
    {
        let mut inputs: Vec<TransactionInput> = Vec::new();
        for i in 0..self.inputs.len()
            invariant
                inputs@ == self.inputs@.take(i as int),
        {
            inputs.push(self.inputs[i]);
        }
        let mut outputs: Vec<TransactionOutput> = Vec::new();
        for i in 0..self.outputs.len()
            invariant
                outputs@ == self.outputs@.take(i as int),
        {
            outputs.push(self.outputs[i]);
        }
        assert(self.inputs@.take(self.inputs.len() as int) =~= self.inputs@);
        assert(self.outputs@.take(self.outputs.len() as int) =~= self.outputs@);
        Transaction {
            inputs,
            outputs,
            transaction_id: self.transaction_id,
            nonce: self.nonce,
            timestamp: self.timestamp,
        }
    }
}

/// A block: its transactions, the hash of the block it stands on, and its own hash.
#[derive(PartialEq, Eq, Debug)]
pub struct Block {
    pub transactions: Vec<Transaction>,
    pub previous_block: Digest,
    pub hash: Option<Digest>,
}

/// The contents of a [`Block`].
pub struct BlockView {
    pub transactions: Seq<TransactionView>,
    pub previous_block: Digest,
    pub hash: Option<Digest>,
}

/// The contents of each transaction of a sequence.
pub open spec fn transactions_view(transactions: Seq<Transaction>) -> Seq<TransactionView> {
    transactions.map_values(|t: Transaction| t@)
}

impl View for Block {
    type V = BlockView;

    open spec fn view(&self) -> BlockView {
        BlockView {
            transactions: transactions_view(self.transactions@),
            previous_block: self.previous_block,
            hash: self.hash,
        }
    }
}

impl BlockView {
    /// Whether some transaction of the block pays `address`.
    pub open spec fn pays(self, address: Public) -> bool {
        exists|i: int|
            0 <= i < self.transactions.len() && #[trigger] self.transactions[i].pays(address)
    }

    /// Whether the block holds a transaction with the given id that pays `address`.
    pub open spec fn pays_by(self, id: TransactionId, address: Public) -> bool {
        exists|i: int|
            0 <= i < self.transactions.len() && #[trigger] self.transactions[i].pays(address)
                && self.transactions[i].transaction_id == Some(id)
    }
}

/// The last of `transactions` that pays `address`.
pub open spec fn last_payment(
    transactions: Seq<TransactionView>,
    address: Public,
) -> Option<TransactionView>
    decreases transactions.len(),
{
    if transactions.len() == 0 {
        None
    } else if transactions.last().pays(address) {
        Some(transactions.last())
    } else {
        last_payment(transactions.drop_last(), address)
    }
}

/// The id of the last of `transactions` that pays `address` and carries its id.
pub open spec fn last_paying_id(
    transactions: Seq<TransactionView>,
    address: Public,
) -> Option<TransactionId>
    decreases transactions.len(),
{
    if transactions.len() == 0 {
        None
    } else if transactions.last().pays(address) && transactions.last().transaction_id is Some {
        transactions.last().transaction_id
    } else {
        last_paying_id(transactions.drop_last(), address)
    }
}

/// The id of the last transaction that pays `address` and carries its id, in the newest of
/// `blocks`, oldest first, that has one.
pub open spec fn newest_paying_id(
    blocks: Seq<BlockView>,
    address: Public,
) -> Option<TransactionId>
    decreases blocks.len(),
{
    if blocks.len() == 0 {
        None
    } else {
        match last_paying_id(blocks.last().transactions, address) {
            Some(id) => Some(id),
            None => newest_paying_id(blocks.drop_last(), address),
        }
    }
}

/// Every payment that `transactions` make, output by output, with the transaction that makes it.
pub open spec fn payments(transactions: Seq<TransactionView>) -> Seq<(Public, TransactionView)>
    decreases transactions.len(),
{
    if transactions.len() == 0 {
        Seq::empty()
    } else {
        payments(transactions.drop_last()) + transactions.last().outputs.map_values(
            |o: TransactionOutput| (o.receiver, transactions.last()),
        )
    }
}

/// A last payment exists exactly when some transaction pays the address, and it is one of those.
pub proof fn law_last_payment(transactions: Seq<TransactionView>, address: Public)
    ensures
        last_payment(transactions, address) is Some <==> exists|i: int|
            0 <= i < transactions.len() && #[trigger] transactions[i].pays(address),
        last_payment(transactions, address) matches Some(t) ==> t.pays(address)
            && transactions.contains(t),
    decreases transactions.len(),
{
    if transactions.len() > 0 && !transactions.last().pays(address) {
        let rest = transactions.drop_last();
        law_last_payment(rest, address);
        if exists|i: int| 0 <= i < transactions.len() && #[trigger] transactions[i].pays(address) {
            let i = choose|i: int|
                0 <= i < transactions.len() && #[trigger] transactions[i].pays(address);
            assert(rest[i].pays(address));
        }
        if let Some(t) = last_payment(rest, address) {
            let i = choose|i: int| 0 <= i < rest.len() && rest[i] == t;
            assert(transactions[i] == t);
            let j = choose|j: int| 0 <= j < rest.len() && #[trigger] rest[j].pays(address);
            assert(transactions[j].pays(address));
        }
    } else if transactions.len() > 0 {
        assert(transactions[transactions.len() - 1].pays(address));
    }
}

proof fn lemma_last_paying_id(transactions: Seq<TransactionView>, address: Public)
    ensures
        last_paying_id(transactions, address) matches Some(id) ==> exists|i: int|
            0 <= i < transactions.len() && #[trigger] transactions[i].pays(address)
                && transactions[i].transaction_id == Some(id),
        (forall|i: int|
            0 <= i < transactions.len() ==> !(#[trigger] transactions[i]).pays(address))
            ==> last_paying_id(transactions, address) is None,
        last_payment(transactions, address) matches Some(t) && t.transaction_id is Some
            ==> last_paying_id(transactions, address) == last_payment(
            transactions,
            address,
        )->0.transaction_id,
    decreases transactions.len(),
{
    if transactions.len() > 0 {
        let rest = transactions.drop_last();
        let n = transactions.len() - 1;
        lemma_last_paying_id(rest, address);
        assert(transactions[n] == transactions.last());
        if let Some(id) = last_paying_id(rest, address) {
            let i = choose|i: int|
                0 <= i < rest.len() && #[trigger] rest[i].pays(address) && rest[i].transaction_id
                    == Some(id);
            assert(transactions[i].pays(address));
        }
        assert forall|i: int| 0 <= i < rest.len() implies rest[i] == #[trigger] transactions[i] by {
        }
    }
}

/// The newest paying id is that of a payment in one of the blocks. If the last payment of the
/// newest block that pays the address carries its id, it is that one.
pub proof fn law_newest_paying_id(blocks: Seq<BlockView>, address: Public)
    ensures
        newest_paying_id(blocks, address) matches Some(id) ==> exists|i: int|
            0 <= i < blocks.len() && #[trigger] blocks[i].pays_by(id, address),
        (forall|i: int| 0 <= i < blocks.len() ==> !(#[trigger] blocks[i]).pays(address))
            ==> newest_paying_id(blocks, address) is None,
        forall|k: int|
            #![trigger blocks[k]]
            0 <= k < blocks.len() && blocks[k].pays(address) && (forall|i: int|
                k < i < blocks.len() ==> !(#[trigger] blocks[i]).pays(address)) && last_payment(
                blocks[k].transactions,
                address,
            )->0.transaction_id is Some ==> newest_paying_id(blocks, address) == last_payment(
                blocks[k].transactions,
                address,
            )->0.transaction_id,
    decreases blocks.len(),
{
    if blocks.len() > 0 {
        let rest = blocks.drop_last();
        let n = blocks.len() - 1;
        assert(blocks[n] == blocks.last());
        law_newest_paying_id(rest, address);
        lemma_last_paying_id(blocks[n].transactions, address);
        law_last_payment(blocks[n].transactions, address);
        assert forall|i: int| 0 <= i < rest.len() implies rest[i] == #[trigger] blocks[i] by {}
        if let Some(id) = newest_paying_id(blocks, address) {
            if last_paying_id(blocks[n].transactions, address) == Some(id) {
                assert(blocks[n].pays_by(id, address));
            } else {
                let i = choose|i: int|
                    0 <= i < rest.len() && #[trigger] rest[i].pays_by(id, address);
                assert(blocks[i].pays_by(id, address));
            }
        }
        assert forall|k: int|
            #![trigger blocks[k]]
            0 <= k < blocks.len() && blocks[k].pays(address) && (forall|i: int|
                k < i < blocks.len() ==> !(#[trigger] blocks[i]).pays(address)) && last_payment(
                blocks[k].transactions,
                address,
            )->0.transaction_id is Some implies newest_paying_id(blocks, address) == last_payment(
            blocks[k].transactions,
            address,
        )->0.transaction_id by {
            if k < n {
                assert(!blocks[n].pays(address));
                assert(forall|i: int|
                    0 <= i < blocks[n].transactions.len() ==> !(
                    #[trigger] blocks[n].transactions[i]).pays(address));
                assert(rest[k] == blocks[k]);
                assert forall|i: int| k < i < rest.len() implies !(#[trigger] rest[i]).pays(
                    address,
                ) by {
                    assert(!blocks[i].pays(address));
                }
            }
        }
    }
}

/// Something that happened on the chain.
#[allow(inconsistent_fields)]
#[derive(PartialEq, Eq, Debug)]
pub enum ChainEvent {
    /// A block was added to the chain.
    Block { block: Block },
    /// A transaction entered the mempool.
    Transaction { transaction: Transaction },
    /// A transaction left the mempool without being added to a block.
    TransactionExpiration { transaction: TransactionId },
}

/// The contents of a [`ChainEvent`].
#[allow(inconsistent_fields)]
pub enum ChainEventView {
    Block { block: BlockView },
    Transaction { transaction: TransactionView },
    TransactionExpiration { transaction: TransactionId },
}

impl View for ChainEvent {
    type V = ChainEventView;

    open spec fn view(&self) -> ChainEventView {
        match self {
            ChainEvent::Block { block } => ChainEventView::Block { block: block@ },
            ChainEvent::Transaction { transaction } => ChainEventView::Transaction {
                transaction: transaction@,
            },
            ChainEvent::TransactionExpiration {
                transaction,
            } => ChainEventView::TransactionExpiration { transaction: *transaction },
        }
    }
}

} // verus!
