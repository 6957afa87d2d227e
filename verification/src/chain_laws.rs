//! Laws of payments, of the views that the contracts speak of, and of the queue, output by output
//! and block by block.
use crate::chain::{
    last_payment, last_paying_id, newest_paying_id, payments, Block, BlockView, ChainEvent,
    ChainEventView, Transaction, TransactionInput, TransactionOutput, TransactionView,
};
use crate::chain_interaction::{released, IdentifiedTransaction};
use crate::confirmation_queue::{
    advanced, confirmed, grown, kept, lemma_kept, orphans, orphans_hashed, standing,
};
use crate::ids::{Bytes32, Digest, Public, TransactionId};
use vstd::prelude::*;

verus! {

/// Whether some output of `transaction` goes to `address`.
pub open spec fn receives(transaction: TransactionView, address: Public) -> bool {
    exists|j: int|
        0 <= j < transaction.outputs.len() && (#[trigger] transaction.outputs[j]).receiver
            == address
}

/// Whether no output of any of `transactions` goes to `address`.
pub open spec fn none_to(transactions: Seq<TransactionView>, address: Public) -> bool {
    forall|i: int, j: int|
        0 <= i < transactions.len() && 0 <= j < transactions[i].outputs.len() ==> (
        #[trigger] transactions[i].outputs[j]).receiver != address
}

/// Whether the transaction at `i` is the last of `transactions` with an output to `address`.
pub open spec fn last_to(transactions: Seq<TransactionView>, address: Public, i: int) -> bool {
    &&& 0 <= i < transactions.len()
    &&& receives(transactions[i], address)
    &&& forall|k: int| i < k < transactions.len() ==> !receives(#[trigger] transactions[k], address)
}

/// Whether a block that stands on `previous` leaves exactly the first `n` blocks of `queue`,
/// oldest first: they end with the newest block whose hash is `previous`, or there is no such
/// block and none is left.
pub open spec fn forks_at(queue: Seq<BlockView>, previous: Digest, n: int) -> bool {
    &&& 0 <= n <= queue.len()
    &&& n > 0 ==> queue[n - 1].hash == Some(previous)
    &&& forall|i: int| n <= i < queue.len() ==> (#[trigger] queue[i]).hash != Some(previous)
}

/// The view of a transaction holds all that the transaction holds.
pub proof fn law_transaction_view(transaction: Transaction)
    ensures
        transaction@.inputs == transaction.inputs@,
        transaction@.outputs == transaction.outputs@,
        transaction@.transaction_id == transaction.transaction_id,
        transaction@.nonce == transaction.nonce,
        transaction@.timestamp == transaction.timestamp,
{
}

/// The view of a block holds all of its transactions in their order, and both of its hashes.
pub proof fn law_block_view(block: Block)
    ensures
        block@.transactions.len() == block.transactions@.len(),
        forall|i: int|
            0 <= i < block.transactions@.len() ==> (#[trigger] block@.transactions[i])
                == block.transactions@[i]@,
        block@.previous_block == block.previous_block,
        block@.hash == block.hash,
{
}

/// The view of an event is of the same kind and holds the same block, transaction or id.
pub proof fn law_event_view(event: ChainEvent)
    ensures
        event matches ChainEvent::Block { block } ==> event@ == (ChainEventView::Block {
            block: block@,
        }),
        event matches ChainEvent::Transaction { transaction } ==> event@ == (
        ChainEventView::Transaction { transaction: transaction@ }),
        event matches ChainEvent::TransactionExpiration { transaction } ==> event@ == (
        ChainEventView::TransactionExpiration { transaction }),
{
}

/// The view of an identified transaction holds its id and the whole transaction, and it is
/// well-formed exactly when the transaction carries that id.
pub proof fn law_identified_transaction_view(identified: IdentifiedTransaction)
    ensures
        identified@.0 == identified.transaction_id,
        identified@.1 == identified.transaction@,
        identified.wf() <==> identified.transaction.transaction_id == Some(
            identified.transaction_id,
        ),
{
}

/// There are thirty-two bytes, and two values are filed under one key only if they are equal.
pub proof fn law_keys_decide_equality(a: Bytes32, b: Bytes32)
    ensures
        a@.len() == 32,
        a.key_spec() == b.key_spec() ==> a == b,
{
    vstd::bytes::lemma_auto_spec_u128_to_from_le_bytes();
}

/// A transaction pays an address exactly when one of its outputs, at whatever position, goes to
/// it.
pub proof fn law_every_output_pays(transaction: TransactionView, address: Public)
    ensures
        transaction.pays(address) <==> receives(transaction, address),
        forall|j: int|
            0 <= j < transaction.outputs.len() ==> transaction.pays(
                (#[trigger] transaction.outputs[j]).receiver,
            ),
{
    if receives(transaction, address) {
        let j = choose|j: int|
            0 <= j < transaction.outputs.len() && (#[trigger] transaction.outputs[j]).receiver
                == address;
        assert(transaction.outputs[j].receiver == address);
    }
    if transaction.pays(address) {
        let j = choose|j: int|
            0 <= j < transaction.outputs.len() && #[trigger] transaction.outputs[j].receiver
                == address;
        assert(transaction.outputs[j].receiver == address);
    }
    assert forall|j: int| 0 <= j < transaction.outputs.len() implies transaction.pays(
        (#[trigger] transaction.outputs[j]).receiver,
    ) by {
        assert(transaction.outputs[j].receiver == transaction.outputs[j].receiver);
    }
}

/// A block pays an address exactly when one of its transactions has an output to it, and pays it
/// by an id exactly when one that carries this id has.
pub proof fn law_every_transaction_of_a_block_pays(
    block: BlockView,
    address: Public,
    id: TransactionId,
)
    ensures
        block.pays(address) <==> exists|i: int|
            0 <= i < block.transactions.len() && receives(
                #[trigger] block.transactions[i],
                address,
            ),
        block.pays_by(id, address) <==> exists|i: int|
            0 <= i < block.transactions.len() && (#[trigger] block.transactions[i]).transaction_id
                == Some(id) && receives(block.transactions[i], address),
{
    assert forall|i: int| 0 <= i < block.transactions.len() implies (
    #[trigger] block.transactions[i]).pays(address) == receives(
        block.transactions[i],
        address,
    ) by {
        law_every_output_pays(block.transactions[i], address);
    }
    if block.pays_by(id, address) {
        let i = choose|i: int|
            0 <= i < block.transactions.len() && #[trigger] block.transactions[i].pays(address)
                && block.transactions[i].transaction_id == Some(id);
        assert(receives(block.transactions[i], address));
    }
    if exists|i: int|
        0 <= i < block.transactions.len() && (#[trigger] block.transactions[i]).transaction_id
            == Some(id) && receives(block.transactions[i], address) {
        let i = choose|i: int|
            0 <= i < block.transactions.len() && (#[trigger] block.transactions[i]).transaction_id
                == Some(id) && receives(block.transactions[i], address);
        assert(block.transactions[i].pays(address));
    }
    if block.pays(address) {
        let i = choose|i: int|
            0 <= i < block.transactions.len() && #[trigger] block.transactions[i].pays(address);
        assert(receives(block.transactions[i], address));
    }
    if exists|i: int|
        0 <= i < block.transactions.len() && receives(#[trigger] block.transactions[i], address) {
        let i = choose|i: int|
            0 <= i < block.transactions.len() && receives(
                #[trigger] block.transactions[i],
                address,
            );
        assert(block.transactions[i].pays(address));
    }
}

/// Of several transactions with an output to an address, the last one counts; without any, none
/// does.
pub proof fn law_the_last_payment_counts(
    transactions: Seq<TransactionView>,
    address: Public,
    i: int,
)
    ensures
        last_to(transactions, address, i) ==> last_payment(transactions, address) == Some(
            transactions[i],
        ),
        none_to(transactions, address) <==> last_payment(transactions, address) is None,
    decreases transactions.len(),
{
    if transactions.len() > 0 {
        let n = transactions.len() - 1;
        let rest = transactions.drop_last();
        law_the_last_payment_counts(rest, address, i);
        law_every_output_pays(transactions[n], address);
        if last_to(transactions, address, i) && i < n {
            assert(!receives(transactions[n], address));
            assert forall|k: int| i < k < rest.len() implies !receives(
                #[trigger] rest[k],
                address,
            ) by {
                assert(!receives(transactions[k], address));
            }
        }
        if none_to(transactions, address) {
            assert forall|x: int, y: int|
                0 <= x < rest.len() && 0 <= y < rest[x].outputs.len() implies (
            #[trigger] rest[x].outputs[y]).receiver != address by {
                assert(transactions[x].outputs[y].receiver != address);
            }
            if receives(transactions[n], address) {
                let j = choose|j: int|
                    0 <= j < transactions[n].outputs.len() && (
                    #[trigger] transactions[n].outputs[j]).receiver == address;
                assert(transactions[n].outputs[j].receiver != address);
            }
        }
        if last_payment(transactions, address) is None {
            assert forall|x: int, y: int|
                0 <= x < transactions.len() && 0 <= y < transactions[x].outputs.len() implies (
            #[trigger] transactions[x].outputs[y]).receiver != address by {
                if x < n {
                    assert(rest[x].outputs[y].receiver != address);
                }
            }
        }
    }
}

/// A transaction with an output to an address is one of those that pay it, so there is a last.
pub proof fn law_some_payment_is_last(
    transactions: Seq<TransactionView>,
    address: Public,
) -> (i: int)
    requires
        !none_to(transactions, address),
    ensures
        last_to(transactions, address, i),
    decreases transactions.len(),
{
    let (x, y) = choose|x: int, y: int|
        0 <= x < transactions.len() && 0 <= y < transactions[x].outputs.len() && (
        #[trigger] transactions[x].outputs[y]).receiver == address;
    let n = transactions.len() - 1;
    let rest = transactions.drop_last();
    if receives(transactions[n], address) {
        n
    } else {
        if x == n {
            assert(transactions[n].outputs[y].receiver == address);
        }
        assert(rest[x].outputs[y].receiver == address);
        let i = law_some_payment_is_last(rest, address);
        assert(rest[i] == transactions[i]);
        assert forall|k: int| i < k < transactions.len() implies !receives(
            #[trigger] transactions[k],
            address,
        ) by {
            if k < n {
                assert(!receives(rest[k], address));
            }
        }
        i
    }
}

/// The newest payment that carries an id: a later one without an id is passed over, and so is
/// every earlier one.
pub proof fn law_the_newest_payment_counts(
    blocks: Seq<BlockView>,
    address: Public,
    b: int,
    i: int,
)
    ensures
        ({
            &&& 0 <= b < blocks.len()
            &&& 0 <= i < blocks[b].transactions.len()
            &&& receives(blocks[b].transactions[i], address)
            &&& blocks[b].transactions[i].transaction_id is Some
            &&& forall|k: int|
                i < k < blocks[b].transactions.len() && receives(
                    #[trigger] blocks[b].transactions[k],
                    address,
                ) ==> blocks[b].transactions[k].transaction_id is None
            &&& forall|c: int, k: int|
                b < c < blocks.len() && 0 <= k < blocks[c].transactions.len() && receives(
                    #[trigger] blocks[c].transactions[k],
                    address,
                ) ==> blocks[c].transactions[k].transaction_id is None
        }) ==> newest_paying_id(blocks, address) == blocks[b].transactions[i].transaction_id,
        (forall|c: int, k: int|
            0 <= c < blocks.len() && 0 <= k < blocks[c].transactions.len() && receives(
                #[trigger] blocks[c].transactions[k],
                address,
            ) ==> blocks[c].transactions[k].transaction_id is None) ==> newest_paying_id(
            blocks,
            address,
        ) is None,
    decreases blocks.len(),
{
    if blocks.len() > 0 {
        let n = blocks.len() - 1;
        let rest = blocks.drop_last();
        law_the_newest_payment_counts(rest, address, b, i);
        lemma_last_id(blocks[n].transactions, address, i);
        assert forall|c: int| 0 <= c < n implies rest[c] == #[trigger] blocks[c] by {}
        if b < n {
            if forall|c: int, k: int|
                b < c < blocks.len() && 0 <= k < blocks[c].transactions.len() && receives(
                    #[trigger] blocks[c].transactions[k],
                    address,
                ) ==> blocks[c].transactions[k].transaction_id is None {
                assert forall|k: int|
                    0 <= k < blocks[n].transactions.len() && receives(
                        #[trigger] blocks[n].transactions[k],
                        address,
                    ) implies blocks[n].transactions[k].transaction_id is None by {}
            }
        }
    }
}

proof fn lemma_last_id(transactions: Seq<TransactionView>, address: Public, i: int)
    ensures
        ({
            &&& 0 <= i < transactions.len()
            &&& receives(transactions[i], address)
            &&& transactions[i].transaction_id is Some
            &&& forall|k: int|
                i < k < transactions.len() && receives(#[trigger] transactions[k], address)
                    ==> transactions[k].transaction_id is None
        }) ==> last_paying_id(transactions, address) == transactions[i].transaction_id,
        (forall|k: int|
            0 <= k < transactions.len() && receives(#[trigger] transactions[k], address)
                ==> transactions[k].transaction_id is None) ==> last_paying_id(
            transactions,
            address,
        ) is None,
    decreases transactions.len(),
{
    if transactions.len() > 0 {
        let n = transactions.len() - 1;
        let rest = transactions.drop_last();
        lemma_last_id(rest, address, i);
        law_every_output_pays(transactions[n], address);
        assert(transactions[n] == transactions.last());
        assert forall|k: int| 0 <= k < n implies rest[k] == #[trigger] transactions[k] by {}
    }
}

/// The payments of one transaction are its outputs, each once and in order; those of a run of
/// transactions followed by another are those of the first run followed by those of the second.
/// So each output counts once, wherever it stands.
pub proof fn law_each_output_is_one_payment(
    transaction: TransactionView,
    first: Seq<TransactionView>,
    then: Seq<TransactionView>,
)
    ensures
        payments(seq![transaction]).len() == transaction.outputs.len(),
        forall|j: int|
            0 <= j < transaction.outputs.len() ==> #[trigger] payments(seq![transaction])[j] == (
                transaction.outputs[j].receiver,
                transaction,
            ),
        payments(first + then) == payments(first) + payments(then),
        payments(Seq::empty()) == Seq::<(Public, TransactionView)>::empty(),
    decreases then.len(),
{
    let one = seq![transaction];
    assert(one.drop_last() =~= Seq::<TransactionView>::empty());
    assert(one.last() == transaction);
    assert(payments(one.drop_last()) =~= Seq::<(Public, TransactionView)>::empty());
    assert(payments(one) =~= transaction.outputs.map_values(
        |o: TransactionOutput| (o.receiver, transaction),
    ));
    if then.len() == 0 {
        assert(first + then =~= first);
        assert(payments(first) + payments(then) =~= payments(first));
    } else {
        let all = first + then;
        law_each_output_is_one_payment(transaction, first, then.drop_last());
        assert(all.drop_last() =~= first + then.drop_last());
        assert(all.last() == then.last());
        assert(payments(all) =~= payments(first) + payments(then));
    }
}

/// Where the queue forks: there is exactly one such place for every block.
pub proof fn law_a_fork_has_one_place(queue: Seq<BlockView>, previous: Digest, n: int, m: int)
    ensures
        exists|k: int| forks_at(queue, previous, k),
        forks_at(queue, previous, n) && forks_at(queue, previous, m) ==> n == m,
{
    lemma_kept(queue, previous);
    assert(forks_at(queue, previous, kept(queue, previous) as int));
    if forks_at(queue, previous, n) && forks_at(queue, previous, m) {
        if n < m {
            assert(queue[m - 1].hash != Some(previous));
        }
        if m < n {
            assert(queue[n - 1].hash != Some(previous));
        }
    }
}

/// A block drops exactly the blocks above the one that it stands on and comes on top of the rest.
/// If they are then more than the confirmation count, the oldest is confirmed and leaves.
pub proof fn law_queue_after_a_block(
    queue: Seq<BlockView>,
    block: BlockView,
    confirmation_count: nat,
    n: int,
)
    requires
        forks_at(queue, block.previous_block, n),
    ensures
        kept(queue, block.previous_block) == n,
        orphans(queue, block) == queue.skip(n),
        standing(queue, block) == queue.take(n),
        grown(queue, block) == queue.take(n).push(block),
        confirmed(queue, block, confirmation_count) == if n + 1 > confirmation_count {
            Some(if n > 0 { queue[0] } else { block })
        } else {
            None
        },
        advanced(queue, block, confirmation_count) == if n + 1 > confirmation_count {
            queue.take(n).push(block).skip(1)
        } else {
            queue.take(n).push(block)
        },
        orphans_hashed(queue, block.previous_block) <==> forall|i: int|
            n <= i < queue.len() ==> (#[trigger] queue[i]).hash is Some,
{
    lemma_kept(queue, block.previous_block);
    law_a_fork_has_one_place(
        queue,
        block.previous_block,
        n,
        kept(queue, block.previous_block) as int,
    );
    assert(forks_at(queue, block.previous_block, kept(queue, block.previous_block) as int));
    assert(queue.take(n).push(block).drop_first() =~= queue.take(n).push(block).skip(1));
}

/// Releasing is done input by input: of one input nothing is left if the transaction spends it and
/// all of it otherwise, and of a run of inputs followed by another what is left of the first run
/// is followed by what is left of the second.
pub proof fn law_inputs_are_released_one_by_one(
    first: Seq<TransactionInput>,
    then: Seq<TransactionInput>,
    input: TransactionInput,
    transaction: TransactionView,
)
    ensures
        released(Seq::empty(), transaction) == Seq::<TransactionInput>::empty(),
        released(seq![input], transaction) == if (exists|i: int|
            0 <= i < transaction.inputs.len() && #[trigger] transaction.inputs[i] == input) {
            Seq::empty()
        } else {
            seq![input]
        },
        released(first + then, transaction) == released(first, transaction) + released(
            then,
            transaction,
        ),
    decreases then.len(),
{
    reveal(Seq::filter);
    let one = seq![input];
    assert(one.drop_last() =~= Seq::<TransactionInput>::empty());
    assert(one.last() == input);
    assert(released(one.drop_last(), transaction) =~= Seq::<TransactionInput>::empty());
    assert(Seq::<TransactionInput>::empty().push(input) =~= one);
    if then.len() == 0 {
        assert(first + then =~= first);
        assert(released(first, transaction) + released(then, transaction) =~= released(
            first,
            transaction,
        ));
    } else {
        let all = first + then;
        law_inputs_are_released_one_by_one(first, then.drop_last(), input, transaction);
        assert(all.drop_last() =~= first + then.drop_last());
        assert(all.last() == then.last());
        assert(released(all, transaction) =~= released(first, transaction) + released(
            then,
            transaction,
        ));
    }
}

} // verus!
