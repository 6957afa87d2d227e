//! The most recent blocks of the chain, held back until enough others stand on top of them.
use crate::chain::{last_paying_id, newest_paying_id, Block, BlockView};
use crate::ids::{Digest, Public, TransactionId};
use std::collections::VecDeque;
use vstd::prelude::*;

verus! {

/// How many blocks of `queue`, oldest first, remain when a block arrives that stands on
/// `previous`: all those up to the newest one whose hash is `previous`.
pub open spec fn kept(queue: Seq<BlockView>, previous: Digest) -> nat
    decreases queue.len(),
{
    if queue.len() == 0 || queue.last().hash == Some(previous) {
        queue.len()
    } else {
        kept(queue.drop_last(), previous)
    }
}

/// The blocks of `queue`, oldest first, that `block` orphans.
pub open spec fn orphans(queue: Seq<BlockView>, block: BlockView) -> Seq<BlockView> {
    queue.skip(kept(queue, block.previous_block) as int)
}

/// The blocks of `queue`, oldest first, that `block` stands on.
pub open spec fn standing(queue: Seq<BlockView>, block: BlockView) -> Seq<BlockView> {
    queue.take(kept(queue, block.previous_block) as int)
}

/// The queue with its orphans dropped and `block` on top.
pub open spec fn grown(queue: Seq<BlockView>, block: BlockView) -> Seq<BlockView> {
    standing(queue, block).push(block)
}

/// The block that gets enough confirmations when `block` arrives.
pub open spec fn confirmed(
    queue: Seq<BlockView>,
    block: BlockView,
    confirmation_count: nat,
) -> Option<BlockView> {
    if grown(queue, block).len() > confirmation_count {
        Some(grown(queue, block)[0])
    } else {
        None
    }
}

/// The queue after `block` has arrived and the block that it confirms, if any, has left.
pub open spec fn advanced(
    queue: Seq<BlockView>,
    block: BlockView,
    confirmation_count: nat,
) -> Seq<BlockView> {
    if grown(queue, block).len() > confirmation_count {
        grown(queue, block).drop_first()
    } else {
        grown(queue, block)
    }
}

/// The queue after all of `blocks` have arrived, in order.
pub open spec fn advanced_by_all(
    queue: Seq<BlockView>,
    blocks: Seq<BlockView>,
    confirmation_count: nat,
) -> Seq<BlockView>
    decreases blocks.len(),
{
    if blocks.len() == 0 {
        queue
    } else {
        advanced(
            advanced_by_all(queue, blocks.drop_last(), confirmation_count),
            blocks.last(),
            confirmation_count,
        )
    }
}

/// Whether each block stands on the one before it.
pub open spec fn linked(blocks: Seq<BlockView>) -> bool {
    forall|i: int, j: int|
        0 <= i && j == i + 1 && j < blocks.len() ==> (#[trigger] blocks[i]).hash == Some(
            (#[trigger] blocks[j]).previous_block,
        )
}

/// Whether every block that one which stands on `previous` orphans has a hash to be compared by.
pub open spec fn orphans_hashed(queue: Seq<BlockView>, previous: Digest) -> bool {
    forall|i: int|
        kept(queue, previous) <= i < queue.len() ==> (#[trigger] queue[i]).hash is Some
}

pub(crate) proof fn lemma_kept(queue: Seq<BlockView>, previous: Digest)
    ensures
        kept(queue, previous) <= queue.len(),
        kept(queue, previous) > 0 ==> queue[kept(queue, previous) - 1].hash == Some(previous),
        forall|i: int|
            kept(queue, previous) <= i < queue.len() ==> (#[trigger] queue[i]).hash != Some(
                previous,
            ),
    decreases queue.len(),
{
    if queue.len() > 0 && queue.last().hash != Some(previous) {
        lemma_kept(queue.drop_last(), previous);
        assert forall|i: int| kept(queue, previous) <= i < queue.len() implies (
        #[trigger] queue[i]).hash != Some(previous) by {
            if i < queue.len() - 1 {
                assert(queue.drop_last()[i].hash != Some(previous));
            }
        }
    }
}

/// The blocks of the queue stay linked whatever block arrives.
pub proof fn law_queue_stays_linked(
    queue: Seq<BlockView>,
    block: BlockView,
    confirmation_count: nat,
)
    requires
        linked(queue),
    ensures
        linked(grown(queue, block)),
        linked(advanced(queue, block, confirmation_count)),
{
    lemma_kept(queue, block.previous_block);
    let all = grown(queue, block);
    assert forall|i: int, j: int| 0 <= i && j == i + 1 && j < all.len() implies (
    #[trigger] all[i]).hash == Some((#[trigger] all[j]).previous_block) by {
        assert(all[i] == queue[i]);
        if j < all.len() - 1 {
            assert(all[j] == queue[j]);
        }
    }
    let rest = advanced(queue, block, confirmation_count);
    if all.len() > confirmation_count {
        assert forall|i: int, j: int| 0 <= i && j == i + 1 && j < rest.len() implies (
        #[trigger] rest[i]).hash == Some((#[trigger] rest[j]).previous_block) by {
            assert(rest[i] == all[i + 1]);
            assert(rest[j] == all[j + 1]);
        }
    }
}

/// A queue no longer than the confirmation count never grows beyond it.
pub proof fn law_queue_stays_bounded(
    queue: Seq<BlockView>,
    block: BlockView,
    confirmation_count: nat,
)
    requires
        queue.len() <= confirmation_count,
    ensures
        advanced(queue, block, confirmation_count).len() <= confirmation_count,
{
    lemma_kept(queue, block.previous_block);
}

/// A block is confirmed only when at least the confirmation count of blocks stands on top of it,
/// each on the one before, with the arriving block as the topmost.
pub proof fn law_confirmed_block_is_deep(
    queue: Seq<BlockView>,
    block: BlockView,
    confirmation_count: nat,
)
    requires
        linked(queue),
    ensures
        confirmed(queue, block, confirmation_count) matches Some(deep) ==> {
            let all = grown(queue, block);
            &&& all[0] == deep
            &&& all.last() == block
            &&& all.len() >= confirmation_count + 1
            &&& linked(all)
        },
{
    law_queue_stays_linked(queue, block, confirmation_count);
}

/// An arriving block that stands on the newest block orphans none.
pub proof fn law_extension_orphans_nothing(queue: Seq<BlockView>, block: BlockView)
    requires
        queue.len() == 0 || queue.last().hash == Some(block.previous_block),
    ensures
        orphans(queue, block) == Seq::<BlockView>::empty(),
        grown(queue, block) == queue.push(block),
{
    assert(queue.take(queue.len() as int) =~= queue);
}

/// How many blocks of `queue` have left it as confirmed once `n` linked blocks have arrived, the
/// first of which is `block` and which are no more than the confirmation count.
pub open spec fn confirmed_meanwhile(
    queue: Seq<BlockView>,
    block: BlockView,
    n: nat,
    confirmation_count: nat,
) -> nat {
    let all = kept(queue, block.previous_block) + n;
    if all > confirmation_count {
        (all - confirmation_count) as nat
    } else {
        0
    }
}

pub(crate) proof fn lemma_recent_blocks(
    queue: Seq<BlockView>,
    blocks: Seq<BlockView>,
    confirmation_count: nat,
    k: nat,
)
    requires
        queue.len() <= confirmation_count,
        linked(blocks),
        1 <= k <= confirmation_count,
        k <= blocks.len(),
    ensures
        ({
            let after = advanced_by_all(queue, blocks.take(k as int), confirmation_count);
            let len = kept(queue, blocks[0].previous_block);
            let gone = confirmed_meanwhile(queue, blocks[0], k, confirmation_count);
            &&& gone <= len <= queue.len()
            &&& after == (queue.take(len as int) + blocks.take(k as int)).skip(gone as int)
            &&& after.last() == blocks[k - 1]
        }),
    decreases k,
{
    let upto = blocks.take(k as int);
    let earlier = blocks.take(k - 1);
    assert(upto.drop_last() =~= earlier);
    let before = advanced_by_all(queue, earlier, confirmation_count);
    let after = advanced_by_all(queue, upto, confirmation_count);
    let block = blocks[k - 1];
    assert(upto.last() == block);
    let len = kept(queue, blocks[0].previous_block);
    let gone = confirmed_meanwhile(queue, blocks[0], k, confirmation_count);
    lemma_kept(queue, blocks[0].previous_block);
    if k == 1 {
        assert(before == queue);
    } else {
        lemma_recent_blocks(queue, blocks, confirmation_count, (k - 1) as nat);
        assert(before.last() == blocks[k - 2]);
        law_extension_orphans_nothing(before, block);
    }
    assert(after =~= (queue.take(len as int) + upto).skip(gone as int));
}

/// Of a run of linked blocks, one more than the confirmation count, the last confirms the first.
pub proof fn law_confirmed_after_enough_blocks(
    queue: Seq<BlockView>,
    blocks: Seq<BlockView>,
    confirmation_count: nat,
)
    requires
        queue.len() <= confirmation_count,
        blocks.len() == confirmation_count + 1,
        linked(blocks),
    ensures
        confirmed(
            advanced_by_all(queue, blocks.drop_last(), confirmation_count),
            blocks.last(),
            confirmation_count,
        ) == Some(blocks[0]),
{
    let n = confirmation_count as int;
    assert(blocks.drop_last() =~= blocks.take(n));
    if n == 0 {
        assert(blocks.drop_last() =~= Seq::<BlockView>::empty());
    } else {
        lemma_recent_blocks(queue, blocks, confirmation_count, confirmation_count);
        let before = advanced_by_all(queue, blocks.drop_last(), confirmation_count);
        law_extension_orphans_nothing(before, blocks.last());
    }
}

/// The id of the last transaction of `block` that pays `address` and carries its id.
fn last_id_paying(block: &Block, address: &Public) -> (id: Option<TransactionId>)
    ensures
        id == last_paying_id(block@.transactions, *address),
{
    let ghost all = block@.transactions;
    let mut len: usize = block.transactions.len();
    assert(all.take(len as int) =~= all);
    while len > 0
        invariant
            all == block@.transactions,
            len <= block.transactions@.len(),
            last_paying_id(all, *address) == last_paying_id(all.take(len as int), *address),
        decreases len,
    {
        let transaction = &block.transactions[len - 1];
        assert(all.take(len as int).last() == transaction@);
        assert(all.take(len as int).drop_last() =~= all.take(len - 1));
        if transaction.transaction_id.is_some() && transaction.pays(address) {
            return transaction.transaction_id;
        }
        len -= 1;
    }
    None
}

/// The blocks that still wait for confirmations, oldest first.
pub struct ConfirmationQueue {
    blocks: VecDeque<Block>,
}

impl View for ConfirmationQueue {
    type V = Seq<BlockView>;

    closed spec fn view(&self) -> Seq<BlockView> {
        self.blocks@.map_values(|b: Block| b@)
    }
}

impl ConfirmationQueue {
    /// A queue of no blocks.
    pub fn new() -> (queue: Self)
        ensures
            queue@ == Seq::<BlockView>::empty(),
    {
        let queue = ConfirmationQueue { blocks: VecDeque::new() };
        assert(queue@ =~= Seq::<BlockView>::empty());
        queue
    }

    /// How many blocks remain when a block arrives that stands on `previous`.
    pub fn kept_len(&self, previous: &Digest) -> (len: usize)
        ensures
            len == kept(self@, *previous),
            len <= self@.len(),
    {
        let mut len: usize = self.blocks.len();
        assert(self@.take(len as int) =~= self@);
        while len > 0
            invariant
                len <= self.blocks@.len(),
                kept(self@, *previous) == kept(self@.take(len as int), *previous),
            decreases len,
        {
            let block = &self.blocks[len - 1];
            assert(self@.take(len as int).last() == block@);
            let stands = match &block.hash {
                Some(hash) => *hash == *previous,
                None => false,
            };
            if stands {
                return len;
            }
            assert(self@.take(len as int).drop_last() =~= self@.take(len - 1));
            len -= 1;
        }
        len
    }

    /// Whether every block that leaves when one arrives that stands on `previous` has a hash.
    pub fn has_hashed_orphans(&self, previous: &Digest) -> (hashed: bool)
        ensures
            hashed == orphans_hashed(self@, *previous),
    {
        let first = self.kept_len(previous);
        proof {
            lemma_kept(self@, *previous);
        }
        for i in first..self.blocks.len()
            invariant
                first == kept(self@, *previous),
                forall|j: int| first <= j < i ==> (#[trigger] self@[j]).hash is Some,
        {
            assert(self@[i as int] == self.blocks@[i as int]@);
            if self.blocks[i].hash.is_none() {
                return false;
            }
        }
        true
    }

    /// The oldest block.
    pub fn oldest(&self) -> (block: Option<&Block>)
        ensures
            block matches Some(b) ==> self@.len() > 0 && b@ == self@[0],
            block is None ==> self@.len() == 0,
    {
        if self.blocks.len() == 0 {
            None
        } else {
            Some(&self.blocks[0])
        }
    }

    /// The id of the last transaction that pays `address` and carries its id, in the newest block
    /// that has one.
    pub fn newest_paying_id(&self, address: &Public) -> (id: Option<TransactionId>)
        ensures
            id == newest_paying_id(self@, *address),
    {
        let mut len: usize = self.blocks.len();
        assert(self@.take(len as int) =~= self@);
        while len > 0
            invariant
                len <= self.blocks@.len(),
                newest_paying_id(self@, *address) == newest_paying_id(
                    self@.take(len as int),
                    *address,
                ),
            decreases len,
        {
            let block = &self.blocks[len - 1];
            assert(self@.take(len as int).last() == block@);
            assert(self@.take(len as int).drop_last() =~= self@.take(len - 1));
            let id = last_id_paying(block, address);
            if id.is_some() {
                return id;
            }
            len -= 1;
        }
        None
    }

    /// Drop the blocks that a block which stands on `previous` orphans.
    /// The newest of them comes first.
    pub fn drop_orphans(&mut self, previous: &Digest) -> (dropped: Vec<Block>)
        ensures
            final(self)@ == old(self)@.take(kept(old(self)@, *previous) as int),
            dropped@.map_values(|b: Block| b@) == old(self)@.skip(
                kept(old(self)@, *previous) as int,
            ).reverse(),
    {
        let ghost all = self@;
        let ghost first = kept(self@, *previous) as int;
        let len = self.kept_len(previous);
        let mut dropped: Vec<Block> = Vec::new();
        proof {
            lemma_kept(self@, *previous);
            assert(all.take(all.len() as int) =~= all);
        }
        while self.blocks.len() > len
            invariant
                len == first,
                first <= self.blocks@.len() <= all.len(),
                self@ == all.take(self.blocks@.len() as int),
                dropped@.len() == all.len() - self.blocks@.len(),
                forall|i: int|
                    0 <= i < dropped@.len() ==> (#[trigger] dropped@[i])@ == all[all.len() - 1 - i],
            decreases self.blocks@.len(),
        {
            let ghost before = self.blocks@;
            assert(self@.last() == before.last()@);
            if let Some(block) = self.blocks.pop_back() {
                dropped.push(block);
            }
            assert(self@ =~= all.take(self.blocks@.len() as int));
        }
        assert(dropped@.map_values(|b: Block| b@) =~= all.skip(first).reverse());
        dropped
    }

    /// Put `block` on top, and take the oldest block out if that makes the queue longer than
    /// `confirmation_count`.
    pub fn push(&mut self, block: Block, confirmation_count: usize) -> (oldest: Option<Block>)
        ensures
            ({
                let all = old(self)@.push(block@);
                if all.len() > confirmation_count {
                    &&& oldest matches Some(b) && b@ == all[0]
                    &&& final(self)@ == all.drop_first()
                } else {
                    &&& oldest is None
                    &&& final(self)@ == all
                }
            }),
    {
        let ghost all = self@.push(block@);
        self.blocks.push_back(block);
        assert(self@ =~= all);
        if self.blocks.len() > confirmation_count {
            let oldest = self.blocks.pop_front();
            assert(self@ =~= all.drop_first());
            oldest
        } else {
            None
        }
    }
}

} // verus!
