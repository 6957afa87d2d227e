use snap_coin_pay::chain::Block;
use snap_coin_pay::confirmation_queue::ConfirmationQueue;
use snap_coin_pay::ids::{Bytes32, Digest};

fn hash(tag: u8) -> Digest {
    Digest { bytes: Bytes32::from_bytes(&[tag; 32]) }
}

fn block(tag: u8, previous: u8) -> Block {
    Block { transactions: vec![], previous_block: hash(previous), hash: Some(hash(tag)) }
}

fn chain_of(tags: &[u8]) -> ConfirmationQueue {
    let mut queue = ConfirmationQueue::new();
    for tag in tags {
        assert!(queue.push(block(*tag, tag - 1), 100).is_none());
    }
    queue
}

#[test]
fn a_queue_hands_out_its_oldest_block_beyond_the_count() {
    let mut queue = ConfirmationQueue::new();
    assert!(queue.oldest().is_none());
    assert!(queue.push(block(1, 0), 2).is_none());
    assert!(queue.push(block(2, 1), 2).is_none());
    assert_eq!(queue.oldest(), Some(&block(1, 0)));
    assert_eq!(queue.push(block(3, 2), 2), Some(block(1, 0)));
    assert_eq!(queue.oldest(), Some(&block(2, 1)));
}

#[test]
fn a_queue_with_no_count_confirms_at_once() {
    let mut queue = ConfirmationQueue::new();
    assert_eq!(queue.push(block(1, 0), 0), Some(block(1, 0)));
    assert!(queue.oldest().is_none());
}

#[test]
fn a_block_on_the_newest_one_orphans_none() {
    let mut queue = chain_of(&[1, 2, 3]);
    assert_eq!(queue.kept_len(&hash(3)), 3);
    assert!(queue.drop_orphans(&hash(3)).is_empty());
}

#[test]
fn a_fork_orphans_the_blocks_above_it_newest_first() {
    let mut queue = chain_of(&[1, 2, 3]);
    assert_eq!(queue.kept_len(&hash(1)), 1);
    assert_eq!(queue.drop_orphans(&hash(1)), vec![block(3, 2), block(2, 1)]);
    assert_eq!(queue.kept_len(&hash(1)), 1);
}

#[test]
fn a_block_on_an_unknown_one_orphans_all() {
    let mut queue = chain_of(&[1, 2]);
    assert_eq!(queue.kept_len(&hash(50)), 0);
    assert_eq!(queue.drop_orphans(&hash(50)), vec![block(2, 1), block(1, 0)]);
    assert!(queue.oldest().is_none());
}

#[test]
fn only_orphans_need_a_hash() {
    let mut queue = ConfirmationQueue::new();
    let unhashed = Block { transactions: vec![], previous_block: hash(0), hash: None };
    assert!(queue.push(unhashed, 100).is_none());
    assert!(!queue.has_hashed_orphans(&hash(7)));
    assert!(queue.push(block(2, 1), 100).is_none());
    assert!(queue.has_hashed_orphans(&hash(2)));
    assert!(!queue.has_hashed_orphans(&hash(7)));
}
