use range_sync::batch::{Batch, BatchId, PendingBatches};
use range_sync::peer_pool::PeerPool;
use range_sync::types::{BeaconBlock, Hash256, PeerId, Slot};

fn peer(n: u8) -> PeerId {
    PeerId::from_bytes(vec![n, 0, n])
}

fn batch(id: u64, start: u64, end: u64, n: u8) -> Batch<u32> {
    Batch::new(BatchId(id), Slot(start), Slot(end), Hash256([9; 32]), peer(n))
}

fn block(slot: u64, body: u32) -> BeaconBlock<u32> {
    BeaconBlock { slot: Slot(slot), body }
}

#[test]
fn slots_saturate() {
    assert_eq!(Slot::new(3).saturating_add(4), Slot(7));
    assert_eq!(Slot(u64::MAX - 1).saturating_add(1), Slot(u64::MAX));
    assert_eq!(Slot(u64::MAX).saturating_add(50).as_u64(), u64::MAX);
}

#[test]
fn peers_are_compared_by_their_bytes() {
    assert_eq!(peer(1), peer(1).clone());
    assert!(peer(1) != peer(2));
    assert!(PeerId::from_bytes(vec![1]) != PeerId::from_bytes(vec![1, 1]));
    assert_eq!(peer(4).as_bytes(), &vec![4, 0, 4]);
}

#[test]
fn new_batch_is_fresh() {
    let b = batch(3, 100, 150, 1);
    assert_eq!(b.id, BatchId(3));
    assert_eq!(b.start_slot, Slot(100));
    assert_eq!(b.end_slot, Slot(150));
    assert_eq!(b.head_root, Hash256([9; 32]));
    assert_eq!(b.current_peer, peer(1));
    assert_eq!(b.retries, 0);
    assert!(b.downloaded_blocks.is_empty());
}

#[test]
fn request_asks_for_the_range_of_the_batch() {
    let request = batch(3, 100, 150, 1).to_blocks_by_range_request();
    assert_eq!(request.head_block_root, Hash256([9; 32]));
    assert_eq!(request.start_slot, 100);
    assert_eq!(request.count, 50);
    assert_eq!(request.step, 1);
    assert_eq!(batch(1, 7, 12, 1).to_blocks_by_range_request().count, 5);
    assert_eq!(batch(1, 7, 700, 1).to_blocks_by_range_request().count, 50);
    assert_eq!(batch(1, 7, 3, 1).to_blocks_by_range_request().count, 0);
}

#[test]
fn range_check_looks_at_the_first_and_the_last_block() {
    let mut b = batch(1, 10, 20, 1);
    assert!(!b.is_out_of_range());
    b.downloaded_blocks = vec![block(10, 0), block(20, 0)];
    assert!(!b.is_out_of_range());
    b.downloaded_blocks = vec![block(10, 0), block(21, 0)];
    assert!(b.is_out_of_range());
    b.downloaded_blocks = vec![block(9, 0), block(12, 0)];
    assert!(b.is_out_of_range());
    b.downloaded_blocks = vec![block(10, 0), block(99, 0), block(12, 0)];
    assert!(!b.is_out_of_range());
}

#[test]
fn pending_batches_are_kept_under_their_request() {
    let mut pending: PendingBatches<u32> = PendingBatches::new();
    assert_eq!(pending.len(), 0);
    pending.insert(5, batch(1, 0, 50, 1));
    pending.insert(6, batch(2, 50, 100, 2));
    assert_eq!(pending.len(), 2);
    assert!(pending.remove(7).is_none());
    assert!(pending.get(7).is_none());
    assert_eq!(pending.get(5).unwrap().id, BatchId(1));
    let b = pending.remove(6).unwrap();
    assert_eq!(b.id, BatchId(2));
    assert_eq!(pending.len(), 1);
    assert!(pending.remove(6).is_none());
    pending.insert(5, batch(9, 0, 50, 1));
    assert_eq!(pending.len(), 1);
    assert_eq!(pending.remove(5).unwrap().id, BatchId(9));
}

#[test]
fn pending_batches_collect_blocks() {
    let mut pending: PendingBatches<u32> = PendingBatches::new();
    pending.insert(5, batch(1, 0, 50, 1));
    assert_eq!(pending.add_block(4, block(1, 10)), None);
    assert_eq!(pending.add_block(5, block(1, 10)), Some(()));
    assert_eq!(pending.add_block(5, block(3, 30)), Some(()));
    let b = pending.remove(5).unwrap();
    let bodies: Vec<u32> = b.downloaded_blocks.iter().map(|x| x.body).collect();
    assert_eq!(bodies, vec![10, 30]);
    assert_eq!(b.downloaded_blocks[1].slot, Slot(3));
}

#[test]
fn peers_with_pending_batches_are_not_idle() {
    let mut pending: PendingBatches<u32> = PendingBatches::new();
    assert!(pending.peer_is_idle(&peer(1)));
    pending.insert(5, batch(1, 0, 50, 1));
    pending.insert(6, batch(2, 50, 100, 1));
    assert!(!pending.peer_is_idle(&peer(1)));
    assert!(pending.peer_is_idle(&peer(2)));
    pending.remove(5);
    assert!(!pending.peer_is_idle(&peer(1)));
    pending.remove(6);
    assert!(pending.peer_is_idle(&peer(1)));
}

#[test]
fn peer_pool_is_a_set() {
    let mut pool = PeerPool::new();
    assert_eq!(pool.len(), 0);
    pool.insert(peer(1));
    pool.insert(peer(2));
    pool.insert(peer(1));
    assert_eq!(pool.len(), 2);
    assert!(pool.contains(&peer(2)));
    assert!(!pool.contains(&peer(3)));
    assert_eq!(pool.refs().len(), 2);
    assert_eq!(pool.other_than(&peer(1)), Some(&peer(2)));
    assert!(pool.other_than(&peer(3)).is_some());
    assert_eq!(pool.drain().len(), 2);
    assert_eq!(pool.len(), 0);
    assert_eq!(pool.other_than(&peer(1)), None);
}

#[test]
fn peer_pool_has_no_other_than_its_only_member() {
    let mut pool = PeerPool::new();
    pool.insert(peer(1));
    assert_eq!(pool.other_than(&peer(1)), None);
    assert_eq!(pool.other_than(&peer(2)), Some(&peer(1)));
}
