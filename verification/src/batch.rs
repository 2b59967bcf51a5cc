//! Batches of blocks, and the batches that peers have been asked for.
use crate::types::{BeaconBlock, BlocksByRangeRequest, Hash256, PeerId, RequestId, Slot};
use std::collections::HashMap;
use vstd::prelude::*;

verus! {

broadcast use vstd::std_specs::hash::group_hash_axioms;

/// Blocks are downloaded in batches from peers. This constant specifies how many blocks per batch
/// are requested. There is a timeout for each batch request. If this value is too high, we will
/// downvote peers with poor bandwidth. This can be set arbitrarily high, in which case the
/// responder will fill the response up to the max request size, assuming they have the bandwidth
/// to do so.
pub const BLOCKS_PER_BATCH: u64 = 50;

/// The position of a batch in its chain. The first batch has id 1.
#[derive(Clone, Copy, Debug, PartialEq, Eq, PartialOrd, Ord, Hash, Structural)]
pub struct BatchId(pub u64);

impl View for BatchId {
    type V = nat;

    open spec fn view(&self) -> nat {
        self.0 as nat
    }
}

/// A range of consecutive slots whose blocks are requested from a peer in a single request.
#[derive(Debug)]
pub struct Batch<B> {
    pub id: BatchId,
    /// The first slot that is requested.
    pub start_slot: Slot,
    /// The slot after the last one that is requested.
    pub end_slot: Slot,
    /// The head of the chain that the blocks are requested of.
    pub head_root: Hash256,
    /// The peer that the batch is assigned to.
    pub current_peer: PeerId,
    /// How often the batch has failed.
    pub retries: u8,
    /// The blocks that have arrived, in the order in which they came.
    pub downloaded_blocks: Vec<BeaconBlock<B>>,
}

/// What a `Batch` holds.
#[verifier::ext_equal]
pub struct BatchView<B> {
    pub id: nat,
    pub start_slot: nat,
    pub end_slot: nat,
    pub head_root: Hash256,
    pub current_peer: Seq<u8>,
    pub retries: nat,
    pub downloaded_blocks: Seq<BeaconBlock<B>>,
}

impl<B> View for Batch<B> {
    type V = BatchView<B>;

    open spec fn view(&self) -> BatchView<B> {
        BatchView {
            id: self.id@,
            start_slot: self.start_slot@,
            end_slot: self.end_slot@,
            head_root: self.head_root,
            current_peer: self.current_peer@,
            retries: self.retries as nat,
            downloaded_blocks: self.downloaded_blocks@,
        }
    }
}

impl<B> BatchView<B> {
    /// A batch that nothing has been downloaded of.
    pub open spec fn fresh(
        id: nat,
        start_slot: nat,
        end_slot: nat,
        head_root: Hash256,
        peer: Seq<u8>,
    ) -> Self {
        BatchView {
            id,
            start_slot,
            end_slot,
            head_root,
            current_peer: peer,
            retries: 0,
            downloaded_blocks: Seq::empty(),
        }
    }

    /// The batch once `block` has arrived.
    pub open spec fn with_block(self, block: BeaconBlock<B>) -> Self {
        BatchView { downloaded_blocks: self.downloaded_blocks.push(block), ..self }
    }

    /// The batch after one more failure, now assigned to `peer`.
    pub open spec fn reassigned(self, peer: Seq<u8>) -> Self {
        BatchView { retries: self.retries + 1, current_peer: peer, ..self }
    }

    /// Whether the first or the last block lies outside the range of the batch.
    pub open spec fn is_out_of_range(self) -> bool {
        self.downloaded_blocks.len() > 0 && (self.start_slot > self.downloaded_blocks.first().slot@
            || self.end_slot < self.downloaded_blocks.last().slot@)
    }

    /// How many blocks are requested: the whole range, at most `BLOCKS_PER_BATCH`.
    pub open spec fn requested_blocks(self) -> nat {
        if self.end_slot < self.start_slot {
            0
        } else if self.end_slot - self.start_slot <= BLOCKS_PER_BATCH {
            (self.end_slot - self.start_slot) as nat
        } else {
            BLOCKS_PER_BATCH as nat
        }
    }

    /// Whether `request` asks for this batch.
    pub open spec fn is_requested_by(self, request: BlocksByRangeRequest) -> bool {
        &&& request.head_block_root == self.head_root
        &&& request.start_slot == self.start_slot
        &&& request.count == self.requested_blocks()
        &&& request.step == 1
    }
}

/// The views of `batches`, in order.
pub open spec fn views<B>(batches: Seq<Batch<B>>) -> Seq<BatchView<B>> {
    batches.map_values(|batch: Batch<B>| batch@)
}

impl<B> Batch<B> {
    pub fn new(
        id: BatchId,
        start_slot: Slot,
        end_slot: Slot,
        head_root: Hash256,
        peer_id: PeerId,
    ) -> (r: Batch<B>)
        ensures
            r@ == BatchView::<B>::fresh(id@, start_slot@, end_slot@, head_root, peer_id@),
    {
        Batch {
            id,
            start_slot,
            end_slot,
            head_root,
            current_peer: peer_id,
            retries: 0,
            downloaded_blocks: Vec::new(),
        }
    }

    /// The request for the blocks of this batch.
    pub fn to_blocks_by_range_request(&self) -> (r: BlocksByRangeRequest)
        ensures
            self@.is_requested_by(r),
    {
        let range: u64 = self.end_slot.0.saturating_sub(self.start_slot.0);
        let count: u64 = if range < BLOCKS_PER_BATCH {
            range
        } else {
            BLOCKS_PER_BATCH
        };
        BlocksByRangeRequest {
            head_block_root: self.head_root,
            start_slot: self.start_slot.0,
            count,
            step: 1,
        }
    }

    /// Whether the first or the last block lies outside the range of the batch. The order of the
    /// blocks is verified when they are processed.
    pub fn is_out_of_range(&self) -> (r: bool)
        ensures
            r == self@.is_out_of_range(),
    {
        let len = self.downloaded_blocks.len();
        if len == 0 {
            return false;
        }
        self.start_slot.0 > self.downloaded_blocks[0].slot.0 || self.end_slot.0
            < self.downloaded_blocks[len - 1].slot.0
    }
}

/// The batches that are awaiting a response, each under the id of its request.
#[derive(Debug)]
pub struct PendingBatches<B> {
    batches: HashMap<RequestId, Batch<B>>,
}

impl<B> View for PendingBatches<B> {
    type V = Map<RequestId, BatchView<B>>;

    closed spec fn view(&self) -> Map<RequestId, BatchView<B>> {
        self.batches@.map_values(|batch: Batch<B>| batch@)
    }
}

/// Whether none of the `pending` batches is assigned to `peer`.
pub open spec fn is_idle<B>(pending: Map<RequestId, BatchView<B>>, peer: Seq<u8>) -> bool {
    forall|id: RequestId| #[trigger]
        pending.contains_key(id) ==> pending[id].current_peer != peer
}

impl<B> PendingBatches<B> {
    pub fn new() -> (r: PendingBatches<B>)
        ensures
            r@ == Map::<RequestId, BatchView<B>>::empty(),
    {
        let r = PendingBatches { batches: HashMap::new() };
        assert(r@ =~= Map::<RequestId, BatchView<B>>::empty());
        r
    }

    /// The number of pending batches.
    pub fn len(&self) -> (r: usize)
        ensures
            r == self@.len(),
            self@.dom().finite(),
    {
        assert(self@.dom() =~= self.batches@.dom());
        self.batches.len()
    }

    /// The batch that was requested under `request_id`.
    pub fn get(&self, request_id: RequestId) -> (r: Option<&Batch<B>>)
        ensures
            match r {
                Some(batch) => self@.contains_key(request_id) && batch@ == self@[request_id],
                None => !self@.contains_key(request_id),
            },
    {
        self.batches.get(&request_id)
    }

    /// Records that `batch` has been requested under `request_id`, in place of what was there.
    pub fn insert(&mut self, request_id: RequestId, batch: Batch<B>)
        ensures
            final(self)@ == old(self)@.insert(request_id, batch@),
    {
        let ghost view = batch@;
        self.batches.insert(request_id, batch);
        assert(self@ =~= old(self)@.insert(request_id, view));
    }

    /// Takes the batch that was requested under `request_id` out of the pending ones.
    pub fn remove(&mut self, request_id: RequestId) -> (r: Option<Batch<B>>)
        ensures
            final(self)@ == old(self)@.remove(request_id),
            match r {
                Some(batch) => old(self)@.contains_key(request_id) && batch@ == old(
                    self,
                )@[request_id],
                None => !old(self)@.contains_key(request_id),
            },
    {
        let r = self.batches.remove(&request_id);
        assert(self@ =~= old(self)@.remove(request_id));
        r
    }

    /// Adds a block to the batch that was requested under `request_id`, and tells whether there is
    /// one.
    pub fn add_block(&mut self, request_id: RequestId, block: BeaconBlock<B>) -> (r: Option<()>)
        ensures
            r is Some <==> old(self)@.contains_key(request_id),
            final(self)@ == if old(self)@.contains_key(request_id) {
                old(self)@.insert(request_id, old(self)@[request_id].with_block(block))
            } else {
                old(self)@
            },
    {
        match self.batches.remove(&request_id) {
            Some(mut batch) => {
                batch.downloaded_blocks.push(block);
                let ghost view = batch@;
                self.batches.insert(request_id, batch);
                assert(view == old(self)@[request_id].with_block(block));
                assert(self@ =~= old(self)@.insert(request_id, view));
                Some(())
            },
            None => {
                assert(self@ =~= old(self)@);
                None
            },
        }
    }

    /// Whether the peer has no pending request.
    pub fn peer_is_idle(&self, peer_id: &PeerId) -> (r: bool)
        ensures
            r == is_idle(self@, peer_id@),
    {
        for batch in it: self.batches.values()
            invariant
                it.seq().unref().to_set() == self.batches@.values(),
                forall|i: int| 0 <= i < it.index() ==> (#[trigger] it.seq()[i]).current_peer@
                    != peer_id@,
        {
            if batch.current_peer == *peer_id {
                proof {
                    assert(it.seq().unref()[it.index()] == *batch);
                    assert(self.batches@.values().contains(*batch));
                    let id = choose|id: RequestId| #[trigger]
                        self.batches@.contains_key(id) && self.batches@[id] == *batch;
                    assert(self@.contains_key(id));
                }
                return false;
            }
        }
        proof {
            assert forall|id: RequestId| #[trigger] self@.contains_key(id) implies self@[id].current_peer
                != peer_id@ by {
                assert(self.batches@.values().contains(self.batches@[id]));
            }
        }
        true
    }
}

} // verus!
