//! The mathematical model of a syncing chain: its state, and what each event makes of it.
use crate::batch::{is_idle, BatchView, BLOCKS_PER_BATCH};
use crate::types::{capped_add, BlocksByRangeRequest, Hash256, RequestId};
use vstd::prelude::*;

verus! {

/// The number of times to retry a batch before the chain is considered failed and removed.
pub const MAX_BATCH_RETRIES: u8 = 5;

/// The maximum number of batches to queue before requesting more.
pub const BATCH_BUFFER_SIZE: u8 = 5;

#[derive(Clone, Copy, Debug, PartialEq, Eq, Structural)]
pub enum ChainSyncingState {
    /// The chain is not being synced.
    Stopped,
    /// The chain is undergoing syncing.
    Syncing,
}

/// A return type for functions that act on a chain which informs the caller whether the chain has
/// been completed and should be removed, or is to be kept because further processing is required.
#[derive(Clone, Copy, Debug, PartialEq, Eq, Structural)]
pub enum ProcessingResult {
    KeepChain,
    RemoveChain,
}

/// What is left to do for an event once the caller has carried out an action.
#[derive(Clone, Copy, Debug, PartialEq, Eq, Structural)]
pub enum Followup {
    /// Nothing.
    Nothing,
    /// Request the batches that are wanted.
    RequestBatches,
    /// Request the batches that are wanted, then process the completed ones.
    RequestThenProcess,
}

/// The largest batch id whose slots can be counted: `id * BLOCKS_PER_BATCH` fits in a slot number.
pub open spec fn max_batch_id() -> nat {
    (u64::MAX / BLOCKS_PER_BATCH) as nat
}

/// What a `SyncingChain` holds.
#[verifier::ext_equal]
pub struct ChainView<B> {
    pub start_slot: nat,
    pub target_head_slot: nat,
    pub target_head_root: Hash256,
    pub pending: Map<RequestId, BatchView<B>>,
    pub completed: Seq<BatchView<B>>,
    pub processed: Seq<BatchView<B>>,
    pub peers: Set<Seq<u8>>,
    pub to_be_downloaded: nat,
    pub to_be_processed: nat,
    pub last_processed: nat,
    pub state: ChainSyncingState,
    pub processing: Option<u64>,
}

/// What an `Action` holds.
#[verifier::ext_equal]
pub enum ActionView<B> {
    Done,
    SendRequest { request: BlocksByRangeRequest, batch: BatchView<B>, then: Followup },
    ProcessBatch { processing_id: u64, batch: BatchView<B>, then: Followup },
    DownvotePeers(Seq<Seq<u8>>),
}

/// The number of batches at the front of `completed` that are empty and whose ids count up from
/// `id`.
pub open spec fn empty_run<B>(completed: Seq<BatchView<B>>, id: nat) -> nat
    decreases completed.len(),
{
    if completed.len() > 0 && completed[0].id == id && completed[0].downloaded_blocks.len() == 0 {
        1 + empty_run(completed.skip(1), id + 1)
    } else {
        0
    }
}

/// Whether the ids of `batches` never decrease.
pub open spec fn ordered_by_id<B>(batches: Seq<BatchView<B>>) -> bool {
    forall|i: int, j: int| 0 <= i <= j < batches.len() ==> batches[i].id <= batches[j].id
}

/// Whether a batch with this id can stand at `index` in `batches` without breaking their order.
pub open spec fn is_insertion_point<B>(batches: Seq<BatchView<B>>, id: nat, index: int) -> bool {
    &&& 0 <= index <= batches.len()
    &&& forall|i: int| 0 <= i < index ==> batches[i].id <= id
    &&& forall|i: int| index <= i < batches.len() ==> id <= batches[i].id
}

/// Whether a batch is one that the chain can go on with: its slots can be counted, and so can one
/// more failure of it.
pub open spec fn is_admissible<B>(batch: BatchView<B>) -> bool {
    batch.id <= max_batch_id() && batch.retries < u8::MAX
}

/// Whether `new` is the peer that a batch assigned to `current` moves to: another member of
/// `peers` if there is one.
pub open spec fn is_replacement_peer(
    peers: Set<Seq<u8>>,
    current: Seq<u8>,
    new: Seq<u8>,
) -> bool {
    if exists|peer: Seq<u8>| #[trigger] peers.contains(peer) && peer != current {
        peers.contains(new) && new != current
    } else {
        new == current
    }
}

/// The `processed` batches that are still in doubt once the batch with this id is processed.
pub open spec fn unvalidated<B>(processed: Seq<BatchView<B>>, id: nat) -> Seq<BatchView<B>> {
    processed.filter(|batch: BatchView<B>| batch.id >= id)
}

impl<B> ActionView<B> {
    /// Whether a reply to this action can be handed to the chain: a batch to be requested is one
    /// that the chain can go on with.
    pub open spec fn is_answerable(self) -> bool {
        self matches ActionView::SendRequest { batch, .. } ==> is_admissible(batch)
    }
}

impl<B> ChainView<B> {
    /// A chain that was just set up.
    pub open spec fn fresh(
        start_slot: nat,
        target_head_slot: nat,
        target_head_root: Hash256,
        peer: Seq<u8>,
    ) -> Self {
        ChainView {
            start_slot,
            target_head_slot,
            target_head_root,
            pending: Map::empty(),
            completed: Seq::empty(),
            processed: Seq::empty(),
            peers: Set::empty().insert(peer),
            to_be_downloaded: 1,
            to_be_processed: 1,
            last_processed: 0,
            state: ChainSyncingState::Stopped,
            processing: None,
        }
    }

    /// Whether the slots of all batches up to the target head can be counted.
    pub open spec fn is_countable(self) -> bool {
        &&& self.target_head_slot < u64::MAX
        &&& self.target_head_slot < self.start_slot + max_batch_id() * BLOCKS_PER_BATCH
    }

    /// What holds of every chain whose batches can be counted.
    pub open spec fn wf(self) -> bool {
        &&& self.pending.dom().finite()
        &&& ordered_by_id(self.completed)
        // the slots of the batches can be counted, and so can one more failure of each
        &&& self.is_countable()
        &&& forall|id: RequestId| #[trigger]
            self.pending.contains_key(id) ==> is_admissible(self.pending[id])
        &&& forall|i: int|
            0 <= i < self.completed.len() ==> (#[trigger] self.completed[i]).id <= max_batch_id()
        // and so can those of the next batch
        &&& 1 <= self.to_be_downloaded <= max_batch_id() + 1
        &&& self.to_be_processed <= max_batch_id() + 1
        &&& self.processing is Some ==> self.to_be_processed <= max_batch_id()
        &&& self.last_processed <= max_batch_id()
    }

    /// The first slot of the batch with this id.
    pub open spec fn batch_start(self, id: nat) -> nat {
        capped_add(
            self.start_slot,
            if id == 0 {
                0
            } else {
                ((id - 1) * BLOCKS_PER_BATCH) as nat
            },
        )
    }

    /// The slot after the last one of the batch with this id, which the target head cuts off.
    pub open spec fn batch_end(self, id: nat) -> nat {
        let end = capped_add(self.batch_start(id), BLOCKS_PER_BATCH as nat);
        let limit = capped_add(self.target_head_slot, 1);
        if end <= limit {
            end
        } else {
            limit
        }
    }

    /// The slot that the chain has been processed up to.
    pub open spec fn processed_slot(self) -> nat {
        capped_add(self.start_slot, (self.last_processed * BLOCKS_PER_BATCH) as nat)
    }

    /// Whether the chain has completed syncing.
    pub open spec fn is_complete(self) -> bool {
        self.processed_slot() >= self.target_head_slot
    }

    /// How many batches are pending or awaiting processing.
    pub open spec fn queued(self) -> nat {
        self.completed.len() + self.pending.len()
    }

    /// Whether one more batch is to be requested: the buffer has room for it, and it starts within
    /// the chain.
    pub open spec fn wants_batch(self) -> bool {
        &&& self.queued() <= BATCH_BUFFER_SIZE
        &&& self.batch_start(self.to_be_downloaded) <= self.target_head_slot
    }

    /// Whether `peer` can be asked for a batch: it is in the pool and has no pending request.
    pub open spec fn is_available(self, peer: Seq<u8>) -> bool {
        self.peers.contains(peer) && is_idle(self.pending, peer)
    }

    /// Whether some peer can be asked for a batch.
    pub open spec fn has_available_peer(self) -> bool {
        exists|peer: Seq<u8>| #[trigger] self.is_available(peer)
    }

    /// The batch that is to be requested next, assigned to `peer`.
    pub open spec fn next_batch(self, peer: Seq<u8>) -> BatchView<B> {
        BatchView::fresh(
            self.to_be_downloaded,
            self.batch_start(self.to_be_downloaded),
            self.batch_end(self.to_be_downloaded),
            self.target_head_root,
            peer,
        )
    }

    /// The largest id of a completed batch, 0 if there is none.
    pub open spec fn max_completed_id(self) -> nat {
        if self.completed.len() == 0 {
            0
        } else {
            self.completed.last().id
        }
    }

    /// The chain once its next batch has been handed out: the one after it is the larger of the
    /// next sequential id and the next uncompleted id.
    pub open spec fn handed_out(self) -> Self {
        let sequential = self.to_be_downloaded + 1;
        let uncompleted = self.max_completed_id() + 1;
        ChainView {
            to_be_downloaded: if sequential >= uncompleted {
                sequential
            } else {
                uncompleted
            },
            ..self
        }
    }

    /// Whether there is a batch to request and a peer to request it from.
    pub open spec fn can_request(self) -> bool {
        self.state is Syncing && self.has_available_peer() && self.wants_batch()
    }

    /// The chain once the network has been given the request for `batch`. It took the request
    /// under the id in `reply`, or did not take it.
    pub open spec fn replied(self, reply: Option<RequestId>, batch: BatchView<B>) -> Self {
        match reply {
            Some(id) => ChainView { pending: self.pending.insert(id, batch), ..self },
            None => self,
        }
    }

    /// Whether batches may be processed: the chain is syncing, and no batch is being processed.
    pub open spec fn may_process(self) -> bool {
        self.state is Syncing && self.processing is None
    }

    /// The chain once the empty batches that are next in line count as processed.
    pub open spec fn settled(self) -> Self {
        if self.may_process() {
            let n = empty_run(self.completed, self.to_be_processed);
            ChainView {
                completed: self.completed.skip(n as int),
                processed: self.processed + self.completed.take(n as int),
                to_be_processed: self.to_be_processed + n,
                ..self
            }
        } else {
            self
        }
    }

    /// Whether there is a batch to hand to the batch processor.
    pub open spec fn has_batch_to_process(self) -> bool {
        let s = self.settled();
        &&& self.may_process()
        &&& s.completed.len() > 0
        &&& s.completed[0].id == s.to_be_processed
    }

    /// The batch to hand to the batch processor.
    pub open spec fn batch_to_process(self) -> BatchView<B> {
        self.settled().completed[0]
    }

    /// The chain once that batch has been handed over under `processing_id`.
    pub open spec fn handed_over(self, processing_id: u64) -> Self {
        let s = self.settled();
        ChainView { completed: s.completed.skip(1), processing: Some(processing_id), ..s }
    }

    /// Whether `action` hands that batch over, and `post` is the chain then. The processing id is
    /// random, so `action` tells it.
    pub open spec fn hands_over(self, then: Followup, post: Self, action: ActionView<B>) -> bool {
        &&& action matches ActionView::ProcessBatch { processing_id, batch, then: t }
        &&& batch == self.batch_to_process()
        &&& t == then
        &&& post == self.handed_over(processing_id)
    }

    /// Whether `action` asks for the next batch to be requested from an available peer. The choice
    /// of the peer is random, so `action` tells it.
    pub open spec fn is_next_request(self, action: ActionView<B>, then: Followup) -> bool {
        &&& action matches ActionView::SendRequest { request, batch, then: t }
        &&& self.is_available(batch.current_peer)
        &&& batch == self.next_batch(batch.current_peer)
        &&& batch.is_requested_by(request)
        &&& t == then
    }

    /// Whether `post` and `action` are what follows when `then` is left to do.
    pub open spec fn resumes_to(self, then: Followup, post: Self, action: ActionView<B>) -> bool {
        if then is Nothing {
            action is Done && post == self
        } else if self.can_request() {
            self.is_next_request(action, then) && post == self.handed_out()
        } else if then is RequestBatches {
            action is Done && post == self
        } else if self.has_batch_to_process() {
            self.hands_over(Followup::Nothing, post, action)
        } else {
            action is Done && post == self.settled()
        }
    }

    /// The chain once `batch` stands at `index` among the completed ones.
    pub open spec fn with_completed(self, batch: BatchView<B>, index: int) -> Self {
        ChainView { completed: self.completed.insert(index, batch), ..self }
    }

    /// Whether `post` and `action` are what follows when all blocks of `batch` have arrived.
    pub open spec fn completes_to(
        self,
        batch: BatchView<B>,
        post: Self,
        action: ActionView<B>,
    ) -> bool {
        if batch.is_out_of_range() {
            &&& action == ActionView::<B>::DownvotePeers(seq![batch.current_peer])
            &&& post == ChainView { to_be_processed: batch.id, ..self }
        } else {
            exists|index: int| #[trigger]
                is_insertion_point(self.completed, batch.id, index) && self.with_completed(
                    batch,
                    index,
                ).resumes_to(Followup::RequestThenProcess, post, action)
        }
    }

    /// The chain without what was requested under `id`.
    pub open spec fn without_pending(self, id: RequestId) -> Self {
        ChainView { pending: self.pending.remove(id), ..self }
    }

    /// The chain once `block` has arrived for the request with this id.
    pub open spec fn with_block(self, id: RequestId, block: crate::types::BeaconBlock<B>) -> Self {
        ChainView { pending: self.pending.insert(id, self.pending[id].with_block(block)), ..self }
    }

    /// The chain once `batch` has been processed successfully. That validates the processed
    /// batches before it; it is itself in doubt until a later one is processed, unless it returned
    /// all its blocks.
    pub open spec fn succeeded(self, batch: BatchView<B>) -> Self {
        let rest = unvalidated(self.processed, batch.id);
        ChainView {
            processing: None,
            to_be_processed: self.to_be_processed + 1,
            last_processed: batch.id,
            processed: if batch.downloaded_blocks.len() < BLOCKS_PER_BATCH {
                rest.push(batch)
            } else {
                rest
            },
            ..self
        }
    }

    /// Whether `outcome`, `post` and `action` are what follows when `batch` has been processed
    /// successfully.
    pub open spec fn succeeds_to(
        self,
        batch: BatchView<B>,
        outcome: ProcessingResult,
        post: Self,
        action: ActionView<B>,
    ) -> bool {
        let s = self.succeeded(batch);
        if s.is_complete() {
            outcome is RemoveChain && action is Done && post == s
        } else {
            outcome is KeepChain && s.resumes_to(Followup::RequestThenProcess, post, action)
        }
    }

    /// Whether `outcome` and `action` are what follows when `batch` has failed: it is requested
    /// again, unless it has failed too often. Which other peer it moves to is open, so `action`
    /// tells it.
    pub open spec fn fails_to(
        self,
        batch: BatchView<B>,
        outcome: ProcessingResult,
        action: ActionView<B>,
    ) -> bool {
        if batch.retries + 1 > MAX_BATCH_RETRIES {
            outcome is RemoveChain && action is Done
        } else {
            &&& outcome is KeepChain
            &&& action matches ActionView::SendRequest { request, batch: b, then }
            &&& is_replacement_peer(self.peers, batch.current_peer, b.current_peer)
            &&& b == batch.reassigned(b.current_peer)
            &&& b.is_requested_by(request)
            &&& then is Nothing
        }
    }

    /// The chain once a batch could not be processed: its peers are all dropped.
    pub open spec fn abandoned(self) -> Self {
        ChainView { processing: None, peers: Set::empty(), ..self }
    }

    /// The chain once it syncs, with the finalized slot of the local chain given. Where that is
    /// ahead of what this chain has processed, the chain starts from there, and its batches are
    /// counted from one again.
    pub open spec fn started(self, local_finalized_slot: nat) -> Self {
        if local_finalized_slot > self.processed_slot() {
            ChainView {
                start_slot: local_finalized_slot,
                last_processed: 0,
                to_be_downloaded: 1,
                to_be_processed: 1,
                completed: Seq::empty(),
                processed: Seq::empty(),
                state: ChainSyncingState::Syncing,
                ..self
            }
        } else {
            ChainView { state: ChainSyncingState::Syncing, ..self }
        }
    }

    /// Whether `post` and `action` are what follows when the chain is started: the completed
    /// batches are processed, then more are requested.
    pub open spec fn starts_to(
        self,
        local_finalized_slot: nat,
        post: Self,
        action: ActionView<B>,
    ) -> bool {
        let s = self.started(local_finalized_slot);
        if s.has_batch_to_process() {
            s.hands_over(Followup::RequestBatches, post, action)
        } else {
            s.settled().resumes_to(Followup::RequestBatches, post, action)
        }
    }

    /// The chain once it is paused.
    pub open spec fn stopped(self) -> Self {
        ChainView { state: ChainSyncingState::Stopped, ..self }
    }

    /// The chain with one more peer.
    pub open spec fn with_peer(self, peer: Seq<u8>) -> Self {
        ChainView { peers: self.peers.insert(peer), ..self }
    }
}

/// An empty run is as long as it can be, and no longer.
pub proof fn lemma_empty_run<B>(completed: Seq<BatchView<B>>, id: nat)
    ensures
        empty_run(completed, id) <= completed.len(),
        forall|i: int|
            0 <= i < empty_run(completed, id) ==> (#[trigger] completed[i]).id == id + i
                && completed[i].downloaded_blocks.len() == 0,
        ({
            let n = empty_run(completed, id);
            n < completed.len() && completed[n as int].id == id + n
                ==> completed[n as int].downloaded_blocks.len() > 0
        }),
    decreases completed.len(),
{
    if completed.len() > 0 && completed[0].id == id && completed[0].downloaded_blocks.len() == 0 {
        let rest = completed.skip(1);
        lemma_empty_run(rest, id + 1);
        assert forall|i: int| 0 <= i < empty_run(completed, id) implies (#[trigger] completed[i]).id
            == id + i && completed[i].downloaded_blocks.len() == 0 by {
            if i > 0 {
                assert(rest[i - 1] == completed[i]);
            }
        }
        let n = empty_run(completed, id);
        if n < completed.len() {
            assert(rest[n - 1] == completed[n as int]);
        }
    }
}

/// Settling a chain, and handing over its next batch, keeps what holds of every chain.
pub proof fn lemma_processing_keeps_wf<B>(s: ChainView<B>, processing_id: u64)
    requires
        s.wf(),
    ensures
        s.settled().wf(),
        s.has_batch_to_process() ==> s.handed_over(processing_id).wf(),
{
    lemma_empty_run(s.completed, s.to_be_processed);
    let t = s.settled();
    if s.may_process() {
        let n = empty_run(s.completed, s.to_be_processed) as int;
        if n > 0 {
            assert(s.completed[n - 1].id == s.to_be_processed + n - 1);
        }
        assert forall|i: int| 0 <= i < t.completed.len() implies (#[trigger] t.completed[i]).id
            <= max_batch_id() by {
            assert(t.completed[i] == s.completed[i + n]);
        }
    }
    let u = s.handed_over(processing_id);
    if s.has_batch_to_process() {
        assert forall|i: int| 0 <= i < u.completed.len() implies (#[trigger] u.completed[i]).id
            <= max_batch_id() by {
            assert(u.completed[i] == t.completed[i + 1]);
        }
    }
}

/// Handing out the next batch keeps what holds of every chain, and the batch is one that the chain
/// can go on with.
pub proof fn lemma_handing_out_keeps_wf<B>(s: ChainView<B>, peer: Seq<u8>)
    requires
        s.wf(),
        s.wants_batch(),
    ensures
        s.handed_out().wf(),
        is_admissible(s.next_batch(peer)),
{
    assert(s.to_be_downloaded <= max_batch_id());
    if s.completed.len() > 0 {
        assert(s.completed.last().id <= max_batch_id());
    }
}

/// A batch at an insertion point keeps what holds of every chain.
pub proof fn lemma_completing_keeps_wf<B>(s: ChainView<B>, batch: BatchView<B>, index: int)
    requires
        s.wf(),
        batch.id <= max_batch_id(),
        is_insertion_point(s.completed, batch.id, index),
    ensures
        s.with_completed(batch, index).wf(),
{
    let t = s.with_completed(batch, index);
    assert forall|i: int, j: int| 0 <= i <= j < t.completed.len() implies t.completed[i].id
        <= t.completed[j].id by {
        let a = if i < index {
            i
        } else {
            i - 1
        };
        let b = if j < index {
            j
        } else {
            j - 1
        };
        assert(i == index || t.completed[i] == s.completed[a]);
        assert(j == index || t.completed[j] == s.completed[b]);
    }
    assert forall|i: int| 0 <= i < t.completed.len() implies (#[trigger] t.completed[i]).id
        <= max_batch_id() by {
        assert(i == index || t.completed[i] == s.completed[if i < index {
            i
        } else {
            i - 1
        }]);
    }
}

} // verus!
