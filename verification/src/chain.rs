//! A chain of blocks that is being downloaded from peers and processed, batch by batch.
//!
//! The methods take an event and return the next `Action` that the caller is to carry out. They
//! perform no input or output themselves.
use crate::batch::{is_idle, views, Batch, BatchId, PendingBatches, BLOCKS_PER_BATCH};
use crate::model::{
    empty_run, is_admissible, is_insertion_point, lemma_completing_keeps_wf,
    lemma_handing_out_keeps_wf, lemma_processing_keeps_wf, max_batch_id, ordered_by_id,
    unvalidated, ActionView, ChainView, BATCH_BUFFER_SIZE, MAX_BATCH_RETRIES,
};
pub use crate::model::{ChainSyncingState, Followup, ProcessingResult};
use crate::peer_pool::{identities, lists_each_once, PeerPool};
use crate::random::{random_u64, shuffle};
use crate::types::{BeaconBlock, BlocksByRangeRequest, Hash256, PeerId, RequestId, Slot};
use vstd::prelude::*;

verus! {

/// What became of a batch that was handed to the batch processor.
#[derive(Clone, Copy, Debug, PartialEq, Eq, Structural)]
pub enum BatchProcessResult {
    Success,
    Failed,
}

/// What the caller is to do next for a chain.
#[derive(Debug)]
pub enum Action<B> {
    /// Nothing is left to do.
    Done,
    /// Send `request` to `batch.current_peer`, then hand the network's reply, `batch` and `then`
    /// to `SyncingChain::on_request_reply`.
    SendRequest { request: BlocksByRangeRequest, batch: Batch<B>, then: Followup },
    /// Start processing `batch`, then hand `then` to `SyncingChain::resume`. Once it is processed,
    /// the outcome goes to `SyncingChain::on_batch_process_result` with `processing_id`.
    ProcessBatch { processing_id: u64, batch: Batch<B>, then: Followup },
    /// Downvote these peers.
    DownvotePeers(Vec<PeerId>),
}

impl<B> View for Action<B> {
    type V = ActionView<B>;

    open spec fn view(&self) -> ActionView<B> {
        match self {
            Action::Done => ActionView::Done,
            Action::SendRequest { request, batch, then } => ActionView::SendRequest {
                request: *request,
                batch: batch@,
                then: *then,
            },
            Action::ProcessBatch { processing_id, batch, then } => ActionView::ProcessBatch {
                processing_id: *processing_id,
                batch: batch@,
                then: *then,
            },
            Action::DownvotePeers(peers) => ActionView::DownvotePeers(identities(peers@)),
        }
    }
}

/// A chain of blocks that need to be downloaded. Peers who claim to contain the target head root
/// are grouped into the peer pool and queried for batches when downloading the chain.
#[derive(Debug)]
pub struct SyncingChain<B> {
    /// The slot that the chain starts from, and that its batches are counted from.
    pub start_slot: Slot,
    /// The target head slot.
    pub target_head_slot: Slot,
    /// The target head root.
    pub target_head_root: Hash256,
    /// The batches that are currently awaiting a response from a peer.
    pub pending_batches: PendingBatches<B>,
    /// The batches that have been downloaded and are awaiting processing, ordered by id.
    completed_batches: Vec<Batch<B>>,
    /// Batches that have been processed and are awaiting validation before being removed.
    processed_batches: Vec<Batch<B>>,
    /// The peers that agree on the `target_head_slot` and `target_head_root` as a canonical chain
    /// and are thus available to download this chain from.
    pub peer_pool: PeerPool,
    /// The next batch id that needs to be downloaded.
    to_be_downloaded_id: BatchId,
    /// The next batch id that needs to be processed.
    to_be_processed_id: BatchId,
    /// The last batch id that was processed.
    last_processed_id: BatchId,
    /// The current state of the chain.
    pub state: ChainSyncingState,
    /// A random id given to a batch process request. This is `None` if there is no ongoing batch
    /// process.
    current_processing_id: Option<u64>,
}

impl<B> View for SyncingChain<B> {
    type V = ChainView<B>;

    closed spec fn view(&self) -> ChainView<B> {
        ChainView {
            start_slot: self.start_slot@,
            target_head_slot: self.target_head_slot@,
            target_head_root: self.target_head_root,
            pending: self.pending_batches@,
            completed: views(self.completed_batches@),
            processed: views(self.processed_batches@),
            peers: self.peer_pool@,
            to_be_downloaded: self.to_be_downloaded_id@,
            to_be_processed: self.to_be_processed_id@,
            last_processed: self.last_processed_id@,
            state: self.state,
            processing: self.current_processing_id,
        }
    }
}

impl<B> SyncingChain<B> {
    pub fn new(
        start_slot: Slot,
        target_head_slot: Slot,
        target_head_root: Hash256,
        peer_id: PeerId,
    ) -> (r: SyncingChain<B>)
        ensures
            r@ == ChainView::<B>::fresh(
                start_slot@,
                target_head_slot@,
                target_head_root,
                peer_id@,
            ),
            r@.is_countable() ==> r@.wf(),
    {
        let mut peer_pool = PeerPool::new();
        peer_pool.insert(peer_id);
        let r = SyncingChain {
            start_slot,
            target_head_slot,
            target_head_root,
            pending_batches: PendingBatches::new(),
            completed_batches: Vec::new(),
            processed_batches: Vec::new(),
            peer_pool,
            to_be_downloaded_id: BatchId(1),
            to_be_processed_id: BatchId(1),
            last_processed_id: BatchId(0),
            state: ChainSyncingState::Stopped,
            current_processing_id: None,
        };
        assert(r@ =~= ChainView::<B>::fresh(
            start_slot@,
            target_head_slot@,
            target_head_root,
            peer_id@,
        ));
        r
    }

    /// Returns the next required batch from the chain if it exists, assigned to the given peer. If
    /// there are no more batches required, `None` is returned.
    pub fn get_next_batch(&mut self, peer_id: PeerId) -> (r: Option<Batch<B>>)
        requires
            old(self)@.wf(),
        ensures
            final(self)@.wf(),
            match r {
                Some(batch) => {
                    &&& old(self)@.wants_batch()
                    &&& batch@ == old(self)@.next_batch(peer_id@)
                    &&& final(self)@ == old(self)@.handed_out()
                },
                None => !old(self)@.wants_batch() && final(self)@ == old(self)@,
            },
    {
        // only request batches up to the buffer size limit
        if self.completed_batches.len().saturating_add(self.pending_batches.len())
            > BATCH_BUFFER_SIZE as usize {
            return None;
        }
        // don't request batches beyond the target head slot

        let batch_start_slot = self.start_slot.saturating_add(
            self.to_be_downloaded_id.0.saturating_sub(1) * BLOCKS_PER_BATCH,
        );
        if batch_start_slot.0 > self.target_head_slot.0 {
            return None;
        }
        // truncate the batch to the target head of the chain

        let full_end_slot = batch_start_slot.saturating_add(BLOCKS_PER_BATCH);
        let limit = self.target_head_slot.saturating_add(1);
        let batch_end_slot = if full_end_slot.0 <= limit.0 {
            full_end_slot
        } else {
            limit
        };
        let batch_id = self.to_be_downloaded_id;

        proof {
            lemma_handing_out_keeps_wf(self@, peer_id@);
        }
        // The next batch id is the larger of the next sequential id and the next uncompleted id.
        let completed = self.completed_batches.len();
        let max_completed_id: u64 = if completed == 0 {
            0
        } else {
            assert(self@.completed[completed - 1] == self.completed_batches@[completed - 1]@);
            self.completed_batches[completed - 1].id.0
        };
        let sequential_id: u64 = self.to_be_downloaded_id.0 + 1;
        let uncompleted_id: u64 = max_completed_id + 1;
        self.to_be_downloaded_id = BatchId(
            if sequential_id >= uncompleted_id {
                sequential_id
            } else {
                uncompleted_id
            },
        );
        assert(self@ =~= old(self)@.handed_out());
        Some(
            Batch::new(
                batch_id,
                batch_start_slot,
                batch_end_slot,
                self.target_head_root,
                peer_id,
            ),
        )
    }

    /// The first of `peers` that does not currently have a pending request.
    pub fn first_idle_peer(&self, peers: &Vec<&PeerId>) -> (r: Option<PeerId>)
        ensures
            match r {
                Some(peer) => exists|i: int|
                    {
                        &&& 0 <= i < peers@.len()
                        &&& (#[trigger] peers@[i])@ == peer@
                        &&& is_idle(self@.pending, peer@)
                        &&& forall|j: int|
                            0 <= j < i ==> !is_idle(self@.pending, (#[trigger] peers@[j])@)
                    },
                None => forall|j: int|
                    0 <= j < peers@.len() ==> !is_idle(self@.pending, (#[trigger] peers@[j])@),
            },
    {
        for i in 0..peers.len()
            invariant
                forall|j: int| 0 <= j < i ==> !is_idle(self@.pending, (#[trigger] peers@[j])@),
        {
            if self.pending_batches.peer_is_idle(peers[i]) {
                let peer = peers[i].clone();
                assert(peers@[i as int]@ == peer@);
                return Some(peer);
            }
        }
        None
    }

    /// Returns a peer if there exists a peer which does not currently have a pending request.
    ///
    /// This is used to create the next request. Which of these peers it is, is left to chance.
    fn get_next_peer(&self) -> (r: Option<PeerId>)
        ensures
            match r {
                Some(peer) => self@.is_available(peer@),
                None => !self@.has_available_peer(),
            },
    {
        // randomize the peers for load balancing
        let mut rng = rand::thread_rng();
        let mut peers = self.peer_pool.refs();
        let ghost listed = peers@;
        shuffle(&mut peers, &mut rng);
        proof {
            listed.to_multiset_ensures();
            peers@.to_multiset_ensures();
            let ids = listed.map_values(|peer: &PeerId| peer@);
            assert forall|i: int| 0 <= i < peers@.len() implies self@.peers.contains(
                (#[trigger] peers@[i])@,
            ) by {
                assert(peers@.to_multiset().count(peers@[i]) > 0);
                assert(listed.contains(peers@[i]));
                let j = choose|j: int| 0 <= j < listed.len() && listed[j] == peers@[i];
                assert(ids[j] == peers@[i]@);
            }
            assert forall|id: Seq<u8>| #[trigger] self@.peers.contains(id) implies exists|i: int|
                0 <= i < peers@.len() && (#[trigger] peers@[i])@ == id by {
                assert(ids.contains(id));
                let j = choose|j: int| 0 <= j < ids.len() && ids[j] == id;
                assert(listed[j]@ == id);
                assert(listed.to_multiset().count(listed[j]) > 0);
                assert(peers@.contains(listed[j]));
            }
        }
        let r = self.first_idle_peer(&peers);
        proof {
            if r is None && self@.has_available_peer() {
                let peer = choose|peer: Seq<u8>| #[trigger] self@.is_available(peer);
                assert(self@.peers.contains(peer));
            }
        }
        r
    }

    /// Requests the provided batch from the peer that it is assigned to.
    fn send_batch(&self, batch: Batch<B>, then: Followup) -> (r: Action<B>)
        ensures
            r@ matches ActionView::SendRequest { request, batch: b, then: t } && b == batch@ && t
                == then && b.is_requested_by(request),
    {
        Action::SendRequest { request: batch.to_blocks_by_range_request(), batch, then }
    }

    /// Requests the next required batch from a peer, if there is a peer available to send a request
    /// to and there are batches to request.
    fn send_range_request(&mut self, then: Followup) -> (r: Option<Action<B>>)
        requires
            old(self)@.wf(),
        ensures
            final(self)@.wf(),
            match r {
                Some(action) => {
                    &&& old(self)@.wants_batch()
                    &&& old(self)@.is_next_request(action@, then)
                    &&& final(self)@ == old(self)@.handed_out()
                },
                None => {
                    &&& !(old(self)@.has_available_peer() && old(self)@.wants_batch())
                    &&& final(self)@ == old(self)@
                },
            },
    {
        // find the next pending batch and request it from the peer
        if let Some(peer_id) = self.get_next_peer() {
            if let Some(batch) = self.get_next_batch(peer_id) {
                return Some(self.send_batch(batch, then));
            }
        }
        None
    }

    /// Attempts to request the next required batch from the peer pool if the chain is syncing.
    fn request_batches(&mut self, then: Followup) -> (r: Option<Action<B>>)
        requires
            old(self)@.wf(),
        ensures
            final(self)@.wf(),
            match r {
                Some(action) => {
                    &&& old(self)@.can_request()
                    &&& old(self)@.is_next_request(action@, then)
                    &&& final(self)@ == old(self)@.handed_out()
                },
                None => !old(self)@.can_request() && final(self)@ == old(self)@,
            },
    {
        if let ChainSyncingState::Syncing = self.state {
            self.send_range_request(then)
        } else {
            None
        }
    }

    /// Records that `batch` has been handed to the batch processor under `processing_id`.
    pub fn begin_processing(
        &mut self,
        processing_id: u64,
        batch: Batch<B>,
        then: Followup,
    ) -> (r: Action<B>)
        ensures
            final(self)@ == (ChainView { processing: Some(processing_id), ..old(self)@ }),
            r@ == (ActionView::ProcessBatch { processing_id, batch: batch@, then }),
            old(self)@.wf() && old(self)@.to_be_processed <= max_batch_id() ==> final(self)@.wf(),
    {
        self.current_processing_id = Some(processing_id);
        Action::ProcessBatch { processing_id, batch, then }
    }

    /// Sends a batch to the batch processor, under a random id.
    fn process_batch(&mut self, batch: Batch<B>, then: Followup) -> (r: Action<B>)
        ensures
            r@ matches ActionView::ProcessBatch { processing_id, batch: b, then: t } && b == batch@
                && t == then && final(self)@ == (ChainView {
                processing: Some(processing_id),
                ..old(self)@
            }),
    {
        let processing_id = random_u64();
        self.begin_processing(processing_id, batch, then)
    }

    /// Tries to process any batches if there are any available and we are not currently processing
    /// other batches.
    fn process_completed_batches(&mut self, then: Followup) -> (r: Option<Action<B>>)
        requires
            old(self)@.wf(),
        ensures
            final(self)@.wf(),
            match r {
                Some(action) => {
                    &&& old(self)@.has_batch_to_process()
                    &&& old(self)@.hands_over(then, final(self)@, action@)
                },
                None => !old(self)@.has_batch_to_process() && final(self)@ == old(self)@.settled(),
            },
    {
        // Only process batches if this chain is syncing, and only one batch at a time
        if let ChainSyncingState::Stopped = self.state {
            return None;
        }
        if self.current_processing_id.is_some() {
            return None;
        }
        let ghost pre = self@;
        let ghost mut skipped: nat = 0;
        proof {
            assert(pre.completed.skip(0) =~= pre.completed);
            assert(pre.processed + pre.completed.take(0) =~= pre.processed);
        }

        // Check if there is a batch ready to be processed
        while self.completed_batches.len() > 0 && self.completed_batches[0].id.0
            == self.to_be_processed_id.0
            invariant
                pre == old(self)@,
                pre.wf(),
                pre.may_process(),
                skipped <= pre.completed.len(),
                empty_run(pre.completed, pre.to_be_processed) == skipped + empty_run(
                    self@.completed,
                    self@.to_be_processed,
                ),
                self@ == (ChainView {
                    completed: pre.completed.skip(skipped as int),
                    processed: pre.processed + pre.completed.take(skipped as int),
                    to_be_processed: pre.to_be_processed + skipped,
                    ..pre
                }),
            decreases self.completed_batches.len(),
        {
            let ghost here = self@;
            let batch = self.completed_batches.remove(0);
            proof {
                assert(here.completed[0] == batch@);
                assert(here.completed[0] == pre.completed[skipped as int]);
                assert(self@.completed =~= here.completed.skip(1));
                assert(here.completed.skip(1) =~= pre.completed.skip(skipped as int + 1));
            }
            if batch.downloaded_blocks.is_empty() {
                // The batch was empty, consider this processed and move to the next batch
                self.processed_batches.push(batch);
                self.to_be_processed_id = BatchId(self.to_be_processed_id.0 + 1);
                proof {
                    assert(self@.processed =~= here.processed.push(batch@));
                    assert(self@.processed =~= pre.processed + pre.completed.take(skipped as int + 1));
                    skipped = skipped + 1;
                }
                continue;
            }
            // send the batch to the batch processor

            let action = self.process_batch(batch, then);
            proof {
                assert(empty_run(here.completed, here.to_be_processed) == 0);
                assert(here =~= pre.settled());
                let processing_id = self@.processing->0;
                assert(self@ =~= pre.handed_over(processing_id));
                lemma_processing_keeps_wf(pre, processing_id);
            }
            return Some(action);
        }
        proof {
            assert(empty_run(self@.completed, self@.to_be_processed) == 0) by {
                if self@.completed.len() > 0 {
                    assert(self@.completed[0] == self.completed_batches@[0]@);
                }
            }
            assert(self@ =~= pre.settled());
            lemma_processing_keeps_wf(pre, 0);
        }
        None
    }

    /// Whether a batch is being processed under this id.
    pub fn is_processing(&self, processing_id: u64) -> (r: bool)
        ensures
            r == (self@.processing == Some(processing_id)),
    {
        match self.current_processing_id {
            Some(id) => id == processing_id,
            None => false,
        }
    }

    /// The id of the batch that is to be processed next, or is being processed.
    pub fn to_be_processed_id(&self) -> (r: BatchId)
        ensures
            r@ == self@.to_be_processed,
    {
        self.to_be_processed_id
    }

    /// Goes on with what is left to do for an event.
    pub fn resume(&mut self, then: Followup) -> (r: Action<B>)
        requires
            old(self)@.wf(),
        ensures
            final(self)@.wf(),
            r@.is_answerable(),
            old(self)@.resumes_to(then, final(self)@, r@),
    {
        if let Followup::Nothing = then {
            return Action::Done;
        }
        if let Some(action) = self.request_batches(then) {
            proof {
                lemma_handing_out_keeps_wf(old(self)@, action@->SendRequest_batch.current_peer);
            }
            return action;
        }
        if let Followup::RequestBatches = then {
            return Action::Done;
        }
        match self.process_completed_batches(Followup::Nothing) {
            Some(action) => action,
            None => Action::Done,
        }
    }

    /// The network has been given the request for `batch`. If it took the request, `reply` is the
    /// id of the request, and the batch is pending from now on.
    pub fn on_request_reply(
        &mut self,
        reply: Option<RequestId>,
        batch: Batch<B>,
        then: Followup,
    ) -> (r: Action<B>)
        requires
            old(self)@.wf(),
            is_admissible(batch@),
        ensures
            final(self)@.wf(),
            r@.is_answerable(),
            old(self)@.replied(reply, batch@).resumes_to(then, final(self)@, r@),
    {
        let ghost view = batch@;
        if let Some(request_id) = reply {
            // add the batch to pending list
            self.pending_batches.insert(request_id, batch);
        }
        assert(self@ =~= old(self)@.replied(reply, view));
        self.resume(then)
    }

    /// Where a batch with this id belongs among the completed ones.
    fn insertion_index(&self, id: BatchId) -> (r: usize)
        requires
            ordered_by_id(self@.completed),
        ensures
            is_insertion_point(self@.completed, id@, r as int),
    {
        let mut low: usize = 0;
        let mut high: usize = self.completed_batches.len();
        while low < high
            invariant
                ordered_by_id(self@.completed),
                low <= high <= self@.completed.len(),
                self@.completed.len() == self.completed_batches@.len(),
                forall|i: int| 0 <= i < low ==> (#[trigger] self@.completed[i]).id <= id@,
                forall|i: int|
                    high <= i < self@.completed.len() ==> id@ <= (#[trigger] self@.completed[i]).id,
            decreases high - low,
        {
            let middle: usize = low + (high - low) / 2;
            assert(self@.completed[middle as int] == self.completed_batches@[middle as int]@);
            if self.completed_batches[middle].id.0 < id.0 {
                low = middle + 1;
            } else {
                high = middle;
            }
        }
        low
    }

    /// A completed batch has been received: checks to see if it can be processed and, if this
    /// chain is syncing, requests new blocks. A completed batch neither completes nor fails the
    /// chain before it is processed: the chain is kept.
    fn handle_completed_batch(&mut self, batch: Batch<B>) -> (r: (ProcessingResult, Action<B>))
        requires
            old(self)@.wf(),
            batch@.id <= max_batch_id(),
        ensures
            final(self)@.wf(),
            r.0 is KeepChain,
            r.1@.is_answerable(),
            old(self)@.completes_to(batch@, final(self)@, r.1@),
    {
        let ghost pre = self@;
        let ghost view = batch@;
        // verify the range of received blocks
        if batch.is_out_of_range() {
            // reset the id back to here, when incrementing, it will check against completed batches
            self.to_be_processed_id = batch.id;
            let mut peers: Vec<PeerId> = Vec::new();
            peers.push(batch.current_peer);
            assert(identities(peers@) =~= seq![view.current_peer]);
            return (ProcessingResult::KeepChain, Action::DownvotePeers(peers));
        }
        // Add this completed batch to the ordered list of completed batches, which is then checked
        // for batches that can be processed. It is not sufficient to process a batch successfully
        // to consider it correct, because batches could be erroneously empty, or incomplete.
        // Therefore, a batch is considered valid only if the next sequential batch is processed
        // successfully.

        let index = self.insertion_index(batch.id);
        self.completed_batches.insert(index, batch);
        proof {
            assert(self@ =~= pre.with_completed(view, index as int));
            lemma_completing_keeps_wf(pre, view, index as int);
        }
        // pre-emptively request more blocks from peers whilst we process current blocks, then try
        // and process any completed batches
        (ProcessingResult::KeepChain, self.resume(Followup::RequestThenProcess))
    }

    pub fn stop_syncing(&mut self)
        ensures
            final(self)@ == old(self)@.stopped(),
            old(self)@.wf() ==> final(self)@.wf(),
    {
        self.state = ChainSyncingState::Stopped;
        assert(self@ =~= old(self)@.stopped());
    }

    /// This chain has been requested to start syncing.
    ///
    /// This could be a new chain, or an old chain that is being resumed. A local finalized slot is
    /// provided as other chains may have made progress whilst this chain was stopped or paused. If
    /// it is ahead of what this chain has processed, the chain is updated to start from this point
    /// and all subsequent batches are re-indexed starting from one, effectively creating a new
    /// chain. Batches that are pending by then stay pending.
    pub fn start_syncing(&mut self, local_finalized_slot: Slot) -> (r: Action<B>)
        requires
            old(self)@.wf(),
        ensures
            final(self)@.wf(),
            r@.is_answerable(),
            old(self)@.starts_to(local_finalized_slot@, final(self)@, r@),
    {
        let processed_slot = self.start_slot.saturating_add(
            self.last_processed_id.0 * BLOCKS_PER_BATCH,
        );
        if local_finalized_slot.as_u64() > processed_slot.as_u64() {
            // Start from the local finalized slot
            self.start_slot = local_finalized_slot;
            // Re-index batches
            self.last_processed_id = BatchId(0);
            self.to_be_downloaded_id = BatchId(1);
            self.to_be_processed_id = BatchId(1);
            // remove any completed or processed batches
            self.completed_batches.clear();
            self.processed_batches.clear();
        }
        self.state = ChainSyncingState::Syncing;
        assert(self@ =~= old(self)@.started(local_finalized_slot@));

        // start processing batches if needed
        if let Some(action) = self.process_completed_batches(Followup::RequestBatches) {
            return action;
        }
        // begin requesting blocks from the peer pool, until all peers are exhausted

        self.resume(Followup::RequestBatches)
    }

    /// Add a peer to the chain.
    ///
    /// If the chain is active, this starts requesting batches from this peer.
    pub fn add_peer(&mut self, peer_id: PeerId) -> (r: Action<B>)
        requires
            old(self)@.wf(),
        ensures
            final(self)@.wf(),
            r@.is_answerable(),
            old(self)@.with_peer(peer_id@).resumes_to(
                Followup::RequestBatches,
                final(self)@,
                r@,
            ),
    {
        let ghost id = peer_id@;
        self.peer_pool.insert(peer_id);
        assert(self@ =~= old(self)@.with_peer(id));
        // do not request blocks if the chain is not syncing
        if let ChainSyncingState::Stopped = self.state {
            return Action::Done;
        }
        // find the next batch and request it from any peers if we need to

        self.resume(Followup::RequestBatches)
    }

    /// The peers that a STATUS message is to be sent to: all peers in the peer pool, each once.
    pub fn status_peers(&self) -> (r: Vec<PeerId>)
        ensures
            lists_each_once(identities(r@), self@.peers),
    {
        let refs = self.peer_pool.refs();
        let mut r: Vec<PeerId> = Vec::new();
        for i in 0..refs.len()
            invariant
                r@.len() == i,
                forall|j: int| 0 <= j < i ==> (#[trigger] r@[j])@ == refs@[j]@,
        {
            r.push(refs[i].clone());
        }
        assert(identities(r@) =~= refs@.map_values(|peer: &PeerId| peer@));
        r
    }

    /// A batch has failed. This occurs when a network timeout happens or the peer didn't respond.
    /// These events do not indicate a malicious peer, more likely simple networking issues.
    ///
    /// Attempts to re-request from another peer in the peer pool (if possible) and returns
    /// `ProcessingResult::RemoveChain` if the number of retries on the batch exceeds
    /// `MAX_BATCH_RETRIES`.
    pub fn failed_batch(&self, mut batch: Batch<B>) -> (r: (ProcessingResult, Action<B>))
        requires
            batch.retries < u8::MAX,
        ensures
            self@.fails_to(batch@, r.0, r.1@),
    {
        let ghost view = batch@;
        batch.retries = batch.retries + 1;
        if batch.retries > MAX_BATCH_RETRIES {
            // chain is unrecoverable, remove it
            return (ProcessingResult::RemoveChain, Action::Done);
        }
        // try to re-process the request using a different peer, if possible

        if let Some(new_peer) = self.peer_pool.other_than(&batch.current_peer) {
            batch.current_peer = new_peer.clone();
        }
        assert(batch@ =~= view.reassigned(batch@.current_peer));
        (ProcessingResult::KeepChain, self.send_batch(batch, Followup::Nothing))
    }

    /// An RPC error has occurred.
    ///
    /// Checks if the request id is associated with this chain. If so, attempts to re-request the
    /// batch. If the batch has exceeded the number of retries, returns
    /// `ProcessingResult::RemoveChain`. Returns `None` if the request isn't related to this chain.
    pub fn inject_error(&mut self, _peer_id: &PeerId, request_id: RequestId) -> (r: Option<
        (ProcessingResult, Action<B>),
    >)
        requires
            old(self)@.wf(),
        ensures
            final(self)@.wf(),
            match r {
                Some((result, action)) => {
                    &&& old(self)@.pending.contains_key(request_id)
                    &&& final(self)@ == old(self)@.without_pending(request_id)
                    &&& action@.is_answerable()
                    &&& final(self)@.fails_to(old(self)@.pending[request_id], result, action@)
                },
                None => !old(self)@.pending.contains_key(request_id) && final(self)@ == old(self)@,
            },
    {
        let removed = self.pending_batches.remove(request_id);
        assert(self@ =~= old(self)@.without_pending(request_id));
        match removed {
            Some(batch) => Some(self.failed_batch(batch)),
            None => {
                assert(self@.pending =~= old(self)@.pending);
                None
            },
        }
    }

    /// An invalid batch has been received that could not be processed.
    ///
    /// These events occur when a peer has successfully responded with blocks, but the blocks we
    /// have received are incorrect or invalid. The current batch or a previous one is at fault.
    /// The chain fails, and all its peers are downvoted and removed from the peer pool, to prevent
    /// re-status.
    fn handle_invalid_batch(&mut self, _batch: Batch<B>) -> (r: (ProcessingResult, Action<B>))
        ensures
            final(self)@ == (ChainView { peers: Set::empty(), ..old(self)@ }),
            r.0 is RemoveChain,
            r.1@ matches ActionView::DownvotePeers(peers) && lists_each_once(
                peers,
                old(self)@.peers,
            ),
    {
        let peers = self.peer_pool.drain();
        assert(self@ =~= ChainView { peers: Set::empty(), ..old(self)@ });
        (ProcessingResult::RemoveChain, Action::DownvotePeers(peers))
    }

    /// The block processor has completed processing a batch. This function handles the result of
    /// the batch processor. Returns `None` if the batch doesn't belong to this chain, or has been
    /// taken by another chain.
    pub fn on_batch_process_result(
        &mut self,
        processing_id: u64,
        batch: &mut Option<Batch<B>>,
        result: &BatchProcessResult,
    ) -> (r: Option<(ProcessingResult, Action<B>)>)
        requires
            old(self)@.wf(),
            old(self)@.processing == Some(processing_id) && result is Success ==> (*old(
                batch,
            ) matches Some(b) ==> b@.id <= max_batch_id()),
        ensures
            final(self)@.wf(),
            match r {
                Some((outcome, action)) => {
                    &&& old(self)@.processing == Some(processing_id)
                    &&& *old(batch) matches Some(b)
                    &&& *final(batch) is None
                    &&& action@.is_answerable()
                    &&& match result {
                        BatchProcessResult::Success => old(self)@.succeeds_to(
                            b@,
                            outcome,
                            final(self)@,
                            action@,
                        ),
                        BatchProcessResult::Failed => {
                            &&& outcome is RemoveChain
                            &&& final(self)@ == old(self)@.abandoned()
                            &&& action@ matches ActionView::DownvotePeers(peers)
                            &&& lists_each_once(peers, old(self)@.peers)
                        },
                    }
                },
                None => {
                    &&& old(self)@.processing != Some(processing_id) || *old(batch) is None
                    &&& final(self)@ == old(self)@
                    &&& *final(batch) == *old(batch)
                },
            },
    {
        if !self.is_processing(processing_id) {
            // batch process doesn't belong to this chain
            return None;
        }
        // Consume the batch option
        let batch = match batch.take() {
            Some(batch) => batch,
            None => {
                return None;
            },
        };
        let ghost view = batch@;
        self.current_processing_id = None;
        match result {
            BatchProcessResult::Success => {
                self.to_be_processed_id = BatchId(self.to_be_processed_id.0 + 1);
                // This variable accounts for skip slots and batches that were not actually
                // processed due to having no blocks.
                self.last_processed_id = batch.id;

                // Only batches that have blocks are processed here, therefore all previous batches
                // have been correct.
                drop_validated(&mut self.processed_batches, batch.id);

                // add the current batch to processed batches to be verified in the future. We are
                // only uncertain about this batch, if it has not returned all blocks.
                if batch.downloaded_blocks.len() < BLOCKS_PER_BATCH as usize {
                    let ghost rest = self.processed_batches@;
                    self.processed_batches.push(batch);
                    assert(views(self.processed_batches@) =~= views(rest).push(view));
                }
                assert(self@ =~= old(self)@.succeeded(view));

                // check if the chain has completed syncing
                let processed_slot = self.start_slot.saturating_add(
                    self.last_processed_id.0 * BLOCKS_PER_BATCH,
                );
                if processed_slot.0 >= self.target_head_slot.0 {
                    // chain is completed
                    Some((ProcessingResult::RemoveChain, Action::Done))
                } else {
                    // chain is not completed: attempt to request more batches, then to process
                    // more batches
                    let action = self.resume(Followup::RequestThenProcess);
                    Some((ProcessingResult::KeepChain, action))
                }
            },
            BatchProcessResult::Failed => {
                // this could be because this batch is invalid, or a previous batch is
                let r = self.handle_invalid_batch(batch);
                assert(self@ =~= old(self)@.abandoned());
                Some(r)
            },
        }
    }
}

impl<B: Clone> SyncingChain<B> {
    /// A block has been received for a request, or, where there is none, the end of the response.
    /// This function gets run on all chains and returns `Some` if the request id matches a pending
    /// request on this chain, or `None` if it does not.
    ///
    /// If the response to a pending batch has ended, this function processes the completed batch.
    pub fn on_block_response(
        &mut self,
        request_id: RequestId,
        beacon_block: &Option<BeaconBlock<B>>,
    ) -> (r: Option<Action<B>>)
        requires
            old(self)@.wf(),
        ensures
            final(self)@.wf(),
            match r {
                Some(action) => {
                    &&& old(self)@.pending.contains_key(request_id)
                    &&& action@.is_answerable()
                    &&& match beacon_block {
                        Some(block) => {
                            let copy = final(self)@.pending[request_id].downloaded_blocks.last();
                            &&& block.is_copied_by(copy)
                            &&& final(self)@ == old(self)@.with_block(request_id, copy)
                            &&& action@ is Done
                        },
                        None => old(self)@.without_pending(request_id).completes_to(
                            old(self)@.pending[request_id],
                            final(self)@,
                            action@,
                        ),
                    }
                },
                None => !old(self)@.pending.contains_key(request_id) && final(self)@ == old(self)@,
            },
    {
        match beacon_block {
            Some(block) => {
                // This is not a stream termination, simply add the block to the request
                let copy = block.clone();
                match self.pending_batches.add_block(request_id, copy) {
                    Some(_) => {
                        assert(self@ =~= old(self)@.with_block(request_id, copy));
                        Some(Action::Done)
                    },
                    None => {
                        assert(self@ =~= old(self)@);
                        None
                    },
                }
            },
            None => {
                // A stream termination has been sent. This batch has ended. Process a completed
                // batch.
                let removed = self.pending_batches.remove(request_id);
                assert(self@ =~= old(self)@.without_pending(request_id));
                match removed {
                    Some(batch) => {
                        let (_, action) = self.handle_completed_batch(batch);
                        Some(action)
                    },
                    None => {
                        assert(self@.pending =~= old(self)@.pending);
                        None
                    },
                }
            },
        }
    }
}

/// Removes the batches that a successfully processed batch with this id validates.
fn drop_validated<B>(batches: &mut Vec<Batch<B>>, id: BatchId)
    ensures
        views(final(batches)@) == unvalidated(views(old(batches)@), id@),
{
    let ghost pre = views(batches@);
    let ghost mut seen: nat = 0;
    let mut kept: usize = 0;
    proof {
        reveal(Seq::filter);
        assert(unvalidated(pre.take(0), id@) =~= Seq::empty());
        assert(views(batches@) =~= unvalidated(pre.take(0), id@) + pre.skip(0));
    }
    while kept < batches.len()
        invariant
            seen <= pre.len(),
            kept == unvalidated(pre.take(seen as int), id@).len(),
            views(batches@) == unvalidated(pre.take(seen as int), id@) + pre.skip(seen as int),
        decreases batches.len() - kept,
    {
        let ghost rest = pre.skip(seen as int);
        let ghost done = unvalidated(pre.take(seen as int), id@);
        proof {
            reveal(Seq::filter);
            assert(views(batches@)[kept as int] == pre[seen as int]);
            assert(pre.take(seen as int + 1).drop_last() =~= pre.take(seen as int));
        }
        if batches[kept].id.0 < id.0 {
            let ghost before = views(batches@);
            batches.remove(kept);
            assert(views(batches@) =~= before.remove(kept as int));
            assert(views(batches@) =~= done + pre.skip(seen as int + 1));
        } else {
            kept = kept + 1;
            assert(views(batches@) =~= done.push(pre[seen as int]) + pre.skip(seen as int + 1));
        }
        proof {
            seen = seen + 1;
        }
    }
    proof {
        assert(pre.skip(seen as int) =~= Seq::empty());
        assert(pre.take(seen as int) =~= pre);
        assert(views(batches@) =~= unvalidated(pre, id@));
    }
}

} // verus!
