//! What holds of a syncing chain as a whole, across its methods.
use crate::batch::{is_idle, BatchView, BLOCKS_PER_BATCH};
use crate::model::{
    empty_run, is_insertion_point, lemma_empty_run, lemma_handing_out_keeps_wf,
    unvalidated, ActionView, ChainSyncingState, ChainView, Followup, ProcessingResult,
    BATCH_BUFFER_SIZE, MAX_BATCH_RETRIES,
};
use crate::types::{BeaconBlock, Hash256, RequestId};
use vstd::prelude::*;

verus! {

// ---- The slots of the batches ----

/// Every slot of a chain, its target head included, lies in exactly one batch.
pub proof fn law_each_slot_is_in_one_batch<B>(s: ChainView<B>, slot: nat, id: nat)
    requires
        s.wf(),
        s.start_slot <= slot <= s.target_head_slot,
        id >= 1,
    ensures
        s.batch_start(id) <= slot < s.batch_end(id) <==> id == (slot - s.start_slot)
            / BLOCKS_PER_BATCH as int + 1,
{
}

/// A batch that is handed out is not empty, is no longer than a batch may be, starts within the
/// chain and ends no later than its target head; and the request asks for just its slots.
pub proof fn law_next_batch_stays_in_the_chain<B>(s: ChainView<B>, peer: Seq<u8>)
    requires
        s.wf(),
        s.wants_batch(),
    ensures
        ({
            let batch = s.next_batch(peer);
            &&& s.start_slot <= batch.start_slot < batch.end_slot <= s.target_head_slot + 1
            &&& batch.requested_blocks() == batch.end_slot - batch.start_slot
            &&& 1 <= batch.requested_blocks() <= BLOCKS_PER_BATCH
            &&& batch.head_root == s.target_head_root
        }),
{
}

/// Consecutive batches leave no slot out: each starts where the one before it ends, and the last
/// one ends with the target head.
pub proof fn law_batches_are_adjacent<B>(s: ChainView<B>, id: nat)
    requires
        s.wf(),
        id >= 1,
        s.batch_start(id) <= s.target_head_slot,
    ensures
        s.batch_end(id) == if s.batch_start(id + 1) <= s.target_head_slot {
            s.batch_start(id + 1)
        } else {
            s.target_head_slot + 1
        },
{
}

/// When a chain is complete, every slot before its target head lies in a batch up to the last one
/// that was processed; and so does the target head, unless the next batch would start with it.
pub proof fn law_complete_chain_is_covered<B>(s: ChainView<B>, slot: nat)
    requires
        s.wf(),
        s.is_complete(),
        s.start_slot <= slot <= s.target_head_slot,
        slot == s.target_head_slot ==> s.batch_start(s.last_processed + 1) != slot,
    ensures
        exists|id: nat|
            1 <= id <= s.last_processed && s.batch_start(id) <= slot < #[trigger] s.batch_end(id),
{
    let id = ((slot - s.start_slot) / BLOCKS_PER_BATCH as int + 1) as nat;
    assert(s.batch_start(id) <= slot < s.batch_end(id));
}

/// As long as a chain is not complete, there are slots left for the batch after the last one that
/// was processed.
pub proof fn law_incomplete_chain_has_a_next_batch<B>(s: ChainView<B>)
    requires
        s.wf(),
        !s.is_complete(),
    ensures
        s.batch_start(s.last_processed + 1) < s.target_head_slot,
{
}

// ---- Requesting batches ----

/// Whether the batch at `i` is requested from the state at `i`, and the reply leads to the state
/// after it.
pub open spec fn is_request_step<B>(
    states: Seq<ChainView<B>>,
    batches: Seq<BatchView<B>>,
    replies: Seq<Option<RequestId>>,
    i: int,
) -> bool {
    let s = states[i];
    &&& s.can_request()
    &&& s.is_available(batches[i].current_peer)
    &&& batches[i] == s.next_batch(batches[i].current_peer)
    &&& states[i + 1] == s.handed_out().replied(replies[i], batches[i])
}

/// Whether `batches` are requested one after the other, from the states of the chain in `states`,
/// and the network gives `replies`.
pub open spec fn is_request_run<B>(
    states: Seq<ChainView<B>>,
    batches: Seq<BatchView<B>>,
    replies: Seq<Option<RequestId>>,
) -> bool {
    &&& states.len() == batches.len() + 1
    &&& replies.len() == batches.len()
    &&& forall|i: int|
        0 <= i < batches.len() ==> #[trigger] is_request_step(states, batches, replies, i)
}

/// Each request that a chain asks for, with the reply to it, is a step of such a run.
pub proof fn law_each_request_is_a_step<B>(
    s: ChainView<B>,
    then: Followup,
    post: ChainView<B>,
    action: ActionView<B>,
    reply: Option<RequestId>,
)
    requires
        s.resumes_to(then, post, action),
        action is SendRequest,
    ensures
        ({
            let batch = action->SendRequest_batch;
            is_request_run(seq![s, post.replied(reply, batch)], seq![batch], seq![reply])
        }),
{
    let batch = action->SendRequest_batch;
    let states = seq![s, post.replied(reply, batch)];
    assert(is_request_step(states, seq![batch], seq![reply], 0));
}

proof fn lemma_request_run_step<B>(
    states: Seq<ChainView<B>>,
    batches: Seq<BatchView<B>>,
    replies: Seq<Option<RequestId>>,
    i: int,
)
    requires
        is_request_run(states, batches, replies),
        0 <= i < batches.len(),
        states[i].wf(),
    ensures
        states[i + 1].wf(),
        states[i + 1].to_be_downloaded > states[i].to_be_downloaded,
        states[i + 1].start_slot == states[i].start_slot,
        states[i + 1].target_head_slot == states[i].target_head_slot,
        states[i + 1].queued() <= BATCH_BUFFER_SIZE + 1,
{
    let s = states[i];
    assert(is_request_step(states, batches, replies, i));
    lemma_handing_out_keeps_wf(s, batches[i].current_peer);
}

proof fn lemma_request_run<B>(
    states: Seq<ChainView<B>>,
    batches: Seq<BatchView<B>>,
    replies: Seq<Option<RequestId>>,
    i: int,
    j: int,
)
    requires
        is_request_run(states, batches, replies),
        states[0].wf(),
        0 <= i <= j < states.len(),
    ensures
        states[i].wf(),
        states[j].wf(),
        states[j].to_be_downloaded >= states[i].to_be_downloaded + (j - i),
        states[j].start_slot == states[i].start_slot == states[0].start_slot,
        states[j].target_head_slot == states[i].target_head_slot == states[0].target_head_slot,
        j > 0 ==> states[j].queued() <= BATCH_BUFFER_SIZE + 1,
    decreases j,
{
    if j > 0 {
        if i < j {
            lemma_request_run(states, batches, replies, i, j - 1);
        } else {
            lemma_request_run(states, batches, replies, j - 1, j - 1);
        }
        lemma_request_run_step(states, batches, replies, j - 1);
    }
}

/// Requesting batches comes to an end, whatever the network replies: there are no more requests
/// than the chain has batches.
pub proof fn law_requests_come_to_an_end<B>(
    states: Seq<ChainView<B>>,
    batches: Seq<BatchView<B>>,
    replies: Seq<Option<RequestId>>,
)
    requires
        is_request_run(states, batches, replies),
        states[0].wf(),
    ensures
        batches.len() > 0 ==> states[0].start_slot <= states[0].target_head_slot,
        batches.len() > 0 ==> batches.len() <= (states[0].target_head_slot - states[0].start_slot)
            / BLOCKS_PER_BATCH as int + 1,
{
    if batches.len() > 0 {
        let last = batches.len() - 1;
        lemma_request_run(states, batches, replies, 0, last);
        assert(is_request_step(states, batches, replies, last));
    }
}

/// However many batches are requested, no more than `BATCH_BUFFER_SIZE + 1` are pending or
/// awaiting processing, unless more were so to begin with; and then there are not more of them.
pub proof fn law_requests_respect_the_buffer<B>(
    states: Seq<ChainView<B>>,
    batches: Seq<BatchView<B>>,
    replies: Seq<Option<RequestId>>,
    i: int,
)
    requires
        is_request_run(states, batches, replies),
        states[0].wf(),
        0 <= i < states.len(),
    ensures
        ({
            ||| states[i].completed.len() + states[i].pending.len() <= BATCH_BUFFER_SIZE + 1
            ||| states[i].completed.len() + states[i].pending.len() <= states[0].completed.len()
                + states[0].pending.len()
        }),
{
    lemma_request_run(states, batches, replies, 0, i);
}

/// Two runs of requests, the second of which goes on from where the first one ends, make up one
/// run.
pub proof fn law_request_runs_join<B>(
    states: Seq<ChainView<B>>,
    batches: Seq<BatchView<B>>,
    replies: Seq<Option<RequestId>>,
    more_states: Seq<ChainView<B>>,
    more_batches: Seq<BatchView<B>>,
    more_replies: Seq<Option<RequestId>>,
)
    requires
        is_request_run(states, batches, replies),
        is_request_run(more_states, more_batches, more_replies),
        states.last() == more_states.first(),
    ensures
        is_request_run(
            states + more_states.skip(1),
            batches + more_batches,
            replies + more_replies,
        ),
{
    let all_states = states + more_states.skip(1);
    let all_batches = batches + more_batches;
    let all_replies = replies + more_replies;
    let n = batches.len() as int;
    assert forall|i: int| 0 <= i < all_batches.len() implies #[trigger] is_request_step(
        all_states,
        all_batches,
        all_replies,
        i,
    ) by {
        if i < n {
            assert(is_request_step(states, batches, replies, i));
        } else {
            assert(is_request_step(more_states, more_batches, more_replies, i - n));
            assert(all_states[i] == more_states[i - n]);
            assert(all_states[i + 1] == more_states[i - n + 1]);
        }
    }
}

proof fn lemma_pending_stays<B>(
    states: Seq<ChainView<B>>,
    batches: Seq<BatchView<B>>,
    replies: Seq<Option<RequestId>>,
    i: int,
    j: int,
)
    requires
        is_request_run(states, batches, replies),
        0 <= i < j < states.len(),
        replies[i] is Some,
        forall|k: int| i < k < replies.len() ==> #[trigger] replies[k] != replies[i],
    ensures
        states[j].pending.contains_key(replies[i]->0),
        states[j].pending[replies[i]->0] == batches[i],
    decreases j,
{
    assert(is_request_step(states, batches, replies, j - 1));
    if i < j - 1 {
        lemma_pending_stays(states, batches, replies, i, j - 1);
        assert(replies[j - 1] != replies[i]);
    }
}

/// A peer is asked for one batch at a time: where the network gives each request an id of its own,
/// two requests that it took went to different peers.
pub proof fn law_requests_go_to_different_peers<B>(
    states: Seq<ChainView<B>>,
    batches: Seq<BatchView<B>>,
    replies: Seq<Option<RequestId>>,
    i: int,
    j: int,
)
    requires
        is_request_run(states, batches, replies),
        0 <= i < j < batches.len(),
        replies[i] is Some,
        forall|k: int| i < k < replies.len() ==> #[trigger] replies[k] != replies[i],
    ensures
        batches[i].current_peer != batches[j].current_peer,
{
    lemma_pending_stays(states, batches, replies, i, j);
    assert(is_request_step(states, batches, replies, j));
    assert(is_idle(states[j].pending, batches[j].current_peer));
}

/// While a chain is syncing, requesting batches stops only when all peers are busy, the buffer is
/// full, or all batches of the chain have been requested.
pub proof fn law_requests_exhaust_the_peers<B>(
    s: ChainView<B>,
    post: ChainView<B>,
    action: ActionView<B>,
)
    requires
        s.state is Syncing,
        s.resumes_to(Followup::RequestBatches, post, action),
        action is Done,
    ensures
        ({
            ||| forall|peer: Seq<u8>| #[trigger]
                s.peers.contains(peer) ==> exists|id: RequestId| #[trigger]
                    s.pending.contains_key(id) && s.pending[id].current_peer == peer
            ||| s.completed.len() + s.pending.len() > BATCH_BUFFER_SIZE
            ||| s.to_be_downloaded == 0 && s.start_slot > s.target_head_slot
            ||| s.to_be_downloaded > 0 && s.start_slot + (s.to_be_downloaded - 1) * 50
                > s.target_head_slot
        }),
{
    if s.wants_batch() {
        assert forall|peer: Seq<u8>| #[trigger] s.peers.contains(peer) implies exists|id: RequestId|
            #[trigger] s.pending.contains_key(id) && s.pending[id].current_peer == peer by {
            assert(!s.is_available(peer));
        }
    }
}

/// Requesting batches stops only for the same reasons after a completed response and a processed
/// batch, whatever is processed then.
pub proof fn law_every_event_exhausts_the_peers<B>(
    s: ChainView<B>,
    then: Followup,
    post: ChainView<B>,
    action: ActionView<B>,
)
    requires
        s.state is Syncing,
        then !is Nothing,
        s.resumes_to(then, post, action),
        action !is SendRequest,
    ensures
        ({
            ||| forall|peer: Seq<u8>| #[trigger]
                s.peers.contains(peer) ==> exists|id: RequestId| #[trigger]
                    s.pending.contains_key(id) && s.pending[id].current_peer == peer
            ||| s.completed.len() + s.pending.len() > BATCH_BUFFER_SIZE
            ||| s.to_be_downloaded == 0 && s.start_slot > s.target_head_slot
            ||| s.to_be_downloaded > 0 && s.start_slot + (s.to_be_downloaded - 1) * 50
                > s.target_head_slot
        }),
{
    if s.wants_batch() {
        assert forall|peer: Seq<u8>| #[trigger] s.peers.contains(peer) implies exists|id: RequestId|
            #[trigger] s.pending.contains_key(id) && s.pending[id].current_peer == peer by {
            assert(!s.is_available(peer));
        }
    }
}

/// Adding an idle peer to an active chain that wants a batch starts a request; and it goes to that
/// peer if no other is idle.
pub proof fn law_added_peer_gets_work<B>(
    s: ChainView<B>,
    peer: Seq<u8>,
    post: ChainView<B>,
    action: ActionView<B>,
)
    requires
        s.state is Syncing,
        s.wants_batch(),
        is_idle(s.pending, peer),
        s.with_peer(peer).resumes_to(Followup::RequestBatches, post, action),
    ensures
        action is SendRequest,
        !s.has_available_peer() ==> action->SendRequest_batch.current_peer == peer,
{
    let t = s.with_peer(peer);
    assert(t.is_available(peer));
    assert(t.queued() == s.queued());
    assert(t.can_request());
    let chosen = action->SendRequest_batch.current_peer;
    assert(t.is_available(chosen));
    if chosen != peer {
        assert(s.is_available(chosen));
    }
}

// ---- Whatever happens to a chain ----

/// Something that happens to a chain: a call of one of its methods.
pub enum Event<B> {
    /// `resume`
    Resumed { then: Followup },
    /// `on_request_reply`
    Replied { reply: Option<RequestId>, batch: BatchView<B>, then: Followup },
    /// `on_block_response` with a block
    BlockArrived { id: RequestId, block: BeaconBlock<B> },
    /// `on_block_response` without a block
    ResponseEnded { id: RequestId },
    /// `on_batch_process_result`, the batch being valid
    BatchSucceeded { batch: BatchView<B> },
    /// `on_batch_process_result`, the batch being invalid
    BatchInvalid,
    /// `inject_error`
    RequestFailed { id: RequestId },
    /// `stop_syncing`
    Stopped,
    /// `start_syncing`
    Started { local_finalized_slot: nat },
    /// `add_peer`
    PeerAdded { peer: Seq<u8> },
    /// `get_next_batch`
    BatchTaken { peer: Seq<u8> },
    /// `begin_processing`
    ProcessingBegun { processing_id: u64 },
    /// A call that does not concern the chain.
    Ignored,
}

/// Whether `event` makes `post` of the chain and brings about `action`.
pub open spec fn leads_to<B>(
    s: ChainView<B>,
    event: Event<B>,
    post: ChainView<B>,
    action: ActionView<B>,
) -> bool {
    match event {
        Event::Resumed { then } => s.resumes_to(then, post, action),
        Event::Replied { reply, batch, then } => s.replied(reply, batch).resumes_to(
            then,
            post,
            action,
        ),
        Event::BlockArrived { id, block } => {
            &&& s.pending.contains_key(id)
            &&& post == s.with_block(id, block)
            &&& action is Done
        },
        Event::ResponseEnded { id } => {
            &&& s.pending.contains_key(id)
            &&& s.without_pending(id).completes_to(s.pending[id], post, action)
        },
        Event::BatchSucceeded { batch } => exists|outcome: ProcessingResult| #[trigger]
            s.succeeds_to(batch, outcome, post, action),
        Event::BatchInvalid => post == s.abandoned() && action is DownvotePeers,
        Event::RequestFailed { id } => {
            &&& s.pending.contains_key(id)
            &&& post == s.without_pending(id)
            &&& exists|outcome: ProcessingResult| #[trigger]
                post.fails_to(s.pending[id], outcome, action)
        },
        Event::Stopped => post == s.stopped() && action is Done,
        Event::Started { local_finalized_slot } => s.starts_to(local_finalized_slot, post, action),
        Event::PeerAdded { peer } => s.with_peer(peer).resumes_to(
            Followup::RequestBatches,
            post,
            action,
        ),
        Event::BatchTaken { peer } => s.wants_batch() && post == s.handed_out() && action is Done,
        Event::ProcessingBegun { processing_id } => {
            &&& post == (ChainView { processing: Some(processing_id), ..s })
            &&& action is ProcessBatch
        },
        Event::Ignored => post == s && action is Done,
    }
}

/// The new batch that `event` hands out, if it does. A batch that is requested again because it
/// failed is no new one.
pub open spec fn new_batch<B>(
    s: ChainView<B>,
    event: Event<B>,
    action: ActionView<B>,
) -> Option<BatchView<B>> {
    match event {
        Event::BatchTaken { peer } => Some(s.next_batch(peer)),
        Event::RequestFailed { id } => None,
        _ => match action {
            ActionView::SendRequest { batch, .. } => Some(batch),
            _ => None,
        },
    }
}

/// Whether `event` starts a chain that others have overtaken.
pub open spec fn restarts<B>(s: ChainView<B>, event: Event<B>) -> bool {
    event matches Event::Started { local_finalized_slot } && local_finalized_slot
        > s.processed_slot()
}

/// Whether the event at `i` leads from the state at `i` to the one after it, and is no restart.
pub open spec fn is_history_step<B>(
    states: Seq<ChainView<B>>,
    events: Seq<Event<B>>,
    actions: Seq<ActionView<B>>,
    i: int,
) -> bool {
    leads_to(states[i], events[i], states[i + 1], actions[i]) && !restarts(states[i], events[i])
}

/// Whether `events` happen to a chain, one after the other, without a restart.
pub open spec fn is_history<B>(
    states: Seq<ChainView<B>>,
    events: Seq<Event<B>>,
    actions: Seq<ActionView<B>>,
) -> bool {
    &&& states.len() == events.len() + 1
    &&& actions.len() == events.len()
    &&& forall|i: int|
        0 <= i < events.len() ==> #[trigger] is_history_step(states, events, actions, i)
}

/// Where the batch of a response that ended within its range was inserted.
proof fn lemma_response_ended<B>(
    s: ChainView<B>,
    id: RequestId,
    post: ChainView<B>,
    action: ActionView<B>,
) -> (index: int)
    requires
        s.without_pending(id).completes_to(s.pending[id], post, action),
        !s.pending[id].is_out_of_range(),
    ensures
        is_insertion_point(s.completed, s.pending[id].id, index),
        s.without_pending(id).with_completed(s.pending[id], index).resumes_to(
            Followup::RequestThenProcess,
            post,
            action,
        ),
{
    let t = s.without_pending(id);
    let batch = s.pending[id];
    choose|index: int| #[trigger]
        is_insertion_point(t.completed, batch.id, index) && t.with_completed(
            batch,
            index,
        ).resumes_to(Followup::RequestThenProcess, post, action)
}

proof fn lemma_history_step<B>(
    s: ChainView<B>,
    event: Event<B>,
    post: ChainView<B>,
    action: ActionView<B>,
)
    requires
        leads_to(s, event, post, action),
        !restarts(s, event),
    ensures
        post.start_slot == s.start_slot,
        post.target_head_slot == s.target_head_slot,
        post.to_be_downloaded >= s.to_be_downloaded,
        new_batch(s, event, action) matches Some(batch) ==> {
            &&& batch.id == s.to_be_downloaded
            &&& batch.start_slot == s.batch_start(batch.id) <= s.target_head_slot
            &&& batch.end_slot == s.batch_end(batch.id)
            &&& batch.id < post.to_be_downloaded
            &&& post.max_completed_id() < post.to_be_downloaded
        },
{
    if event is ResponseEnded && !s.pending[event->ResponseEnded_id].is_out_of_range() {
        let index = lemma_response_ended(s, event->ResponseEnded_id, post, action);
    }
}

proof fn lemma_history<B>(
    states: Seq<ChainView<B>>,
    events: Seq<Event<B>>,
    actions: Seq<ActionView<B>>,
    i: int,
    j: int,
)
    requires
        is_history(states, events, actions),
        0 <= i <= j < states.len(),
    ensures
        states[j].start_slot == states[i].start_slot,
        states[j].target_head_slot == states[i].target_head_slot,
        states[j].to_be_downloaded >= states[i].to_be_downloaded,
    decreases j - i,
{
    if i < j {
        lemma_history(states, events, actions, i, j - 1);
        assert(is_history_step(states, events, actions, j - 1));
        lemma_history_step(states[j - 1], events[j - 1], states[j], actions[j - 1]);
    }
}

/// No batch is handed out twice, whatever happens to a chain that is not restarted: the ids of the
/// batches that it hands out go up, and so do their slots. Nor is a batch handed out whose id, or a
/// larger one, was that of a completed batch when the batch before it was handed out.
pub proof fn law_requests_move_forward<B>(
    states: Seq<ChainView<B>>,
    events: Seq<Event<B>>,
    actions: Seq<ActionView<B>>,
    i: int,
    j: int,
)
    requires
        is_history(states, events, actions),
        0 <= i < j < events.len(),
        new_batch(states[i], events[i], actions[i]) is Some,
        new_batch(states[j], events[j], actions[j]) is Some,
    ensures
        ({
            let earlier = new_batch(states[i], events[i], actions[i])->0;
            let later = new_batch(states[j], events[j], actions[j])->0;
            &&& earlier.id < later.id
            &&& states[i + 1].max_completed_id() < later.id
            &&& states[0].wf() ==> earlier.end_slot <= later.start_slot
        }),
{
    assert(is_history_step(states, events, actions, i));
    lemma_history_step(states[i], events[i], states[i + 1], actions[i]);
    assert(is_history_step(states, events, actions, j));
    lemma_history_step(states[j], events[j], states[j + 1], actions[j]);
    lemma_history(states, events, actions, 0, i);
    lemma_history(states, events, actions, 0, j);
    lemma_history(states, events, actions, i + 1, j);
}

// ---- Downloading batches ----

/// The chain once `blocks` have arrived, one after the other, for the request with this id.
pub open spec fn received<B>(s: ChainView<B>, id: RequestId, blocks: Seq<BeaconBlock<B>>) -> ChainView<
    B,
>
    decreases blocks.len(),
{
    if blocks.len() == 0 {
        s
    } else {
        received(s, id, blocks.drop_last()).with_block(id, blocks.last())
    }
}

/// A batch that was requested comes back with the blocks that arrived for it, in the order in which
/// they arrived. Nothing else of the chain changes meanwhile.
pub proof fn law_download_collects_the_blocks<B>(
    s: ChainView<B>,
    id: RequestId,
    batch: BatchView<B>,
    blocks: Seq<BeaconBlock<B>>,
)
    ensures
        received(s.replied(Some(id), batch), id, blocks) == s.replied(
            Some(id),
            BatchView { downloaded_blocks: batch.downloaded_blocks + blocks, ..batch },
        ),
    decreases blocks.len(),
{
    let t = s.replied(Some(id), batch);
    if blocks.len() == 0 {
        assert(batch.downloaded_blocks + blocks =~= batch.downloaded_blocks);
    } else {
        let front = blocks.drop_last();
        law_download_collects_the_blocks(s, id, batch, front);
        assert((batch.downloaded_blocks + front).push(blocks.last()) =~= batch.downloaded_blocks
            + blocks);
        assert(received(t, id, blocks) =~= s.replied(
            Some(id),
            BatchView { downloaded_blocks: batch.downloaded_blocks + blocks, ..batch },
        ));
    }
}

/// Once a response has ended within its range, its batch is among the completed ones or handed to
/// the processor or, if it is empty, counted as processed; and its request is no longer pending.
pub proof fn law_completed_batch_is_kept<B>(
    s: ChainView<B>,
    id: RequestId,
    post: ChainView<B>,
    action: ActionView<B>,
)
    requires
        s.pending.contains_key(id),
        !s.pending[id].is_out_of_range(),
        s.without_pending(id).completes_to(s.pending[id], post, action),
    ensures
        !post.pending.contains_key(id),
        ({
            ||| post.completed.contains(s.pending[id])
            ||| action matches ActionView::ProcessBatch { batch, .. } && batch == s.pending[id]
            ||| s.pending[id].downloaded_blocks.len() == 0 && post.processed.contains(s.pending[id])
        }),
{
    let batch = s.pending[id];
    let t = s.without_pending(id);
    let index = lemma_response_ended(s, id, post, action);
    let u = t.with_completed(batch, index);
    assert(u.completed[index] == batch);
    if !u.can_request() && u.may_process() {
        lemma_empty_run(u.completed, u.to_be_processed);
        let n = empty_run(u.completed, u.to_be_processed) as int;
        let settled = u.settled();
        if index < n {
            assert(settled.processed[u.processed.len() + index] == batch);
        } else {
            assert(settled.completed[index - n] == batch);
            if u.has_batch_to_process() && index > n {
                assert(post.completed[index - n - 1] == batch);
            }
        }
    }
}

// ---- Failing batches ----

/// Whether the failure of the batch at `i` kept the chain, and made it the batch after it.
pub open spec fn is_retry<B>(history: Seq<BatchView<B>>, i: int) -> bool {
    &&& history[i].retries + 1 <= MAX_BATCH_RETRIES
    &&& history[i + 1] == history[i].reassigned(history[i + 1].current_peer)
}

/// Whether `history` is a fresh batch and what became of it with each failure after which the chain
/// was kept.
pub open spec fn is_retry_history<B>(history: Seq<BatchView<B>>) -> bool {
    &&& history.len() > 0
    &&& history[0].retries == 0
    &&& forall|i: int| 0 <= i < history.len() - 1 ==> #[trigger] is_retry(history, i)
}

proof fn lemma_retry_history<B>(history: Seq<BatchView<B>>, i: int)
    requires
        is_retry_history(history),
        0 <= i < history.len(),
    ensures
        history[i].retries == i,
        history[i] == (BatchView {
            retries: i as nat,
            current_peer: history[i].current_peer,
            ..history[0]
        }),
    decreases i,
{
    if i > 0 {
        lemma_retry_history(history, i - 1);
        assert(is_retry(history, i - 1));
    }
}

/// A batch is requested again after each of its first `MAX_BATCH_RETRIES` failures, for the same
/// slots; the failure after those removes the chain.
pub proof fn law_retries_are_limited<B>(
    s: ChainView<B>,
    history: Seq<BatchView<B>>,
    outcome: ProcessingResult,
    action: ActionView<B>,
)
    requires
        is_retry_history(history),
        s.fails_to(history.last(), outcome, action),
    ensures
        history.len() <= MAX_BATCH_RETRIES + 1,
        outcome is RemoveChain <==> history.len() == MAX_BATCH_RETRIES + 1,
        action matches ActionView::SendRequest { batch, .. } ==> batch.id == history[0].id
            && batch.start_slot == history[0].start_slot && batch.end_slot == history[0].end_slot,
{
    let last = history.len() - 1;
    lemma_retry_history(history, last);
    if last > 0 {
        lemma_retry_history(history, last - 1);
        assert(is_retry(history, last - 1));
    }
}

/// A batch that fails and is requested again under a new id leaves the number of queued batches as
/// it was.
pub proof fn law_retry_keeps_the_queue<B>(
    s: ChainView<B>,
    id: RequestId,
    new_id: RequestId,
    batch: BatchView<B>,
)
    requires
        s.wf(),
        s.pending.contains_key(id),
        new_id == id || !s.pending.contains_key(new_id),
    ensures
        ({
            let t = s.without_pending(id).replied(Some(new_id), batch);
            t.completed.len() + t.pending.len() == s.completed.len() + s.pending.len()
        }),
{
}

// ---- Processing batches ----

/// Only one batch is processed at a time: while one is, no other is handed to the processor.
pub proof fn law_one_batch_is_processed_at_a_time<B>(
    s: ChainView<B>,
    then: Followup,
    local_finalized_slot: nat,
    post: ChainView<B>,
    action: ActionView<B>,
)
    requires
        s.processing is Some,
        s.resumes_to(then, post, action) || s.starts_to(local_finalized_slot, post, action),
    ensures
        action !is ProcessBatch,
        post.processing == s.processing,
{
}

/// While a batch is being processed, no event but its result hands another one to the processor, or
/// ends the processing. Only the caller can do so, by beginning to process a batch itself.
pub proof fn law_every_event_waits_for_the_processor<B>(
    s: ChainView<B>,
    event: Event<B>,
    post: ChainView<B>,
    action: ActionView<B>,
)
    requires
        s.processing is Some,
        leads_to(s, event, post, action),
        event !is BatchSucceeded,
        event !is BatchInvalid,
        event !is ProcessingBegun,
    ensures
        action !is ProcessBatch,
        post.processing == s.processing,
{
    if event is ResponseEnded && !s.pending[event->ResponseEnded_id].is_out_of_range() {
        let index = lemma_response_ended(s, event->ResponseEnded_id, post, action);
    }
}

/// Whatever event hands a batch to the processor, it is the next one in line, it has blocks, and it
/// is from then on the one that is being processed.
pub proof fn law_processor_gets_the_next_batch<B>(
    s: ChainView<B>,
    event: Event<B>,
    post: ChainView<B>,
    action: ActionView<B>,
)
    requires
        leads_to(s, event, post, action),
        event !is ProcessingBegun,
        action is ProcessBatch,
    ensures
        action->ProcessBatch_batch.id == post.to_be_processed,
        action->ProcessBatch_batch.downloaded_blocks.len() > 0,
        post.processing == Some(action->ProcessBatch_processing_id),
        post.state is Syncing,
{
    match event {
        Event::Resumed { then } => {
            lemma_empty_run(s.completed, s.to_be_processed);
        },
        Event::Replied { reply, batch, then } => {
            lemma_empty_run(s.completed, s.to_be_processed);
        },
        Event::ResponseEnded { id } => {
            let index = lemma_response_ended(s, id, post, action);
            let t = s.without_pending(id).with_completed(s.pending[id], index);
            lemma_empty_run(t.completed, t.to_be_processed);
        },
        Event::BatchSucceeded { batch } => {
            let t = s.succeeded(batch);
            lemma_empty_run(t.completed, t.to_be_processed);
        },
        Event::Started { local_finalized_slot } => {
            let t = s.started(local_finalized_slot);
            lemma_empty_run(t.completed, t.to_be_processed);
        },
        _ => {},
    }
}

/// Batches are processed in the order of their ids. The batch that is handed over is the next one
/// in line and has blocks; those skipped to get there are completed batches without blocks, one for
/// each id in between.
pub proof fn law_batches_are_processed_in_order<B>(
    s: ChainView<B>,
    then: Followup,
    post: ChainView<B>,
    action: ActionView<B>,
)
    requires
        s.has_batch_to_process(),
        s.hands_over(then, post, action),
    ensures
        ({
            let batch = action->ProcessBatch_batch;
            let skipped = batch.id - s.to_be_processed;
            &&& batch.id == post.to_be_processed
            &&& batch.downloaded_blocks.len() > 0
            &&& 0 <= skipped < s.completed.len()
            &&& batch == s.completed[skipped]
            &&& post.completed == s.completed.skip(skipped + 1)
            &&& post.processed == s.processed + s.completed.take(skipped)
            &&& forall|i: int|
                0 <= i < skipped ==> (#[trigger] s.completed[i]).id == s.to_be_processed + i
                    && s.completed[i].downloaded_blocks.len() == 0
            &&& post.processing == Some(action->ProcessBatch_processing_id)
        }),
{
    lemma_empty_run(s.completed, s.to_be_processed);
    let n = empty_run(s.completed, s.to_be_processed) as int;
    assert(s.settled().completed[0] == s.completed[n]);
    assert(post.completed =~= s.completed.skip(n + 1));
}

proof fn lemma_unvalidated<B>(processed: Seq<BatchView<B>>, id: nat, batch: BatchView<B>)
    ensures
        unvalidated(processed, id).contains(batch) <==> processed.contains(batch) && batch.id >= id,
{
    let in_doubt = |b: BatchView<B>| b.id >= id;
    let rest = processed.filter(in_doubt);
    assert(rest == unvalidated(processed, id));
    if rest.contains(batch) {
        let i = choose|i: int| 0 <= i < rest.len() && rest[i] == batch;
        processed.lemma_filter_pred(in_doubt, i);
        processed.lemma_filter_contains_rev(in_doubt, batch);
    }
    if processed.contains(batch) && batch.id >= id {
        let i = choose|i: int| 0 <= i < processed.len() && processed[i] == batch;
        processed.lemma_filter_contains(in_doubt, i);
    }
}

/// A batch that is processed successfully validates all batches before it, and only those: they no
/// longer await validation. It awaits validation itself unless it came with all its blocks.
pub proof fn law_success_validates_earlier_batches<B>(
    s: ChainView<B>,
    batch: BatchView<B>,
    other: BatchView<B>,
)
    ensures
        s.succeeded(batch).processed.contains(other) <==> {
            ||| s.processed.contains(other) && other.id >= batch.id
            ||| other == batch && batch.downloaded_blocks.len() < BLOCKS_PER_BATCH
        },
{
    lemma_unvalidated(s.processed, batch.id, other);
    let rest = unvalidated(s.processed, batch.id);
    if batch.downloaded_blocks.len() < BLOCKS_PER_BATCH {
        assert(rest.push(batch)[rest.len() as int] == batch);
        if rest.contains(other) {
            let i = choose|i: int| 0 <= i < rest.len() && rest[i] == other;
            assert(rest.push(batch)[i] == other);
        }
    }
}

/// Once a batch could not be processed, the chain has no peers left to request anything from.
pub proof fn law_failed_chain_requests_nothing<B>(
    s: ChainView<B>,
    then: Followup,
    post: ChainView<B>,
    action: ActionView<B>,
)
    requires
        s.abandoned().resumes_to(then, post, action),
    ensures
        action !is SendRequest,
{
    if s.abandoned().has_available_peer() {
        let peer = choose|peer: Seq<u8>| #[trigger] s.abandoned().is_available(peer);
        assert(s.abandoned().peers.contains(peer));
    }
}

/// A chain without peers requests no batch, whatever happens to it, until a peer is added; only a
/// batch that fails is still requested again, from the peer that it was requested from.
pub proof fn law_chain_without_peers_requests_nothing<B>(
    s: ChainView<B>,
    event: Event<B>,
    post: ChainView<B>,
    action: ActionView<B>,
)
    requires
        s.peers == Set::<Seq<u8>>::empty(),
        leads_to(s, event, post, action),
        event !is PeerAdded,
    ensures
        post.peers == Set::<Seq<u8>>::empty(),
        action matches ActionView::SendRequest { batch, .. } ==> (event matches Event::RequestFailed {
            id,
        } && batch == s.pending[id].reassigned(s.pending[id].current_peer)),
{
    if event is ResponseEnded && !s.pending[event->ResponseEnded_id].is_out_of_range() {
        let index = lemma_response_ended(s, event->ResponseEnded_id, post, action);
    }
}

// ---- Stopping and starting ----

/// A stopped chain rests: whatever is left to do, nothing is requested or processed.
pub proof fn law_stopped_chain_rests<B>(
    s: ChainView<B>,
    then: Followup,
    post: ChainView<B>,
    action: ActionView<B>,
)
    requires
        s.stopped().resumes_to(then, post, action),
    ensures
        action is Done,
        post == s.stopped(),
{
}

/// A chain that is stopped stays so, and requests and processes nothing, whatever happens to it, until
/// it is started; only a batch that fails is still requested again. Only the caller can do more, by
/// beginning to process a batch itself.
pub proof fn law_stopped_chain_rests_until_started<B>(
    s: ChainView<B>,
    event: Event<B>,
    post: ChainView<B>,
    action: ActionView<B>,
)
    requires
        s.state is Stopped,
        leads_to(s, event, post, action),
        event !is Started,
    ensures
        post.state is Stopped,
        event !is RequestFailed ==> action !is SendRequest,
        event !is ProcessingBegun ==> action !is ProcessBatch,
{
    if event is ResponseEnded && !s.pending[event->ResponseEnded_id].is_out_of_range() {
        let index = lemma_response_ended(s, event->ResponseEnded_id, post, action);
    }
}

/// Stopping a chain and starting it again loses nothing, as long as the local chain has not been
/// finalized beyond what this chain has processed.
pub proof fn law_restart_keeps_progress<B>(s: ChainView<B>, local_finalized_slot: nat)
    requires
        local_finalized_slot <= s.processed_slot(),
    ensures
        s.stopped().started(local_finalized_slot) == (ChainView {
            state: ChainSyncingState::Syncing,
            ..s
        }),
{
}

/// Starting a chain that others have overtaken effectively creates a new chain, which starts from
/// the local finalized slot: only its pending batches, its peers and the batch that is being
/// processed stay.
pub proof fn law_overtaken_chain_starts_anew<B>(
    s: ChainView<B>,
    local_finalized_slot: nat,
    peer: Seq<u8>,
)
    requires
        local_finalized_slot > s.processed_slot(),
    ensures
        s.started(local_finalized_slot) == (ChainView {
            pending: s.pending,
            peers: s.peers,
            processing: s.processing,
            state: ChainSyncingState::Syncing,
            ..ChainView::fresh(local_finalized_slot, s.target_head_slot, s.target_head_root, peer)
        }),
{
}

/// Once a chain is started, what it has processed reaches at least to the local finalized slot; and
/// the next batch of one that was overtaken starts there.
pub proof fn law_started_chain_has_caught_up<B>(
    s: ChainView<B>,
    local_finalized_slot: nat,
    peer: Seq<u8>,
)
    requires
        local_finalized_slot <= u64::MAX,
    ensures
        s.started(local_finalized_slot).processed_slot() >= local_finalized_slot,
        local_finalized_slot > s.processed_slot() ==> s.started(local_finalized_slot).next_batch(
            peer,
        ).start_slot == local_finalized_slot,
{
}

// ---- The batches of a chain ----

/// Whether `batch` covers just those slots of the chain that its id stands for.
pub open spec fn is_own_batch<B>(s: ChainView<B>, batch: BatchView<B>) -> bool {
    &&& batch.start_slot == s.batch_start(batch.id)
    &&& batch.end_slot == s.batch_end(batch.id)
    &&& batch.head_root == s.target_head_root
}

/// Whether this holds of all batches that the chain holds.
pub open spec fn holds_own_batches<B>(s: ChainView<B>) -> bool {
    &&& forall|id: RequestId| #[trigger]
        s.pending.contains_key(id) ==> is_own_batch(s, s.pending[id])
    &&& forall|i: int| 0 <= i < s.completed.len() ==> is_own_batch(s, #[trigger] s.completed[i])
    &&& forall|i: int| 0 <= i < s.processed.len() ==> is_own_batch(s, #[trigger] s.processed[i])
}

/// Whether this holds of the batch in `action`, if there is one.
pub open spec fn hands_out_own_batch<B>(s: ChainView<B>, action: ActionView<B>) -> bool {
    match action {
        ActionView::SendRequest { batch, .. } => is_own_batch(s, batch),
        ActionView::ProcessBatch { batch, .. } => is_own_batch(s, batch),
        _ => true,
    }
}

proof fn lemma_own_batches_survive_processing<B>(s: ChainView<B>, processing_id: u64)
    requires
        holds_own_batches(s),
    ensures
        holds_own_batches(s.settled()),
        s.has_batch_to_process() ==> holds_own_batches(s.handed_over(processing_id))
            && is_own_batch(s, s.batch_to_process()),
{
    lemma_empty_run(s.completed, s.to_be_processed);
    let t = s.settled();
    let n = if s.may_process() {
        empty_run(s.completed, s.to_be_processed) as int
    } else {
        0
    };
    assert forall|i: int| 0 <= i < t.completed.len() implies is_own_batch(
        t,
        #[trigger] t.completed[i],
    ) by {
        assert(t.completed[i] == s.completed[i + n]);
    }
    assert forall|i: int| 0 <= i < t.processed.len() implies is_own_batch(
        t,
        #[trigger] t.processed[i],
    ) by {
        if i < s.processed.len() {
            assert(t.processed[i] == s.processed[i]);
        } else {
            assert(t.processed[i] == s.completed[i - s.processed.len()]);
        }
    }
    if s.has_batch_to_process() {
        let u = s.handed_over(processing_id);
        assert(is_own_batch(t, t.completed[0]));
        assert forall|i: int| 0 <= i < u.completed.len() implies is_own_batch(
            u,
            #[trigger] u.completed[i],
        ) by {
            assert(u.completed[i] == t.completed[i + 1]);
        }
    }
}

/// A new chain holds no batches but its own.
pub proof fn law_new_chain_holds_own_batches<B>(
    start_slot: nat,
    target_head_slot: nat,
    target_head_root: Hash256,
    peer: Seq<u8>,
)
    ensures
        holds_own_batches(
            ChainView::<B>::fresh(start_slot, target_head_slot, target_head_root, peer),
        ),
{
}

/// Whatever is left to do, each batch that is requested or handed to the processor covers just the
/// slots that its id stands for, and so do those that the chain goes on to hold.
pub proof fn law_resuming_keeps_own_batches<B>(
    s: ChainView<B>,
    then: Followup,
    post: ChainView<B>,
    action: ActionView<B>,
)
    requires
        holds_own_batches(s),
        s.resumes_to(then, post, action),
    ensures
        holds_own_batches(post),
        hands_out_own_batch(post, action),
{
    if action is ProcessBatch {
        lemma_own_batches_survive_processing(s, action->ProcessBatch_processing_id);
    } else {
        lemma_own_batches_survive_processing(s, 0);
    }
}

/// The same holds when a chain is started, but for what was pending: that stays pending as it is,
/// though a chain that was overtaken counts its slots anew.
pub proof fn law_starting_keeps_own_batches<B>(
    s: ChainView<B>,
    local_finalized_slot: nat,
    post: ChainView<B>,
    action: ActionView<B>,
)
    requires
        holds_own_batches(s),
        s.starts_to(local_finalized_slot, post, action),
    ensures
        holds_own_batches(ChainView { pending: Map::empty(), ..post }),
        hands_out_own_batch(post, action),
        post.pending == s.pending,
        (forall|id: RequestId| #[trigger]
            s.pending.contains_key(id) ==> is_own_batch(post, s.pending[id])) ==> holds_own_batches(
            post,
        ),
        local_finalized_slot <= s.processed_slot() ==> holds_own_batches(post),
{
    let t = s.started(local_finalized_slot);
    let u = ChainView { pending: Map::empty(), ..t };
    assert(holds_own_batches(u));
    let processing_id = if action is ProcessBatch {
        action->ProcessBatch_processing_id
    } else {
        0
    };
    lemma_own_batches_survive_processing(u, processing_id);
    assert(u.settled() =~= ChainView { pending: Map::empty(), ..t.settled() });
}

/// The same holds when a block arrives, and when a response ends.
pub proof fn law_responses_keep_own_batches<B>(
    s: ChainView<B>,
    id: RequestId,
    block: BeaconBlock<B>,
    post: ChainView<B>,
    action: ActionView<B>,
)
    requires
        holds_own_batches(s),
        s.pending.contains_key(id),
    ensures
        holds_own_batches(s.with_block(id, block)),
        s.without_pending(id).completes_to(s.pending[id], post, action) ==> holds_own_batches(post)
            && hands_out_own_batch(post, action),
{
    let batch = s.pending[id];
    let t = s.without_pending(id);
    if t.completes_to(batch, post, action) {
        if !batch.is_out_of_range() {
            let index = lemma_response_ended(s, id, post, action);
            let u = t.with_completed(batch, index);
            assert forall|i: int| 0 <= i < u.completed.len() implies is_own_batch(
                u,
                #[trigger] u.completed[i],
            ) by {
                if i < index {
                    assert(u.completed[i] == s.completed[i]);
                } else if i > index {
                    assert(u.completed[i] == s.completed[i - 1]);
                }
            }
            law_resuming_keeps_own_batches(u, Followup::RequestThenProcess, post, action);
        }
    }
}

/// The same holds when a batch of the chain fails and is requested again.
pub proof fn law_retries_keep_own_batches<B>(
    s: ChainView<B>,
    batch: BatchView<B>,
    outcome: ProcessingResult,
    action: ActionView<B>,
    reply: Option<RequestId>,
)
    requires
        holds_own_batches(s),
        is_own_batch(s, batch),
    ensures
        s.fails_to(batch, outcome, action) ==> hands_out_own_batch(s, action),
        holds_own_batches(s.replied(reply, batch)),
{
}

/// The same holds when a batch of the chain has been processed successfully.
pub proof fn law_results_keep_own_batches<B>(
    s: ChainView<B>,
    batch: BatchView<B>,
    outcome: ProcessingResult,
    post: ChainView<B>,
    action: ActionView<B>,
)
    requires
        holds_own_batches(s),
        is_own_batch(s, batch),
        s.succeeds_to(batch, outcome, post, action),
    ensures
        holds_own_batches(post),
        hands_out_own_batch(post, action),
{
    let t = s.succeeded(batch);
    assert forall|i: int| 0 <= i < t.processed.len() implies is_own_batch(
        t,
        #[trigger] t.processed[i],
    ) by {
        law_success_validates_earlier_batches(s, batch, t.processed[i]);
        assert(t.processed.contains(t.processed[i]));
        if s.processed.contains(t.processed[i]) {
            let j = choose|j: int| 0 <= j < s.processed.len() && s.processed[j] == t.processed[i];
            assert(is_own_batch(s, s.processed[j]));
        }
    }
    if !t.is_complete() {
        law_resuming_keeps_own_batches(t, Followup::RequestThenProcess, post, action);
    }
}

} // verus!
