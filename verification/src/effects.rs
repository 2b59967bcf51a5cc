//! What each method of a chain comes down to, said of nothing but what the chain holds before and
//! after it, and of what is handed out.
use crate::batch::{is_idle, views, Batch, BatchView, BLOCKS_PER_BATCH};
use crate::chain::Action;
use crate::laws::law_completed_batch_is_kept;
use crate::model::{
    empty_run, is_admissible, is_insertion_point, lemma_empty_run, max_batch_id, ActionView,
    ChainView, Followup, ProcessingResult, BATCH_BUFFER_SIZE, MAX_BATCH_RETRIES,
};
use crate::peer_pool::{identities, lists_each_once};
use crate::types::{capped_add, BeaconBlock, BlocksByRangeRequest, Hash256, PeerId, RequestId};
use vstd::prelude::*;

verus! {

// ---- Numbers, peers and batches ----

/// The limits of a chain. Batch ids are counted as long as the slots before the end of the batch
/// fit in a slot number.
pub proof fn law_limits_of_a_chain()
    ensures
        BLOCKS_PER_BATCH == 50,
        BATCH_BUFFER_SIZE == 5,
        MAX_BATCH_RETRIES == 5,
        max_batch_id() * 50 <= u64::MAX < (max_batch_id() + 1) * 50,
{
}

/// A sum of slots is exact as long as it is a slot, and is the last slot beyond that.
pub proof fn law_sums_of_slots_saturate(a: nat, b: nat)
    ensures
        a + b <= u64::MAX ==> capped_add(a, b) == a + b,
        a + b > u64::MAX ==> capped_add(a, b) == u64::MAX,
{
}

/// What a batch holds is what its fields say.
pub proof fn law_batch_shows_its_fields<B>(batch: Batch<B>)
    ensures
        batch@.id == batch.id.0,
        batch@.start_slot == batch.start_slot.0,
        batch@.end_slot == batch.end_slot.0,
        batch@.head_root == batch.head_root,
        batch@.current_peer == batch.current_peer@,
        batch@.retries == batch.retries,
        batch@.downloaded_blocks == batch.downloaded_blocks@,
{
}

/// The view of a list of batches has the view of each batch in its place.
pub proof fn law_views_of_batches_keep_their_places<B>(batches: Seq<Batch<B>>, i: int)
    ensures
        views(batches).len() == batches.len(),
        0 <= i < batches.len() ==> views(batches)[i] == batches[i]@,
{
}

/// What an action holds is what its fields say.
pub proof fn law_action_shows_its_fields<B>(action: Action<B>)
    ensures
        action is Done <==> action@ is Done,
        action matches Action::SendRequest { request, batch, then } ==> action@
            == (ActionView::SendRequest { request, batch: batch@, then }),
        action matches Action::ProcessBatch { processing_id, batch, then } ==> action@
            == (ActionView::ProcessBatch { processing_id, batch: batch@, then }),
        action matches Action::DownvotePeers(peers) ==> {
            &&& action@ is DownvotePeers
            &&& action@->DownvotePeers_0.len() == peers@.len()
            &&& forall|i: int|
                0 <= i < peers@.len() ==> (#[trigger] action@->DownvotePeers_0[i]) == peers@[i]@
        },
{
}

/// A block is copied whole: with its slot, and with a clone of its body.
pub proof fn law_copied_block_keeps_its_slot<B: Clone>(block: BeaconBlock<B>, copy: BeaconBlock<B>)
    requires
        block.is_copied_by(copy),
    ensures
        copy.slot == block.slot,
        cloned::<B>(block.body, copy.body),
{
}

/// A list names each member of a pool once if and only if all whom it names are members, no two that
/// it names are the same, and no member is missing.
pub proof fn law_lists_name_each_member_once(peers: Seq<PeerId>, pool: Set<Seq<u8>>)
    ensures
        lists_each_once(identities(peers), pool) <==> {
            &&& forall|i: int| 0 <= i < peers.len() ==> pool.contains((#[trigger] peers[i])@)
            &&& forall|i: int, j: int|
                0 <= i < j < peers.len() ==> (#[trigger] peers[i])@ != (#[trigger] peers[j])@
            &&& forall|id: Seq<u8>| #[trigger]
                pool.contains(id) ==> exists|k: int|
                    0 <= k < peers.len() && (#[trigger] peers[k])@ == id
        },
{
    let ids = identities(peers);
    assert forall|i: int| 0 <= i < peers.len() implies ids.to_set().contains(
        (#[trigger] peers[i])@,
    ) by {
        assert(ids[i] == peers[i]@);
    }
    assert forall|id: Seq<u8>| #[trigger] ids.to_set().contains(id) implies exists|k: int|
        0 <= k < peers.len() && (#[trigger] peers[k])@ == id by {
        let k = choose|k: int| 0 <= k < ids.len() && ids[k] == id;
        assert(peers[k]@ == id);
    }
    if lists_each_once(ids, pool) {
        assert forall|i: int, j: int| 0 <= i < j < peers.len() implies (#[trigger] peers[i])@ != (
        #[trigger] peers[j])@ by {
            assert(ids[i] != ids[j]);
        }
    }
    if {
        &&& forall|i: int| 0 <= i < peers.len() ==> pool.contains((#[trigger] peers[i])@)
        &&& forall|i: int, j: int|
            0 <= i < j < peers.len() ==> (#[trigger] peers[i])@ != (#[trigger] peers[j])@
        &&& forall|id: Seq<u8>| #[trigger]
            pool.contains(id) ==> exists|k: int|
                0 <= k < peers.len() && (#[trigger] peers[k])@ == id
    } {
        assert forall|i: int, j: int| 0 <= i < ids.len() && 0 <= j < ids.len() && i
            != j implies ids[i] != ids[j] by {
            assert(ids[i] == peers[i]@ && ids[j] == peers[j]@);
        }
        assert(ids.to_set() =~= pool);
    }
}

/// A peer is available if and only if it is in the pool and no pending batch is assigned to it.
pub proof fn law_available_peers_have_nothing_pending<B>(s: ChainView<B>, peer: Seq<u8>)
    ensures
        is_idle(s.pending, peer) <==> (forall|id: RequestId| #[trigger]
            s.pending.contains_key(id) ==> s.pending[id].current_peer != peer),
        s.is_available(peer) <==> s.peers.contains(peer) && (forall|id: RequestId| #[trigger]
            s.pending.contains_key(id) ==> s.pending[id].current_peer != peer),
        s.is_available(peer) ==> s.has_available_peer(),
{
}

/// There is an available peer only if one of the pool has nothing pending.
pub proof fn law_some_peer_is_available<B>(s: ChainView<B>) -> (peer: Seq<u8>)
    requires
        s.has_available_peer(),
    ensures
        s.peers.contains(peer),
        forall|id: RequestId| #[trigger]
            s.pending.contains_key(id) ==> s.pending[id].current_peer != peer,
{
    choose|peer: Seq<u8>| #[trigger] s.is_available(peer)
}

/// A request asks for the slots of its batch one by one, from the first one on, up to the size of a
/// batch, and of the chain that the batch belongs to.
pub proof fn law_request_asks_for_the_batch<B>(batch: BatchView<B>, request: BlocksByRangeRequest)
    ensures
        batch.is_requested_by(request) <==> {
            &&& request.head_block_root == batch.head_root
            &&& request.start_slot == batch.start_slot
            &&& request.step == 1
            &&& batch.end_slot <= batch.start_slot ==> request.count == 0
            &&& batch.start_slot <= batch.end_slot <= batch.start_slot + 50 ==> request.count
                == batch.end_slot - batch.start_slot
            &&& batch.start_slot + 50 <= batch.end_slot ==> request.count == 50
        },
{
}

/// A batch that was just made is assigned to the given peer, has not failed and has no blocks.
pub proof fn law_fresh_batch_is_empty<B>(
    id: nat,
    start_slot: nat,
    end_slot: nat,
    head_root: Hash256,
    peer: Seq<u8>,
)
    ensures
        ({
            let batch = BatchView::<B>::fresh(id, start_slot, end_slot, head_root, peer);
            &&& batch.id == id
            &&& batch.start_slot == start_slot
            &&& batch.end_slot == end_slot
            &&& batch.head_root == head_root
            &&& batch.current_peer == peer
            &&& batch.retries == 0
            &&& batch.downloaded_blocks.len() == 0
        }),
{
}

/// Only the first and the last block decide whether a response is out of range: the first one must
/// not be before the start of the batch, and the last one not beyond its end. A response without
/// blocks is in range.
pub proof fn law_first_and_last_block_decide_the_range<B>(batch: BatchView<B>)
    ensures
        batch.downloaded_blocks.len() == 0 ==> !batch.is_out_of_range(),
        batch.downloaded_blocks.len() > 0 ==> (batch.is_out_of_range() <==> {
            ||| batch.downloaded_blocks[0].slot.0 < batch.start_slot
            ||| batch.downloaded_blocks[batch.downloaded_blocks.len() - 1].slot.0 > batch.end_slot
        }),
{
}

/// A response all of whose blocks belong to the batch is never out of range, however many blocks it
/// has.
pub proof fn law_blocks_of_the_batch_are_in_range<B>(batch: BatchView<B>)
    requires
        forall|i: int|
            0 <= i < batch.downloaded_blocks.len() ==> batch.start_slot <= (
            #[trigger] batch.downloaded_blocks[i]).slot.0 < batch.end_slot,
    ensures
        !batch.is_out_of_range(),
{
    if batch.downloaded_blocks.len() > 0 {
        let last = batch.downloaded_blocks[batch.downloaded_blocks.len() - 1];
        assert(batch.start_slot <= batch.downloaded_blocks[0].slot.0);
        assert(last.slot.0 < batch.end_slot);
    }
}

// ---- What a chain holds ----

/// A chain that was just set up is stopped, holds no batches, has one peer, and begins with the
/// first batch.
pub proof fn law_fresh_chain_is_empty<B>(
    start_slot: nat,
    target_head_slot: nat,
    target_head_root: Hash256,
    peer: Seq<u8>,
    other: Seq<u8>,
    id: RequestId,
)
    ensures
        ({
            let s = ChainView::<B>::fresh(start_slot, target_head_slot, target_head_root, peer);
            &&& s.start_slot == start_slot
            &&& s.target_head_slot == target_head_slot
            &&& s.target_head_root == target_head_root
            &&& !s.pending.contains_key(id)
            &&& s.pending.len() == 0
            &&& s.completed.len() == 0
            &&& s.processed.len() == 0
            &&& s.peers.contains(other) <==> other == peer
            &&& s.to_be_downloaded == 1
            &&& s.to_be_processed == 1
            &&& s.last_processed == 0
            &&& s.state is Stopped
            &&& s.processing is None
        }),
{
}

/// A chain is sound if and only if its completed batches are in the order of their ids, and the
/// slots of its batches and one more failure of each pending one can be counted.
pub proof fn law_sound_chains<B>(s: ChainView<B>)
    ensures
        s.wf() <==> {
            &&& s.pending.dom().finite()
            &&& forall|i: int, j: int|
                0 <= i <= j < s.completed.len() ==> s.completed[i].id <= s.completed[j].id
            &&& forall|id: RequestId| #[trigger]
                s.pending.contains_key(id) ==> s.pending[id].id * 50 <= u64::MAX
                    && s.pending[id].retries < 255
            &&& forall|i: int|
                0 <= i < s.completed.len() ==> (#[trigger] s.completed[i]).id * 50 <= u64::MAX
            &&& s.target_head_slot < u64::MAX
            &&& s.target_head_slot < s.start_slot + u64::MAX / 50 * 50
            &&& 1 <= s.to_be_downloaded
            &&& (s.to_be_downloaded - 1) * 50 <= u64::MAX
            &&& (s.to_be_processed - 1) * 50 <= u64::MAX
            &&& s.processing is Some ==> s.to_be_processed * 50 <= u64::MAX
            &&& s.last_processed * 50 <= u64::MAX
        },
{
}

/// The slots of the batches of a chain can be counted unless its target head is the last slot there
/// is, or so far from its start that the ids run out. A chain whose batches can be counted is sound
/// when it is set up.
pub proof fn law_chains_that_can_be_counted<B>(
    start_slot: nat,
    target_head_slot: nat,
    target_head_root: Hash256,
    peer: Seq<u8>,
)
    ensures
        ({
            let s = ChainView::<B>::fresh(start_slot, target_head_slot, target_head_root, peer);
            let countable = target_head_slot < u64::MAX && target_head_slot < start_slot + u64::MAX
                / 50 * 50;
            &&& s.is_countable() <==> countable
            &&& s.wf() <==> countable
        }),
{
}

/// A reply can be taken for every batch whose slots and next failure can be counted.
pub proof fn law_replies_are_taken_for_countable_batches<B>(batch: BatchView<B>)
    ensures
        is_admissible(batch) <==> batch.id * 50 <= u64::MAX && batch.retries < 255,
{
}

/// The reply to an answerable action can be taken.
pub proof fn law_answerable_actions_have_countable_batches<B>(action: ActionView<B>)
    ensures
        action.is_answerable() <==> (action matches ActionView::SendRequest { batch, .. }
            ==> batch.id * 50 <= u64::MAX && batch.retries < 255),
{
}

/// The network's reply decides whether a batch is pending: under the id that it gives, beside all
/// that was pending before, or not at all. Nothing else changes.
pub proof fn law_reply_decides_what_is_pending<B>(
    s: ChainView<B>,
    reply: Option<RequestId>,
    batch: BatchView<B>,
    other: RequestId,
)
    ensures
        ({
            let post = s.replied(reply, batch);
            &&& reply matches Some(id) ==> post.pending.contains_key(id) && post.pending[id]
                == batch
            &&& reply != Some(other) ==> (post.pending.contains_key(other)
                <==> s.pending.contains_key(other))
            &&& reply != Some(other) && s.pending.contains_key(other) ==> post.pending[other]
                == s.pending[other]
            &&& post == (ChainView { pending: post.pending, ..s })
        }),
{
}

/// A block goes to the end of the batch that it was requested for. No other batch, and nothing else
/// of that one, changes.
pub proof fn law_block_goes_to_its_batch<B>(
    s: ChainView<B>,
    id: RequestId,
    block: BeaconBlock<B>,
    other: RequestId,
)
    requires
        s.pending.contains_key(id),
    ensures
        ({
            let post = s.with_block(id, block);
            let before = s.pending[id];
            let after = post.pending[id];
            &&& post.pending.contains_key(other) <==> s.pending.contains_key(other)
            &&& other != id && s.pending.contains_key(other) ==> post.pending[other]
                == s.pending[other]
            &&& after.downloaded_blocks.len() == before.downloaded_blocks.len() + 1
            &&& after.downloaded_blocks.drop_last() == before.downloaded_blocks
            &&& after.downloaded_blocks.last() == block
            &&& after == (BatchView { downloaded_blocks: after.downloaded_blocks, ..before })
            &&& post == (ChainView { pending: post.pending, ..s })
        }),
{
    let post = s.with_block(id, block);
    assert(post.pending[id].downloaded_blocks.drop_last() =~= s.pending[id].downloaded_blocks);
}

/// A request whose response ended or failed is no longer pending. All others are.
pub proof fn law_ended_request_is_not_pending<B>(s: ChainView<B>, id: RequestId, other: RequestId)
    ensures
        ({
            let post = s.without_pending(id);
            &&& !post.pending.contains_key(id)
            &&& other != id ==> (post.pending.contains_key(other) <==> s.pending.contains_key(
                other,
            ))
            &&& other != id && s.pending.contains_key(other) ==> post.pending[other]
                == s.pending[other]
            &&& post == (ChainView { pending: post.pending, ..s })
        }),
{
}

/// An added peer is in the pool, beside those that were there. Nothing else changes.
pub proof fn law_added_peer_is_in_the_pool<B>(s: ChainView<B>, peer: Seq<u8>, other: Seq<u8>)
    ensures
        ({
            let post = s.with_peer(peer);
            &&& post.peers.contains(peer)
            &&& other != peer ==> (post.peers.contains(other) <==> s.peers.contains(other))
            &&& post == (ChainView { peers: post.peers, ..s })
        }),
{
}

/// Stopping a chain does no more than that.
pub proof fn law_stopping_only_stops<B>(s: ChainView<B>)
    ensures
        s.stopped().state is Stopped,
        s.stopped() == (ChainView { state: s.stopped().state, ..s }),
{
}

/// A chain whose batch could not be processed has no peers and no longer awaits a result. Its
/// batches stay.
pub proof fn law_invalid_batch_empties_the_pool<B>(s: ChainView<B>, peer: Seq<u8>)
    ensures
        ({
            let post = s.abandoned();
            &&& !post.peers.contains(peer)
            &&& post.processing is None
            &&& post == (ChainView { peers: post.peers, processing: post.processing, ..s })
        }),
{
}

// ---- Requesting batches ----

/// A batch is wanted if and only if no more than `BATCH_BUFFER_SIZE` batches are completed or
/// pending, and the first slot of the next one is not beyond the target head.
pub proof fn law_batch_is_wanted_within_buffer_and_target<B>(s: ChainView<B>)
    requires
        s.wf(),
    ensures
        s.wants_batch() <==> {
            &&& s.completed.len() + s.pending.len() <= BATCH_BUFFER_SIZE
            &&& s.start_slot + (s.to_be_downloaded - 1) * 50 <= s.target_head_slot
        },
{
}

/// The next batch has the next id and the fifty slots that it stands for, cut off after the target
/// head. It is assigned to the given peer, and nothing has been downloaded of it.
pub proof fn law_next_batch_has_the_next_slots<B>(s: ChainView<B>, peer: Seq<u8>)
    requires
        s.wf(),
        s.start_slot + (s.to_be_downloaded - 1) * 50 <= s.target_head_slot,
    ensures
        ({
            let batch = s.next_batch(peer);
            &&& batch.id == s.to_be_downloaded
            &&& batch.start_slot == s.start_slot + (batch.id - 1) * 50
            &&& batch.end_slot <= batch.start_slot + 50
            &&& batch.end_slot <= s.target_head_slot + 1
            &&& batch.end_slot == batch.start_slot + 50 || batch.end_slot == s.target_head_slot + 1
            &&& batch.head_root == s.target_head_root
            &&& batch.current_peer == peer
            &&& batch.retries == 0
            &&& batch.downloaded_blocks.len() == 0
        }),
{
}

/// Once a batch is handed out, the next one has the least id that is larger than that of this batch
/// and than those of all completed ones. Nothing else changes.
pub proof fn law_handing_out_moves_on<B>(s: ChainView<B>, i: int)
    requires
        s.wf(),
    ensures
        ({
            let next = s.handed_out().to_be_downloaded;
            &&& next > s.to_be_downloaded
            &&& 0 <= i < s.completed.len() ==> next > s.completed[i].id
            &&& next == s.to_be_downloaded + 1 || (s.completed.len() > 0 && next
                == s.completed.last().id + 1)
            &&& s.handed_out() == (ChainView { to_be_downloaded: next, ..s })
        }),
{
}

/// Every request is for the next batch, comes from a syncing chain with room in its buffer, goes to
/// a peer of the pool that has nothing pending, and moves the chain on, past the completed batches.
pub proof fn law_request_is_for_the_next_batch<B>(
    s: ChainView<B>,
    then: Followup,
    post: ChainView<B>,
    action: ActionView<B>,
)
    requires
        s.wf(),
        s.resumes_to(then, post, action),
        action is SendRequest,
    ensures
        ({
            let batch = action->SendRequest_batch;
            let request = action->SendRequest_request;
            &&& s.state is Syncing
            &&& s.completed.len() + s.pending.len() <= BATCH_BUFFER_SIZE
            &&& s.peers.contains(batch.current_peer)
            &&& forall|id: RequestId| #[trigger]
                s.pending.contains_key(id) ==> s.pending[id].current_peer != batch.current_peer
            &&& batch.id == s.to_be_downloaded
            &&& batch.start_slot == s.start_slot + (batch.id - 1) * 50
            &&& batch.start_slot <= s.target_head_slot
            &&& batch.end_slot <= batch.start_slot + 50
            &&& batch.end_slot <= s.target_head_slot + 1
            &&& batch.end_slot == batch.start_slot + 50 || batch.end_slot == s.target_head_slot + 1
            &&& batch.head_root == s.target_head_root
            &&& batch.retries == 0
            &&& batch.downloaded_blocks.len() == 0
            &&& request.head_block_root == s.target_head_root
            &&& request.start_slot == batch.start_slot
            &&& request.count == batch.end_slot - batch.start_slot
            &&& request.step == 1
            &&& action->SendRequest_then == then
            &&& then !is Nothing
            &&& post.to_be_downloaded > batch.id
            &&& forall|i: int|
                0 <= i < s.completed.len() ==> post.to_be_downloaded > (
                #[trigger] s.completed[i]).id
            &&& post.to_be_downloaded == batch.id + 1 || (s.completed.len() > 0
                && post.to_be_downloaded == s.completed.last().id + 1)
            &&& post == (ChainView { to_be_downloaded: post.to_be_downloaded, ..s })
        }),
{
}

/// A syncing chain that is to request batches does so whenever a peer of its pool has nothing
/// pending, the buffer has room, and there are slots left up to the target head.
pub proof fn law_idle_peer_is_put_to_work<B>(
    s: ChainView<B>,
    then: Followup,
    post: ChainView<B>,
    action: ActionView<B>,
    peer: Seq<u8>,
)
    requires
        s.wf(),
        s.resumes_to(then, post, action),
        then !is Nothing,
        s.state is Syncing,
        s.peers.contains(peer),
        forall|id: RequestId| #[trigger]
            s.pending.contains_key(id) ==> s.pending[id].current_peer != peer,
        s.completed.len() + s.pending.len() <= BATCH_BUFFER_SIZE,
        s.start_slot + (s.to_be_downloaded - 1) * 50 <= s.target_head_slot,
    ensures
        action is SendRequest,
{
    assert(s.is_available(peer));
}

/// Where nothing is left to do, nothing is done; and where batches are only to be requested and none
/// is, nothing changes.
pub proof fn law_nothing_is_done_unasked<B>(
    s: ChainView<B>,
    then: Followup,
    post: ChainView<B>,
    action: ActionView<B>,
)
    requires
        s.resumes_to(then, post, action),
    ensures
        then is Nothing ==> action is Done && post == s,
        then is RequestBatches && action !is SendRequest ==> action is Done && post == s,
        action !is DownvotePeers,
{
}

// ---- Processing batches ----

/// The completed batches that are next in line count as processed as long as they are empty. The
/// next one in line after them, if it is there, is the one to process.
proof fn lemma_line<B>(s: ChainView<B>)
    requires
        s.may_process(),
    ensures
        ({
            let t = s.settled();
            let n = t.to_be_processed - s.to_be_processed;
            &&& 0 <= n <= s.completed.len()
            &&& forall|i: int|
                0 <= i < n ==> (#[trigger] s.completed[i]).id == s.to_be_processed + i
                    && s.completed[i].downloaded_blocks.len() == 0
            &&& t == (ChainView {
                completed: s.completed.skip(n),
                processed: s.processed + s.completed.take(n),
                to_be_processed: (s.to_be_processed + n) as nat,
                ..s
            })
            &&& s.has_batch_to_process() <==> n < s.completed.len() && s.completed[n].id
                == s.to_be_processed + n
            &&& s.has_batch_to_process() ==> s.batch_to_process() == s.completed[n]
                && s.completed[n].downloaded_blocks.len() > 0
            &&& forall|id: u64|
                s.has_batch_to_process() ==> (#[trigger] s.handed_over(id)).completed
                    == s.completed.skip(n + 1)
        }),
{
    lemma_empty_run(s.completed, s.to_be_processed);
    let n = empty_run(s.completed, s.to_be_processed) as int;
    if n < s.completed.len() {
        assert(s.settled().completed[0] == s.completed[n]);
        assert(s.completed.skip(n).skip(1) =~= s.completed.skip(n + 1));
    }
}

/// Once nothing more is requested, the batches are taken in line: those that are empty count as
/// processed, one for each id, and the first one with blocks is handed to the processor. The line
/// ends where the batch with the next id is missing.
pub proof fn law_batches_are_taken_in_line<B>(
    s: ChainView<B>,
    post: ChainView<B>,
    action: ActionView<B>,
)
    requires
        s.resumes_to(Followup::RequestThenProcess, post, action),
        action !is SendRequest,
        s.state is Syncing,
        s.processing is None,
    ensures
        ({
            let n = post.to_be_processed - s.to_be_processed;
            &&& 0 <= n <= s.completed.len()
            &&& forall|i: int|
                0 <= i < n ==> (#[trigger] s.completed[i]).id == s.to_be_processed + i
                    && s.completed[i].downloaded_blocks.len() == 0
            &&& post.processed == s.processed + s.completed.take(n)
            &&& action is ProcessBatch <==> n < s.completed.len() && s.completed[n].id
                == s.to_be_processed + n
            &&& action is ProcessBatch ==> {
                &&& action->ProcessBatch_batch == s.completed[n]
                &&& s.completed[n].downloaded_blocks.len() > 0
                &&& action->ProcessBatch_then is Nothing
                &&& post.completed == s.completed.skip(n + 1)
                &&& post.processing == Some(action->ProcessBatch_processing_id)
            }
            &&& action !is ProcessBatch ==> {
                &&& action is Done
                &&& post.completed == s.completed.skip(n)
                &&& post.processing is None
            }
            &&& post == (ChainView {
                completed: post.completed,
                processed: post.processed,
                to_be_processed: post.to_be_processed,
                processing: post.processing,
                ..s
            })
        }),
{
    lemma_line(s);
}

/// A chain that is stopped, or that awaits the result of a batch, does nothing more once nothing is
/// requested.
pub proof fn law_nothing_is_processed_when_stopped_or_busy<B>(
    s: ChainView<B>,
    then: Followup,
    post: ChainView<B>,
    action: ActionView<B>,
)
    requires
        s.resumes_to(then, post, action),
        s.state is Stopped || s.processing is Some,
        action !is SendRequest,
    ensures
        action is Done,
        post == s,
{
}

/// A batch that was processed successfully is the last one processed, whatever blocks it came with,
/// and the next in line is the one after the current one. The batches before it are validated and
/// dropped; it is kept among those in doubt if it came with fewer than fifty blocks. The chain is
/// removed if and only if the end of the batch reaches the target head; else more batches are
/// requested, then processed.
pub proof fn law_success_makes_a_batch_the_last_processed<B>(
    s: ChainView<B>,
    batch: BatchView<B>,
    outcome: ProcessingResult,
    post: ChainView<B>,
    action: ActionView<B>,
)
    requires
        s.target_head_slot <= u64::MAX,
        s.succeeds_to(batch, outcome, post, action),
    ensures
        post.last_processed == batch.id,
        outcome is RemoveChain <==> s.start_slot + batch.id * 50 >= s.target_head_slot,
        ({
            let in_doubt = s.processed.filter(|b: BatchView<B>| b.id >= batch.id);
            let t = ChainView {
                processing: None::<u64>,
                to_be_processed: s.to_be_processed + 1,
                last_processed: batch.id,
                processed: if batch.downloaded_blocks.len() < 50 {
                    in_doubt.push(batch)
                } else {
                    in_doubt
                },
                ..s
            };
            &&& outcome is RemoveChain ==> action is Done && post == t
            &&& outcome is KeepChain ==> t.resumes_to(Followup::RequestThenProcess, post, action)
        }),
{
    let t = s.succeeded(batch);
    assert(t.processed =~= if batch.downloaded_blocks.len() < 50 {
        s.processed.filter(|b: BatchView<B>| b.id >= batch.id).push(batch)
    } else {
        s.processed.filter(|b: BatchView<B>| b.id >= batch.id)
    });
}

// ---- Responses and failures ----

/// A response whose first block is not before the start of the batch and whose last block is not
/// beyond its end, or that has no blocks, is never answered with a downvote: the batch joins the
/// completed ones in the order of their ids, more batches are requested, then some processed.
pub proof fn law_response_in_range_is_kept<B>(
    s: ChainView<B>,
    batch: BatchView<B>,
    post: ChainView<B>,
    action: ActionView<B>,
) -> (index: int)
    requires
        s.completes_to(batch, post, action),
        batch.downloaded_blocks.len() > 0 ==> batch.start_slot
            <= batch.downloaded_blocks[0].slot.0,
        batch.downloaded_blocks.len() > 0 ==> batch.downloaded_blocks[batch.downloaded_blocks.len()
            - 1].slot.0 <= batch.end_slot,
    ensures
        action !is DownvotePeers,
        0 <= index <= s.completed.len(),
        forall|i: int| 0 <= i < index ==> (#[trigger] s.completed[i]).id <= batch.id,
        forall|i: int|
            index <= i < s.completed.len() ==> batch.id <= (#[trigger] s.completed[i]).id,
        (ChainView { completed: s.completed.insert(index, batch), ..s }).resumes_to(
            Followup::RequestThenProcess,
            post,
            action,
        ),
{
    choose|index: int| #[trigger]
        is_insertion_point(s.completed, batch.id, index) && s.with_completed(
            batch,
            index,
        ).resumes_to(Followup::RequestThenProcess, post, action)
}

/// A response all of whose blocks belong to its batch never costs a vote, however many blocks it has,
/// and the batch is not lost: it is among the completed ones, or handed to the processor or, if it
/// is empty, among the processed ones.
pub proof fn law_honest_response_is_kept<B>(
    s: ChainView<B>,
    id: RequestId,
    post: ChainView<B>,
    action: ActionView<B>,
)
    requires
        s.pending.contains_key(id),
        s.without_pending(id).completes_to(s.pending[id], post, action),
        forall|i: int|
            0 <= i < s.pending[id].downloaded_blocks.len() ==> s.pending[id].start_slot <= (
            #[trigger] s.pending[id].downloaded_blocks[i]).slot.0 < s.pending[id].end_slot,
    ensures
        action !is DownvotePeers,
        ({
            ||| post.completed.contains(s.pending[id])
            ||| action is ProcessBatch && action->ProcessBatch_batch == s.pending[id]
            ||| s.pending[id].downloaded_blocks.len() == 0 && post.processed.contains(s.pending[id])
        }),
{
    law_blocks_of_the_batch_are_in_range(s.pending[id]);
    law_completed_batch_is_kept(s, id, post, action);
}

/// A response whose first block is before the start of the batch, or whose last block is beyond its
/// end, costs the peer that sent it a vote, and nobody else. The batch is dropped, and it is the next
/// one to be processed again.
pub proof fn law_response_out_of_range_costs_a_vote<B>(
    s: ChainView<B>,
    batch: BatchView<B>,
    post: ChainView<B>,
    action: ActionView<B>,
)
    requires
        s.completes_to(batch, post, action),
        batch.downloaded_blocks.len() > 0,
        batch.downloaded_blocks[0].slot.0 < batch.start_slot
            || batch.downloaded_blocks[batch.downloaded_blocks.len() - 1].slot.0 > batch.end_slot,
    ensures
        action is DownvotePeers,
        action->DownvotePeers_0.len() == 1,
        action->DownvotePeers_0[0] == batch.current_peer,
        post == (ChainView { to_be_processed: batch.id, ..s }),
{
}

/// A batch that failed is requested again, for the same slots and with what it holds, as long as it
/// has not failed five times before; else the chain is removed.
pub proof fn law_failed_batch_is_requested_again<B>(
    s: ChainView<B>,
    batch: BatchView<B>,
    outcome: ProcessingResult,
    action: ActionView<B>,
)
    requires
        s.fails_to(batch, outcome, action),
    ensures
        outcome is RemoveChain <==> batch.retries >= 5,
        outcome is RemoveChain ==> action is Done,
        outcome is KeepChain ==> {
            let again = action->SendRequest_batch;
            let request = action->SendRequest_request;
            &&& action is SendRequest
            &&& again.retries == batch.retries + 1
            &&& again == (BatchView {
                retries: again.retries,
                current_peer: again.current_peer,
                ..batch
            })
            &&& request.head_block_root == batch.head_root
            &&& request.start_slot == batch.start_slot
            &&& request.step == 1
            &&& batch.end_slot <= batch.start_slot ==> request.count == 0
            &&& batch.start_slot <= batch.end_slot <= batch.start_slot + 50 ==> request.count
                == batch.end_slot - batch.start_slot
            &&& batch.start_slot + 50 <= batch.end_slot ==> request.count == 50
            &&& action->SendRequest_then is Nothing
        },
{
}

/// Where the pool holds a peer other than the one that a batch failed with, busy or not, the batch
/// is requested again from a member of the pool other than that one.
pub proof fn law_failed_batch_goes_to_another_peer<B>(
    s: ChainView<B>,
    batch: BatchView<B>,
    outcome: ProcessingResult,
    action: ActionView<B>,
    other: Seq<u8>,
)
    requires
        s.fails_to(batch, outcome, action),
        action is SendRequest,
        s.peers.contains(other),
        other != batch.current_peer,
    ensures
        s.peers.contains(action->SendRequest_batch.current_peer),
        action->SendRequest_batch.current_peer != batch.current_peer,
{
}

/// Where the pool holds no other peer, a batch that failed stays with its peer.
pub proof fn law_failed_batch_stays_with_the_only_peer<B>(
    s: ChainView<B>,
    batch: BatchView<B>,
    outcome: ProcessingResult,
    action: ActionView<B>,
)
    requires
        s.fails_to(batch, outcome, action),
        action is SendRequest,
        forall|peer: Seq<u8>| #[trigger] s.peers.contains(peer) ==> peer == batch.current_peer,
    ensures
        action->SendRequest_batch.current_peer == batch.current_peer,
{
}

// ---- Starting ----

/// A chain that is started syncs. Where the local finalized slot is beyond the slots of the last
/// batch that was processed, it becomes the start of the chain, the batches are counted from one
/// again, and the completed and processed ones are dropped; else they all stay.
pub proof fn law_start_resets_an_overtaken_chain<B>(s: ChainView<B>, local_finalized_slot: nat)
    requires
        local_finalized_slot <= u64::MAX,
    ensures
        ({
            let t = s.started(local_finalized_slot);
            &&& t.state is Syncing
            &&& local_finalized_slot > s.start_slot + s.last_processed * 50 ==> {
                &&& t.start_slot == local_finalized_slot
                &&& t.to_be_downloaded == 1
                &&& t.to_be_processed == 1
                &&& t.last_processed == 0
                &&& t.completed.len() == 0
                &&& t.processed.len() == 0
            }
            &&& local_finalized_slot <= s.start_slot + s.last_processed * 50 ==> t == (ChainView {
                state: t.state,
                ..s
            })
            &&& t.target_head_slot == s.target_head_slot
            &&& t.target_head_root == s.target_head_root
            &&& t.pending == s.pending
            &&& t.peers == s.peers
            &&& t.processing == s.processing
        }),
{
}

/// Starting a chain first takes its batches in line, unless one is being processed: those that are
/// empty count as processed, and the first one with blocks is handed to the processor, after which
/// batches are requested. If there is none, batches are requested right away.
pub proof fn law_start_processes_then_requests<B>(
    s: ChainView<B>,
    local_finalized_slot: nat,
    post: ChainView<B>,
    action: ActionView<B>,
)
    requires
        s.starts_to(local_finalized_slot, post, action),
    ensures
        ({
            let t = s.started(local_finalized_slot);
            let n = post.to_be_processed - t.to_be_processed;
            let u = ChainView {
                completed: t.completed.skip(n),
                processed: t.processed + t.completed.take(n),
                to_be_processed: (t.to_be_processed + n) as nat,
                ..t
            };
            &&& 0 <= n <= t.completed.len()
            &&& forall|i: int|
                0 <= i < n ==> (#[trigger] t.completed[i]).id == t.to_be_processed + i
                    && t.completed[i].downloaded_blocks.len() == 0
            &&& s.processing is Some ==> n == 0
            &&& action is ProcessBatch <==> s.processing is None && n < t.completed.len()
                && t.completed[n].id == t.to_be_processed + n
            &&& action is ProcessBatch ==> {
                &&& action->ProcessBatch_batch == t.completed[n]
                &&& t.completed[n].downloaded_blocks.len() > 0
                &&& action->ProcessBatch_then is RequestBatches
                &&& post == (ChainView {
                    completed: t.completed.skip(n + 1),
                    processing: Some(action->ProcessBatch_processing_id),
                    ..u
                })
            }
            &&& action !is ProcessBatch ==> u.resumes_to(Followup::RequestBatches, post, action)
        }),
{
    let t = s.started(local_finalized_slot);
    if t.may_process() {
        lemma_line(t);
    } else {
        assert(t.completed.skip(0) =~= t.completed);
        assert(t.processed + t.completed.take(0) =~= t.processed);
    }
}

/// If starting a chain neither hands a batch to the processor nor requests one, then every peer of
/// the pool has something pending, or more than `BATCH_BUFFER_SIZE` batches are completed or pending,
/// or the next batch would start beyond the target head.
pub proof fn law_start_exhausts_the_peers<B>(
    s: ChainView<B>,
    local_finalized_slot: nat,
    post: ChainView<B>,
    action: ActionView<B>,
    peer: Seq<u8>,
)
    requires
        post.wf(),
        s.starts_to(local_finalized_slot, post, action),
        action !is ProcessBatch,
        action !is SendRequest,
        s.peers.contains(peer),
    ensures
        action is Done,
        ({
            ||| exists|id: RequestId| #[trigger]
                s.pending.contains_key(id) && s.pending[id].current_peer == peer
            ||| post.completed.len() + post.pending.len() > BATCH_BUFFER_SIZE
            ||| post.start_slot + (post.to_be_downloaded - 1) * 50 > post.target_head_slot
        }),
{
    law_start_processes_then_requests(s, local_finalized_slot, post, action);
    if forall|id: RequestId| #[trigger]
        s.pending.contains_key(id) ==> s.pending[id].current_peer != peer {
        assert(post.is_available(peer));
    }
}

} // verus!
