use range_sync::batch::{Batch, BatchId};
use range_sync::chain::{
    Action, BatchProcessResult, ChainSyncingState, Followup, ProcessingResult, SyncingChain,
};
use range_sync::types::{BeaconBlock, Hash256, PeerId, RequestId, Slot};

fn peer(n: u8) -> PeerId {
    PeerId::from_bytes(vec![n])
}

fn block(slot: u64) -> BeaconBlock<u64> {
    BeaconBlock { slot: Slot(slot), body: slot * 10 }
}

/// A chain with the peers 1 to `peers`, which has not been started.
fn chain(start: u64, target: u64, peers: u8) -> SyncingChain<u64> {
    let mut c = SyncingChain::new(Slot(start), Slot(target), Hash256([7; 32]), peer(1));
    for n in 2..peers + 1 {
        assert!(matches!(c.add_peer(peer(n)), Action::Done));
    }
    c
}

/// What a chain has asked for.
struct Log {
    next_id: RequestId,
    /// Whether the network takes requests.
    online: bool,
    /// The requests: id, batch id, start slot, end slot, count and peer.
    requests: Vec<(RequestId, u64, u64, u64, u64, PeerId)>,
    /// The batches handed to the processor.
    processing: Vec<(u64, Batch<u64>)>,
    downvoted: Vec<PeerId>,
}

fn log() -> Log {
    Log { next_id: 1, online: true, requests: vec![], processing: vec![], downvoted: vec![] }
}

/// Carries out an action and those that follow.
fn run(c: &mut SyncingChain<u64>, log: &mut Log, mut action: Action<u64>) {
    loop {
        action = match action {
            Action::Done => return,
            Action::SendRequest { request, batch, then } => {
                assert_eq!(request.head_block_root, Hash256([7; 32]));
                assert_eq!(request.step, 1);
                assert_eq!(request.start_slot, batch.start_slot.0);
                let id = log.next_id;
                log.next_id += 1;
                log.requests.push((
                    id,
                    batch.id.0,
                    batch.start_slot.0,
                    batch.end_slot.0,
                    request.count,
                    batch.current_peer.clone(),
                ));
                let reply = if log.online { Some(id) } else { None };
                c.on_request_reply(reply, batch, then)
            }
            Action::ProcessBatch { processing_id, batch, then } => {
                log.processing.push((processing_id, batch));
                c.resume(then)
            }
            Action::DownvotePeers(peers) => {
                log.downvoted.extend(peers);
                return;
            }
        }
    }
}

fn started(start: u64, target: u64, peers: u8) -> (SyncingChain<u64>, Log) {
    let mut c = chain(start, target, peers);
    let mut l = log();
    let action = c.start_syncing(Slot(start));
    run(&mut c, &mut l, action);
    (c, l)
}

/// Ends the response to a request after the given blocks.
fn respond(c: &mut SyncingChain<u64>, l: &mut Log, id: RequestId, slots: &[u64]) {
    for slot in slots {
        let action = c.on_block_response(id, &Some(block(*slot))).unwrap();
        assert!(matches!(action, Action::Done));
    }
    let action = c.on_block_response(id, &None).unwrap();
    run(c, l, action);
}

/// Reports the result of the batch that was last handed to the processor.
fn report(
    c: &mut SyncingChain<u64>,
    l: &mut Log,
    result: BatchProcessResult,
) -> ProcessingResult {
    let (id, batch) = l.processing.pop().unwrap();
    let mut batch = Some(batch);
    let (outcome, action) = c.on_batch_process_result(id, &mut batch, &result).unwrap();
    assert!(batch.is_none());
    run(c, l, action);
    outcome
}

fn batch(id: u64, retries: u8, n: u8) -> Batch<u64> {
    let mut b = Batch::new(BatchId(id), Slot(0), Slot(50), Hash256([7; 32]), peer(n));
    b.retries = retries;
    b
}

#[test]
fn new_chain_is_stopped() {
    let mut c = chain(0, 100, 1);
    assert_eq!(c.state, ChainSyncingState::Stopped);
    assert_eq!(c.pending_batches.len(), 0);
    assert_eq!(c.peer_pool.len(), 1);
    assert!(matches!(c.resume(Followup::RequestThenProcess), Action::Done));
    assert!(matches!(c.add_peer(peer(2)), Action::Done));
}

#[test]
fn first_batch_is_requested_on_start() {
    let (c, l) = started(0, 120, 1);
    assert_eq!(c.state, ChainSyncingState::Syncing);
    assert_eq!(l.requests, vec![(1, 1, 0, 50, 50, peer(1))]);
    assert_eq!(c.pending_batches.len(), 1);
}

#[test]
fn batches_cover_the_chain_up_to_its_target() {
    let (_, l) = started(1000, 1120, 5);
    let ranges: Vec<(u64, u64, u64, u64)> =
        l.requests.iter().map(|r| (r.1, r.2, r.3, r.4)).collect();
    assert_eq!(
        ranges,
        vec![(1, 1000, 1050, 50), (2, 1050, 1100, 50), (3, 1100, 1121, 21)]
    );
}

#[test]
fn target_at_the_start_of_a_batch_is_requested() {
    let (_, l) = started(0, 100, 5);
    assert_eq!(l.requests.len(), 3);
    assert_eq!((l.requests[2].2, l.requests[2].3, l.requests[2].4), (100, 101, 1));
}

#[test]
fn nothing_is_requested_beyond_the_target() {
    let (_, l) = started(101, 100, 3);
    assert!(l.requests.is_empty());
}

#[test]
fn slots_at_the_end_of_time_are_not_requested() {
    let (_, l) = started(u64::MAX, 1_000, 3);
    assert!(l.requests.is_empty());
    let target = u64::MAX / 50 * 50 - 1;
    let (_, l) = started(target - 1, target, 3);
    assert_eq!(l.requests.len(), 1);
    assert_eq!((l.requests[0].2, l.requests[0].3), (target - 1, target + 1));
}

#[test]
fn short_chain_at_the_end_of_time_is_synced() {
    let (start, target) = (u64::MAX - 60, u64::MAX - 5);
    let (mut c, mut l) = started(start, target, 2);
    let ranges: Vec<(u64, u64, u64)> = l.requests.iter().map(|r| (r.2, r.3, r.4)).collect();
    assert_eq!(ranges, vec![(start, start + 50, 50), (start + 50, target + 1, 6)]);
    respond(&mut c, &mut l, 1, &[start]);
    assert_eq!(report(&mut c, &mut l, BatchProcessResult::Success), ProcessingResult::KeepChain);
    respond(&mut c, &mut l, 2, &[target]);
    assert_eq!(report(&mut c, &mut l, BatchProcessResult::Success), ProcessingResult::RemoveChain);
}

#[test]
fn requests_respect_the_buffer() {
    let (c, l) = started(0, 10_000, 10);
    assert_eq!(l.requests.len(), 6);
    assert_eq!(c.pending_batches.len(), 6);
}

#[test]
fn requests_go_to_different_peers() {
    let (_, l) = started(0, 10_000, 4);
    assert_eq!(l.requests.len(), 4);
    for i in 0..4 {
        for j in 0..i {
            assert!(l.requests[i].5 != l.requests[j].5);
        }
    }
}

#[test]
fn requests_come_to_an_end_when_the_network_takes_none() {
    let mut c = chain(0, 120, 1);
    let mut l = log();
    l.online = false;
    let action = c.start_syncing(Slot(0));
    run(&mut c, &mut l, action);
    let ids: Vec<u64> = l.requests.iter().map(|r| r.1).collect();
    assert_eq!(ids, vec![1, 2, 3]);
    assert_eq!(c.pending_batches.len(), 0);
}

#[test]
fn peers_are_chosen_at_random() {
    let mut chosen: Vec<PeerId> = vec![];
    for _ in 0..200 {
        let (_, l) = started(0, 10, 20);
        assert_eq!(l.requests.len(), 1);
        if !chosen.contains(&l.requests[0].5) {
            chosen.push(l.requests[0].5.clone());
        }
    }
    assert!(chosen.len() > 1);
}

#[test]
fn processing_ids_are_random() {
    let mut ids: Vec<u64> = vec![];
    for _ in 0..3 {
        let (mut c, mut l) = started(0, 10, 1);
        respond(&mut c, &mut l, 1, &[4]);
        ids.push(l.processing[0].0);
    }
    assert!(ids[0] != ids[1] || ids[1] != ids[2]);
}

#[test]
fn first_idle_peer_keeps_the_order() {
    let (c, l) = started(0, 40, 3);
    let busy = l.requests[0].5.clone();
    let idle: Vec<PeerId> = (1..4).map(peer).filter(|p| *p != busy).collect();
    assert_eq!(c.first_idle_peer(&vec![&busy, &idle[1], &idle[0]]), Some(idle[1].clone()));
    assert_eq!(c.first_idle_peer(&vec![&idle[0], &busy, &idle[1]]), Some(idle[0].clone()));
    assert_eq!(c.first_idle_peer(&vec![&busy]), None);
    assert_eq!(c.first_idle_peer(&vec![]), None);
}

#[test]
fn next_batches_count_up() {
    let mut c = chain(0, 70, 1);
    let b = c.get_next_batch(peer(9)).unwrap();
    assert_eq!((b.id, b.start_slot, b.end_slot), (BatchId(1), Slot(0), Slot(50)));
    assert_eq!(b.current_peer, peer(9));
    let b = c.get_next_batch(peer(8)).unwrap();
    assert_eq!((b.id, b.start_slot, b.end_slot), (BatchId(2), Slot(50), Slot(71)));
    assert!(c.get_next_batch(peer(8)).is_none());
}

#[test]
fn processing_starts_under_the_given_id() {
    let (mut c, mut l) = started(0, 120, 1);
    match c.begin_processing(77, batch(1, 0, 1), Followup::RequestBatches) {
        Action::ProcessBatch { processing_id, batch, then } => {
            assert_eq!(processing_id, 77);
            assert_eq!(batch.id, BatchId(1));
            assert_eq!(then, Followup::RequestBatches);
            l.processing.push((77, batch));
        }
        _ => panic!(),
    }
    assert_eq!(report(&mut c, &mut l, BatchProcessResult::Success), ProcessingResult::KeepChain);
}

#[test]
fn responses_to_unknown_requests_are_ignored() {
    let (mut c, _) = started(0, 120, 1);
    assert!(c.on_block_response(9, &Some(block(3))).is_none());
    assert!(c.on_block_response(9, &None).is_none());
    assert_eq!(c.pending_batches.len(), 1);
}

#[test]
fn download_collects_the_blocks_in_order() {
    let (mut c, mut l) = started(0, 120, 1);
    respond(&mut c, &mut l, 1, &[0, 17, 49]);
    let (_, b) = &l.processing[0];
    assert_eq!(b.id, BatchId(1));
    let blocks: Vec<(u64, u64)> = b.downloaded_blocks.iter().map(|x| (x.slot.0, x.body)).collect();
    assert_eq!(blocks, vec![(0, 0), (17, 170), (49, 490)]);
    // the peer has been asked for the next batch meanwhile
    assert_eq!(l.requests.len(), 2);
    assert_eq!(l.requests[1].1, 2);
}

#[test]
fn blocks_out_of_range_cost_the_peer_a_vote() {
    let (mut c, mut l) = started(100, 220, 1);
    respond(&mut c, &mut l, 1, &[99, 120]);
    assert_eq!(l.downvoted, vec![peer(1)]);
    assert!(l.processing.is_empty());
    assert_eq!(l.requests.len(), 1);
    assert_eq!(c.peer_pool.len(), 1);

    let (mut c, mut l) = started(100, 220, 1);
    respond(&mut c, &mut l, 1, &[100, 151]);
    assert_eq!(l.downvoted, vec![peer(1)]);

    let (mut c, mut l) = started(100, 220, 1);
    respond(&mut c, &mut l, 1, &[100, 150]);
    assert!(l.downvoted.is_empty());
    assert_eq!(l.processing.len(), 1);
}

#[test]
fn batches_are_processed_in_order() {
    let (mut c, mut l) = started(0, 1_000, 2);
    respond(&mut c, &mut l, 2, &[60]);
    assert!(l.processing.is_empty());
    respond(&mut c, &mut l, 1, &[10]);
    assert_eq!(l.processing.len(), 1);
    assert_eq!(l.processing[0].1.id, BatchId(1));
    assert_eq!(report(&mut c, &mut l, BatchProcessResult::Success), ProcessingResult::KeepChain);
    assert_eq!(l.processing.len(), 1);
    assert_eq!(l.processing[0].1.id, BatchId(2));
}

#[test]
fn one_batch_is_processed_at_a_time() {
    let (mut c, mut l) = started(0, 1_000, 2);
    respond(&mut c, &mut l, 1, &[10]);
    respond(&mut c, &mut l, 2, &[60]);
    assert_eq!(l.processing.len(), 1);
    let action = c.start_syncing(Slot(0));
    run(&mut c, &mut l, action);
    assert_eq!(l.processing.len(), 1);
}

#[test]
fn empty_batches_count_as_processed() {
    let (mut c, mut l) = started(0, 1_000, 3);
    respond(&mut c, &mut l, 3, &[110]);
    respond(&mut c, &mut l, 2, &[]);
    assert!(l.processing.is_empty());
    respond(&mut c, &mut l, 1, &[]);
    assert_eq!(l.processing.len(), 1);
    assert_eq!(l.processing[0].1.id, BatchId(3));
}

#[test]
fn results_for_other_chains_are_ignored() {
    let (mut c, mut l) = started(0, 1_000, 1);
    respond(&mut c, &mut l, 1, &[10]);
    let id = l.processing[0].0;
    let mut b = Some(batch(1, 0, 1));
    assert!(c
        .on_batch_process_result(id.wrapping_add(1), &mut b, &BatchProcessResult::Success)
        .is_none());
    assert!(b.is_some());
    let mut taken = None;
    assert!(c.on_batch_process_result(id, &mut taken, &BatchProcessResult::Success).is_none());
    // the batch is still awaited
    assert_eq!(report(&mut c, &mut l, BatchProcessResult::Success), ProcessingResult::KeepChain);
    let mut b = Some(batch(1, 0, 1));
    assert!(c.on_batch_process_result(id, &mut b, &BatchProcessResult::Success).is_none());
}

#[test]
fn chain_is_removed_once_it_is_complete() {
    let (mut c, mut l) = started(0, 51, 1);
    respond(&mut c, &mut l, 1, &[10]);
    assert_eq!(report(&mut c, &mut l, BatchProcessResult::Success), ProcessingResult::KeepChain);
    respond(&mut c, &mut l, 2, &[51]);
    assert_eq!(report(&mut c, &mut l, BatchProcessResult::Success), ProcessingResult::RemoveChain);
}

#[test]
fn chain_is_removed_where_the_next_batch_would_start_with_the_target() {
    let (mut c, mut l) = started(0, 50, 1);
    respond(&mut c, &mut l, 1, &[10]);
    assert_eq!(report(&mut c, &mut l, BatchProcessResult::Success), ProcessingResult::RemoveChain);
}

#[test]
fn invalid_batch_fails_the_chain() {
    let (mut c, mut l) = started(0, 1_000, 3);
    respond(&mut c, &mut l, 1, &[10]);
    assert_eq!(report(&mut c, &mut l, BatchProcessResult::Failed), ProcessingResult::RemoveChain);
    assert_eq!(l.downvoted.len(), 3);
    for n in 1..4 {
        assert!(l.downvoted.contains(&peer(n)));
    }
    assert_eq!(c.peer_pool.len(), 0);
    let requests = l.requests.len();
    let action = c.resume(Followup::RequestBatches);
    run(&mut c, &mut l, action);
    assert_eq!(l.requests.len(), requests);
}

#[test]
fn failed_batch_moves_to_another_peer() {
    let (mut c, mut l) = started(0, 40, 2);
    let first = l.requests[0].5.clone();
    let (outcome, action) = c.inject_error(&first, 1).unwrap();
    assert_eq!(outcome, ProcessingResult::KeepChain);
    assert_eq!(c.pending_batches.len(), 0);
    run(&mut c, &mut l, action);
    assert_eq!(c.pending_batches.len(), 1);
    assert_eq!(l.requests.len(), 2);
    assert_eq!((l.requests[1].1, l.requests[1].2, l.requests[1].3), (1, 0, 41));
    assert!(l.requests[1].5 != first);
}

#[test]
fn failed_batch_stays_with_the_only_peer() {
    let (mut c, mut l) = started(0, 40, 1);
    let (_, action) = c.inject_error(&peer(1), 1).unwrap();
    run(&mut c, &mut l, action);
    assert_eq!(l.requests[1].5, peer(1));
}

#[test]
fn retries_are_limited() {
    let (mut c, mut l) = started(0, 40, 2);
    for id in 1..6 {
        let (outcome, action) = c.inject_error(&peer(1), id).unwrap();
        assert_eq!(outcome, ProcessingResult::KeepChain);
        run(&mut c, &mut l, action);
        assert_eq!(l.requests.len(), id + 1);
    }
    let (outcome, action) = c.inject_error(&peer(1), 6).unwrap();
    assert_eq!(outcome, ProcessingResult::RemoveChain);
    assert!(matches!(action, Action::Done));
    assert_eq!(c.pending_batches.len(), 0);
}

#[test]
fn errors_of_unknown_requests_are_ignored() {
    let (mut c, _) = started(0, 40, 1);
    assert!(c.inject_error(&peer(1), 2).is_none());
    assert_eq!(c.pending_batches.len(), 1);
}

#[test]
fn failures_are_counted() {
    let c = chain(0, 40, 2);
    match c.failed_batch(batch(1, 4, 1)) {
        (ProcessingResult::KeepChain, Action::SendRequest { batch, then, .. }) => {
            assert_eq!(batch.retries, 5);
            assert_eq!(batch.current_peer, peer(2));
            assert_eq!(then, Followup::Nothing);
        }
        _ => panic!(),
    }
    assert!(matches!(c.failed_batch(batch(1, 5, 1)), (ProcessingResult::RemoveChain, Action::Done)));
}

#[test]
fn no_batch_is_handed_out_twice() {
    let (mut c, mut l) = started(0, 100_000, 3);
    for round in 0..20 {
        let (id, _, start, _, _, _) = l.requests[round].clone();
        respond(&mut c, &mut l, id, &[start + 1]);
        if !l.processing.is_empty() {
            assert_eq!(
                report(&mut c, &mut l, BatchProcessResult::Success),
                ProcessingResult::KeepChain
            );
        }
        c.stop_syncing();
        let action = c.start_syncing(Slot(0));
        run(&mut c, &mut l, action);
    }
    assert!(l.requests.len() > 20);
    for i in 1..l.requests.len() {
        assert!(l.requests[i - 1].1 < l.requests[i].1);
        assert!(l.requests[i - 1].3 <= l.requests[i].2);
    }
}

#[test]
fn processing_can_be_observed() {
    let (mut c, mut l) = started(0, 1_000, 1);
    assert_eq!(c.to_be_processed_id(), BatchId(1));
    respond(&mut c, &mut l, 1, &[10]);
    let id = l.processing[0].0;
    assert!(c.is_processing(id));
    assert!(!c.is_processing(id.wrapping_add(1)));
    assert_eq!(report(&mut c, &mut l, BatchProcessResult::Success), ProcessingResult::KeepChain);
    assert!(!c.is_processing(id));
    assert_eq!(c.to_be_processed_id(), BatchId(2));
}

#[test]
fn stopped_chain_rests_and_resumes() {
    let (mut c, mut l) = started(0, 1_000, 2);
    c.stop_syncing();
    respond(&mut c, &mut l, 1, &[10]);
    assert!(l.processing.is_empty());
    assert_eq!(l.requests.len(), 2);
    match c.start_syncing(Slot(0)) {
        Action::ProcessBatch { processing_id, batch, then } => {
            assert_eq!(batch.id, BatchId(1));
            assert_eq!(then, Followup::RequestBatches);
            l.processing.push((processing_id, batch));
            let action = c.resume(then);
            run(&mut c, &mut l, action);
        }
        _ => panic!(),
    }
    assert_eq!(l.requests.len(), 3);
    assert_eq!(l.requests[2].1, 3);
}

#[test]
fn stopped_chain_still_retries_failed_batches() {
    let (mut c, mut l) = started(0, 1_000, 1);
    c.stop_syncing();
    assert!(matches!(c.add_peer(peer(2)), Action::Done));
    let (outcome, action) = c.inject_error(&peer(1), 1).unwrap();
    assert_eq!(outcome, ProcessingResult::KeepChain);
    run(&mut c, &mut l, action);
    assert_eq!(l.requests.len(), 2);
    assert_eq!((l.requests[1].1, l.requests[1].5.clone()), (1, peer(2)));
    assert_eq!(c.state, ChainSyncingState::Stopped);
}

#[test]
fn chain_without_peers_requests_nothing_until_one_is_added() {
    let (mut c, mut l) = started(0, 1_000, 2);
    respond(&mut c, &mut l, 1, &[10]);
    assert_eq!(report(&mut c, &mut l, BatchProcessResult::Failed), ProcessingResult::RemoveChain);
    let requests = l.requests.len();
    respond(&mut c, &mut l, 2, &[60]);
    let action = c.start_syncing(Slot(0));
    run(&mut c, &mut l, action);
    assert_eq!(l.requests.len(), requests);
    let action = c.add_peer(peer(5));
    run(&mut c, &mut l, action);
    assert_eq!(l.requests.len(), requests + 1);
    assert_eq!(l.requests[requests].5, peer(5));
}

#[test]
fn restart_keeps_progress() {
    let (mut c, mut l) = started(0, 1_000, 1);
    respond(&mut c, &mut l, 1, &[10]);
    assert_eq!(report(&mut c, &mut l, BatchProcessResult::Success), ProcessingResult::KeepChain);
    c.stop_syncing();
    let action = c.start_syncing(Slot(50));
    run(&mut c, &mut l, action);
    respond(&mut c, &mut l, 2, &[60]);
    assert_eq!(l.processing[0].1.id, BatchId(2));
    assert_eq!(l.requests.last().unwrap().1, 3);
}

#[test]
fn overtaken_chain_starts_from_the_local_finalized_slot() {
    let mut c = chain(0, 500, 1);
    let mut l = log();
    let action = c.start_syncing(Slot(100));
    run(&mut c, &mut l, action);
    assert_eq!(l.requests, vec![(1, 1, 100, 150, 50, peer(1))]);
    assert_eq!(c.start_slot, Slot(100));
    // the chain has caught up: starting it again changes nothing
    c.stop_syncing();
    let action = c.start_syncing(Slot(100));
    run(&mut c, &mut l, action);
    assert_eq!(l.requests.len(), 1);
    respond(&mut c, &mut l, 1, &[120]);
    assert_eq!(l.processing[0].1.id, BatchId(1));
    assert_eq!((l.requests[1].1, l.requests[1].2, l.requests[1].3), (2, 150, 200));
}

#[test]
fn local_finalized_slot_that_is_not_ahead_changes_nothing() {
    let mut c = chain(100, 500, 1);
    let mut l = log();
    let action = c.start_syncing(Slot(100));
    run(&mut c, &mut l, action);
    assert_eq!(l.requests, vec![(1, 1, 100, 150, 50, peer(1))]);
    assert_eq!(c.start_slot, Slot(100));
}

#[test]
fn overtaken_chain_beyond_its_target_requests_nothing() {
    let mut c = chain(0, 500, 2);
    let mut l = log();
    let action = c.start_syncing(Slot(501));
    run(&mut c, &mut l, action);
    assert!(l.requests.is_empty());
}

#[test]
fn overtaken_chain_counts_from_one_again() {
    let (mut c, mut l) = started(0, 1_000, 1);
    respond(&mut c, &mut l, 1, &[10]);
    assert_eq!(report(&mut c, &mut l, BatchProcessResult::Success), ProcessingResult::KeepChain);
    let action = c.start_syncing(Slot(51));
    run(&mut c, &mut l, action);
    let action = c.add_peer(peer(2));
    run(&mut c, &mut l, action);
    let last = l.requests.last().unwrap();
    assert_eq!((last.1, last.2, last.3), (1, 51, 101));
}

#[test]
fn next_batch_follows_the_completed_ones() {
    // a batch that was pending when the chain was overtaken keeps its id
    let (mut c, mut l) = started(0, 1_000, 3);
    assert_eq!(l.requests.len(), 3);
    let action = c.start_syncing(Slot(500));
    run(&mut c, &mut l, action);
    assert_eq!(l.requests.len(), 3);
    respond(&mut c, &mut l, 3, &[110]);
    let last = l.requests.last().unwrap();
    assert_eq!((last.1, last.2, last.3), (1, 500, 550));
    let action = c.add_peer(peer(4));
    run(&mut c, &mut l, action);
    let last = l.requests.last().unwrap();
    assert_eq!((last.1, last.2, last.3), (4, 650, 700));
}

#[test]
fn added_peer_gets_work() {
    let (mut c, mut l) = started(0, 1_000, 1);
    let action = c.add_peer(peer(2));
    run(&mut c, &mut l, action);
    assert_eq!(l.requests.len(), 2);
    assert_eq!(l.requests[1].5, peer(2));
    assert_eq!(c.peer_pool.len(), 2);
}

#[test]
fn each_peer_is_sent_its_status_once() {
    let mut c = chain(0, 1_000, 3);
    c.add_peer(peer(2));
    let peers = c.status_peers();
    assert_eq!(peers.len(), 3);
    for n in 1..4 {
        assert!(peers.contains(&peer(n)));
    }
}
