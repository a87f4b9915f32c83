use lumina_core::block_ranges::{calculate_range_to_fetch, BlockRange, BlockRanges};
use lumina_core::exchange::{
    select_head, Delivery, ExchangeClientHandler, HeaderRequest, HeaderResponse,
    OutboundFailureKind, P2pError, SendOutcome, STATUS_NOT_FOUND, STATUS_OK,
};
use lumina_core::header::Header;
use lumina_core::peer_tracker::PeerTracker;
use lumina_core::pruner::{remove_headers_outside_pruning_window, Blockstore, PRUNING_WINDOW_MS};
use lumina_core::store::{Store, StoreError};
use lumina_core::syncer::{SyncerWorker, SYNCING_WINDOW_MS};

fn hash_of(height: u64, salt: u8) -> Vec<u8> {
    let mut h = vec![salt; 32];
    let be = height.to_be_bytes();
    for i in 0..8 {
        h[i] = be[i];
    }
    h
}

fn mk_header(height: u64, salt: u8, time: u64) -> Header {
    Header::new(height, hash_of(height, salt), time)
}

fn mk_chain(from: u64, to: u64, time: u64) -> Vec<Header> {
    let mut v = Vec::new();
    let mut h = from;
    while h <= to {
        v.push(mk_header(h, 0, time));
        h += 1;
    }
    v
}

fn ok_response(header: &Header) -> HeaderResponse {
    HeaderResponse { body: header.encode(), status_code: STATUS_OK }
}

fn ranges_of(store: &Store) -> Vec<(u64, u64)> {
    let r: BlockRanges = store.stored_header_ranges();
    let mut out = Vec::new();
    let mut i = 0;
    while i < r.len() {
        let b: BlockRange = r.get(i);
        out.push((b.start, b.end));
        i += 1;
    }
    out
}

#[test]
fn head_election_by_quorum() {
    // Six peers report the same head at height 5, two report another
    // hash at height 5, one reports a unique height 7, one timed out.
    let mut candidates = Vec::new();
    for _ in 0..6 {
        candidates.push(mk_header(5, 0xAA, 1000));
    }
    for _ in 0..2 {
        candidates.push(mk_header(5, 0xBB, 1000));
    }
    candidates.push(mk_header(7, 0xCC, 1000));

    let best = select_head(&candidates).unwrap();
    assert_eq!(best.height(), 5);
    assert_eq!(best.hash(), &hash_of(5, 0xAA));
}

#[test]
fn head_election_fallback_to_max_height() {
    // All replies carry distinct hashes and distinct heights: no quorum,
    // so the highest height wins.
    let mut candidates = Vec::new();
    for h in 1..=10u64 {
        candidates.push(mk_header(h, h as u8, 1000));
    }
    let best = select_head(&candidates).unwrap();
    assert_eq!(best.height(), 10);

    let empty: Vec<Header> = Vec::new();
    assert!(matches!(select_head(&empty), Err(P2pError::HeaderNotFound)));
}

#[test]
fn range_shape_violation() {
    // Request Origin(5) with amount 3; the peer returns heights 5, 7, 7.
    let request = HeaderRequest::with_origin(5, 3);
    let responses = vec![
        ok_response(&mk_header(5, 0, 1000)),
        ok_response(&mk_header(7, 0, 1000)),
        ok_response(&mk_header(7, 1, 1000)),
    ];
    let r = lumina_core::exchange::decode_and_verify_responses(&request, &responses);
    assert!(matches!(r, Err(P2pError::InvalidResponse)));
}

#[test]
fn range_request_sorts_and_verifies() {
    let request = HeaderRequest::with_origin(5, 3);
    let responses = vec![
        ok_response(&mk_header(7, 0, 1000)),
        ok_response(&mk_header(5, 0, 1000)),
        ok_response(&mk_header(6, 0, 1000)),
    ];
    let v = lumina_core::exchange::decode_and_verify_responses(&request, &responses).unwrap();
    assert_eq!(v.len(), 3);
    assert_eq!(v[0].height(), 5);
    assert_eq!(v[1].height(), 6);
    assert_eq!(v[2].height(), 7);

    let not_found = vec![HeaderResponse { body: Vec::new(), status_code: STATUS_NOT_FOUND }];
    let request1 = HeaderRequest::with_origin(5, 2);
    assert!(matches!(
        lumina_core::exchange::decode_and_verify_responses(&request1, &not_found),
        Err(P2pError::HeaderNotFound)
    ));

    let hash_req = HeaderRequest::with_hash(hash_of(5, 0));
    let reply = vec![ok_response(&mk_header(5, 0, 1000))];
    let v = lumina_core::exchange::decode_and_verify_responses(&hash_req, &reply).unwrap();
    assert_eq!(v.len(), 1);

    let wrong_hash_req = HeaderRequest::with_hash(hash_of(5, 9));
    assert!(matches!(
        lumina_core::exchange::decode_and_verify_responses(&wrong_hash_req, &reply),
        Err(P2pError::InvalidResponse)
    ));
}

#[test]
fn syncer_gap_fill() {
    // Store empty; subjective head discovered at height 26.
    let mut store = Store::new();
    let mut worker = SyncerWorker::new();
    let now = 1_000_000;

    let head = mk_header(26, 0, now);
    let got = worker.try_init(&mut store, head).unwrap();
    assert_eq!(got, 26);
    assert_eq!(ranges_of(&store), vec![(26, 26)]);

    let batch = worker.fetch_next_batch(&store, 1, now).unwrap();
    assert_eq!((batch.start, batch.end), (1, 25));

    let headers = mk_chain(1, 25, now);
    let ev = worker.on_fetch_next_batch_result(&mut store, Ok(headers), 5);
    assert!(ev.is_some());
    assert_eq!(ranges_of(&store), vec![(1, 26)]);

    let info = worker.syncing_info(&store);
    assert_eq!(info.subjective_head, 26);
    assert!(worker.fetch_next_batch(&store, 1, now).is_none());
}

#[test]
fn syncer_live_ingest() {
    // Stored 1..=27; the head latch publishes height 30.
    let mut store = Store::new();
    let mut worker = SyncerWorker::new();
    let now = 1_000_000;

    worker.try_init(&mut store, mk_header(27, 0, now)).unwrap();
    let headers = mk_chain(1, 26, now);
    let batch = worker.fetch_next_batch(&store, 1, now).unwrap();
    assert_eq!((batch.start, batch.end), (1, 26));
    worker.on_fetch_next_batch_result(&mut store, Ok(headers), 5);
    assert_eq!(ranges_of(&store), vec![(1, 27)]);

    // The latch header is not adjacent to the stored head, so it is not
    // inserted; only the subjective head moves.
    let ev = worker.on_header_sub_message(&mut store, Some(mk_header(30, 0, now)));
    assert!(ev.is_none());
    assert_eq!(ranges_of(&store), vec![(1, 27)]);
    assert_eq!(worker.syncing_info(&store).subjective_head, 30);

    let batch = worker.fetch_next_batch(&store, 1, now).unwrap();
    assert_eq!((batch.start, batch.end), (28, 30));
    worker.on_fetch_next_batch_result(&mut store, Ok(mk_chain(28, 30, now)), 5);
    assert_eq!(ranges_of(&store), vec![(1, 30)]);

    // An adjacent latch header is appended immediately.
    let ev = worker.on_header_sub_message(&mut store, Some(mk_header(31, 0, now)));
    assert!(ev.is_some());
    assert_eq!(ranges_of(&store), vec![(1, 31)]);
}

#[test]
fn syncing_window_edge() {
    // 1200 headers older than the syncing window, 848 inside it, and a
    // head at 2049: batches stop at the newest out-of-window header.
    let now = SYNCING_WINDOW_MS + 1_000_000_000;
    let old_time = now - SYNCING_WINDOW_MS - 500_000;
    let new_time = now - 1000;

    let mut all = Vec::new();
    for h in 1..=2048u64 {
        let t = if h <= 1200 { old_time } else { new_time };
        all.push(mk_header(h, 0, t));
    }

    let mut store = Store::new();
    let mut worker = SyncerWorker::new();
    worker.try_init(&mut store, mk_header(2049, 0, new_time)).unwrap();

    let mut requests = Vec::new();
    loop {
        let batch = match worker.fetch_next_batch(&store, 1, now) {
            Some(b) => b,
            None => {
                // Either the window edge was just recorded, or nothing is
                // left to fetch; a second call settles it.
                match worker.fetch_next_batch(&store, 1, now) {
                    Some(b) => b,
                    None => break,
                }
            }
        };
        requests.push((batch.start, batch.end));
        let mut headers = Vec::new();
        let mut h = batch.start;
        while h <= batch.end {
            headers.push(all[(h - 1) as usize].dup());
            h += 1;
        }
        worker.on_fetch_next_batch_result(&mut store, Ok(headers), 5);
    }

    assert_eq!(requests, vec![(1537, 2048), (1025, 1536)]);
    assert_eq!(ranges_of(&store), vec![(1025, 2049)]);
}

#[test]
fn pruner_tail_trim() {
    // Heights 1..=5000; the oldest 2000 fall outside the pruning window.
    let now = PRUNING_WINDOW_MS + 100_000_000_000;
    let old_time = now - PRUNING_WINDOW_MS - 1_000_000;
    let new_time = now - PRUNING_WINDOW_MS + 1_000_000;

    let mut headers = Vec::new();
    for h in 1..=5000u64 {
        let t = if h <= 2000 { old_time } else { new_time };
        headers.push(mk_header(h, 0, t));
    }
    let mut store = Store::new();
    store.insert(headers).unwrap();

    // Sampled block data recorded for a pruned height is dropped too.
    let cid = vec![1u8, 2, 3];
    store.set_sampling_metadata(7, vec![cid.clone()]).unwrap();
    let mut blockstore = Blockstore::new();
    blockstore.put(cid.clone(), vec![9u8; 8]);
    assert!(blockstore.has(&cid));

    remove_headers_outside_pruning_window(&mut store, &mut blockstore, now).unwrap();

    assert_eq!(ranges_of(&store), vec![(2001, 5000)]);
    assert!(!blockstore.has(&cid));

    // A second pass leaves the store untouched.
    remove_headers_outside_pruning_window(&mut store, &mut blockstore, now).unwrap();
    assert_eq!(ranges_of(&store), vec![(2001, 5000)]);
}

#[test]
fn info_snapshots_are_identical_while_idle() {
    let mut store = Store::new();
    let mut worker = SyncerWorker::new();
    worker.try_init(&mut store, mk_header(3, 0, 500)).unwrap();

    let a = worker.syncing_info(&store);
    let b = worker.syncing_info(&store);
    assert_eq!(a.subjective_head, b.subjective_head);
    let mut i = 0;
    assert_eq!(a.stored_headers.len(), b.stored_headers.len());
    while i < a.stored_headers.len() {
        assert_eq!(a.stored_headers.get(i), b.stored_headers.get(i));
        i += 1;
    }
}

#[test]
fn store_insert_rules() {
    let mut store = Store::new();
    store.insert(mk_chain(26, 26, 100)).unwrap();
    // Closing the gap below a stored range is accepted.
    store.insert(mk_chain(1, 25, 100)).unwrap();
    assert_eq!(ranges_of(&store), vec![(1, 26)]);

    // A floating range below with no stored anchor above is refused.
    let mut store2 = Store::new();
    store2.insert(mk_chain(30, 30, 100)).unwrap();
    let e = store2.insert(mk_chain(25, 25, 100)).unwrap_err();
    assert!(matches!(e, StoreError::NonContinuousAppend(30, 25)));

    // A range strictly above everything opens a new stored range.
    store2.insert(mk_chain(547, 600, 100)).unwrap();
    assert_eq!(ranges_of(&store2), vec![(30, 30), (547, 600)]);

    // Duplicate heights and hashes are refused.
    let e = store2.insert(vec![mk_header(600, 9, 100)]).unwrap_err();
    assert!(matches!(e, StoreError::HeightExists(600)));
    let e = store2.insert(vec![Header::new(601, hash_of(600, 0), 100)]).unwrap_err();
    assert!(matches!(e, StoreError::HashExists(_)));

    // A gap inside the batch is refused.
    let gap = vec![mk_header(601, 0, 100), mk_header(603, 0, 100)];
    let e = store2.insert(gap).unwrap_err();
    assert!(matches!(e, StoreError::NonContinuousAppend(601, 603)));

    // The low-level append accepts only the direct successor of the head.
    let mut store3 = Store::new();
    store3.append_single_unchecked(mk_header(1, 0, 100)).unwrap();
    let e = store3.append_single_unchecked(mk_header(3, 0, 100)).unwrap_err();
    assert!(matches!(e, StoreError::NonContinuousAppend(1, 3)));
    let e = store3.append_single_unchecked(mk_header(1, 4, 100)).unwrap_err();
    assert!(matches!(e, StoreError::HeightExists(1)));

    assert_eq!(store3.get_by_height(1).unwrap().height(), 1);
    assert!(matches!(store3.get_by_height(2), Err(StoreError::NotFound)));
    assert_eq!(store3.get_by_hash(&hash_of(1, 0)).unwrap().height(), 1);
    assert_eq!(store3.head_height().unwrap(), 1);
    assert_eq!(store3.get_head().unwrap().height(), 1);
    assert!(store3.has_at(1));
    assert!(store3.has(&hash_of(1, 0)));
}

#[test]
fn exchange_pending_requests_and_timeouts() {
    let mut tracker = PeerTracker::new();
    tracker.set_trusted(42, true);
    tracker.set_connected(42, true);
    let info = tracker.info();
    assert_eq!(info.num_connected_peers, 1);
    assert_eq!(info.num_connected_trusted_peers, 1);

    let mut handler = ExchangeClientHandler::new();

    // An invalid request is rejected at once.
    let r = handler.on_send_request(&tracker, HeaderRequest::with_origin(5, 0), 1000);
    assert!(matches!(r, SendOutcome::Reject(P2pError::InvalidRequest)));

    // A valid range request goes out and is pending.
    let r = handler.on_send_request(&tracker, HeaderRequest::with_origin(5, 1), 1000);
    let req_id = match r {
        SendOutcome::SentRange { peer, req_id } => {
            assert_eq!(peer, 42);
            req_id
        }
        _ => panic!("expected a range dispatch"),
    };
    assert_eq!(handler.num_pending(), 1);

    // The reply is validated and delivered.
    let reply = vec![HeaderResponse {
        body: Header::new(5, hash_of(5, 0), 77).encode(),
        status_code: STATUS_OK,
    }];
    let d = handler.on_response_received(req_id, &reply).unwrap();
    match d {
        Delivery::Range(Ok(v)) => {
            assert_eq!(v.len(), 1);
            assert_eq!(v[0].height(), 5);
        }
        _ => panic!("expected a successful range delivery"),
    }
    assert_eq!(handler.num_pending(), 0);

    // A transport failure reaches the caller.
    let r = handler.on_send_request(&tracker, HeaderRequest::with_origin(9, 1), 2000);
    let req_id = match r {
        SendOutcome::SentRange { req_id, .. } => req_id,
        _ => panic!("expected a range dispatch"),
    };
    let d = handler.on_failure(req_id, OutboundFailureKind::ConnectionClosed).unwrap();
    assert!(matches!(
        d,
        Delivery::Range(Err(P2pError::OutboundFailure(OutboundFailureKind::ConnectionClosed)))
    ));

    // After the sweep, nothing pending is older than the timeout.
    let r = handler.on_send_request(&tracker, HeaderRequest::with_origin(7, 1), 3000);
    assert!(matches!(r, SendOutcome::SentRange { .. }));
    let deliveries = handler.prune_expired_requests(3000 + 10_000);
    assert_eq!(deliveries.len(), 1);
    assert!(matches!(
        deliveries[0],
        Delivery::Range(Err(P2pError::OutboundFailure(OutboundFailureKind::Timeout)))
    ));
    assert_eq!(handler.num_pending(), 0);

    // With no connected peers the caller hears it immediately.
    let empty_tracker = PeerTracker::new();
    let r = handler.on_send_request(&empty_tracker, HeaderRequest::with_origin(5, 1), 1000);
    assert!(matches!(r, SendOutcome::Reject(P2pError::NoConnectedPeers)));
}

#[test]
fn head_request_fan_out_and_election() {
    let mut tracker = PeerTracker::new();
    for id in 1..=12u64 {
        tracker.set_trusted(id, true);
        tracker.set_connected(id, true);
    }

    let mut handler = ExchangeClientHandler::new();
    let r = handler.on_send_request(&tracker, HeaderRequest::with_origin(0, 1), 1000);
    let (first_req_id, n_peers) = match r {
        SendOutcome::SentHead { peers, first_req_id, .. } => {
            assert_eq!(peers.len(), 10);
            (first_req_id, peers.len() as u64)
        }
        _ => panic!("expected a head fan-out"),
    };
    assert_eq!(handler.num_pending(), 10);

    // Six peers vote for one head at height 5, two for another, one
    // reports height 7, one times out: the quorum head at height 5 wins.
    let h5a = Header::new(5, hash_of(5, 0xAA), 77);
    let h5b = Header::new(5, hash_of(5, 0xBB), 77);
    let h7 = Header::new(7, hash_of(7, 0xCC), 77);
    let mut result = None;
    for k in 0..n_peers {
        let reply = if k < 6 {
            Some(&h5a)
        } else if k < 8 {
            Some(&h5b)
        } else if k < 9 {
            Some(&h7)
        } else {
            None
        };
        let d = match reply {
            Some(h) => handler.on_response_received(
                first_req_id + k,
                &vec![HeaderResponse { body: h.encode(), status_code: STATUS_OK }],
            ),
            None => handler.on_failure(first_req_id + k, OutboundFailureKind::Timeout),
        };
        if let Some(d) = d {
            assert!(result.is_none());
            result = Some(d);
        }
    }
    match result.unwrap() {
        Delivery::Head(_, Ok(v)) => {
            assert_eq!(v.len(), 1);
            assert_eq!(v[0].height(), 5);
            assert_eq!(v[0].hash(), &hash_of(5, 0xAA));
        }
        _ => panic!("expected an elected head"),
    }
    assert_eq!(handler.num_pending(), 0);
}

#[test]
fn scheduler_picks_topmost_gap() {
    let mut ranges = BlockRanges::new();
    ranges.insert(1, 30);
    ranges.insert(547, 1058);

    // The newest gap first, clipped to the batch bound.
    let b = calculate_range_to_fetch(1058, &ranges, None, 512).unwrap();
    assert_eq!((b.start, b.end), (35, 546));

    // Clipping against a known syncing-window edge.
    let b = calculate_range_to_fetch(1058, &ranges, Some(100), 512).unwrap();
    assert_eq!((b.start, b.end), (101, 546));

    // Fully synced means nothing to fetch.
    let mut full = BlockRanges::new();
    full.insert(1, 20);
    assert!(calculate_range_to_fetch(20, &full, None, 512).is_none());

    // An empty store fetches the top of the chain.
    let empty = BlockRanges::new();
    let b = calculate_range_to_fetch(2048, &empty, None, 512).unwrap();
    assert_eq!((b.start, b.end), (1537, 2048));
}

#[test]
fn header_codec_round_trip() {
    let h = mk_header(123456, 7, 987654321);
    let bytes = h.encode();
    assert_eq!(bytes.len(), 48);
    let back = Header::decode(&bytes).unwrap();
    assert_eq!(back.height(), 123456);
    assert_eq!(back.time(), 987654321);
    assert_eq!(back.hash(), h.hash());

    // A zero height or a wrong length is rejected as invalid.
    let zero = Header::decode(&vec![0u8; 48]);
    assert!(zero.is_none());
    assert!(Header::decode(&bytes[..47]).is_none());
}

#[test]
fn header_sub_ignored_before_initialization() {
    // Announcements that arrive before the subjective head is known are
    // dropped, and an empty latch changes nothing either.
    let mut store = Store::new();
    let mut worker = SyncerWorker::new();
    let ev = worker.on_header_sub_message(&mut store, Some(mk_header(5, 0, 100)));
    assert!(ev.is_none());
    assert_eq!(worker.syncing_info(&store).subjective_head, 0);
    assert_eq!(ranges_of(&store), vec![]);

    worker.try_init(&mut store, mk_header(5, 0, 100)).unwrap();
    let ev = worker.on_header_sub_message(&mut store, None);
    assert!(ev.is_none());
    assert_eq!(worker.syncing_info(&store).subjective_head, 5);

    // The subjective head never goes backwards.
    let ev = worker.on_header_sub_message(&mut store, Some(mk_header(3, 1, 100)));
    assert!(ev.is_none());
    assert_eq!(worker.syncing_info(&store).subjective_head, 5);

    // An empty store leaves a pruning pass with nothing to do.
    let mut empty_store = Store::new();
    let mut blockstore = Blockstore::new();
    remove_headers_outside_pruning_window(&mut empty_store, &mut blockstore, 1_000_000).unwrap();
    assert_eq!(ranges_of(&empty_store), vec![]);
}

#[test]
fn head_request_with_only_failures() {
    // Every per-peer request fails: once the last reply is in, the caller
    // hears that no head was found.
    let mut tracker = PeerTracker::new();
    for id in 1..=10u64 {
        tracker.set_trusted(id, true);
        tracker.set_connected(id, true);
    }
    let mut handler = ExchangeClientHandler::new();
    let r = handler.on_send_request(&tracker, HeaderRequest::with_origin(0, 1), 1000);
    let (first_req_id, n_peers) = match r {
        SendOutcome::SentHead { peers, first_req_id, .. } => (first_req_id, peers.len() as u64),
        _ => panic!("expected a head fan-out"),
    };

    let mut result = None;
    for k in 0..n_peers {
        let kind = if k % 2 == 0 {
            OutboundFailureKind::Timeout
        } else {
            OutboundFailureKind::ConnectionClosed
        };
        if let Some(d) = handler.on_failure(first_req_id + k, kind) {
            assert!(result.is_none());
            result = Some(d);
        }
    }
    assert!(matches!(
        result,
        Some(Delivery::Head(_, Err(P2pError::HeaderNotFound)))
    ));
    assert_eq!(handler.num_pending(), 0);
}

#[test]
fn head_request_rejects_multi_header_replies() {
    // A per-peer head reply carrying more than one header is invalid and
    // counts as a missing vote; the two-vote head still wins.
    let mut tracker = PeerTracker::new();
    for id in 1..=10u64 {
        tracker.set_trusted(id, true);
        tracker.set_connected(id, true);
    }
    let mut handler = ExchangeClientHandler::new();
    let r = handler.on_send_request(&tracker, HeaderRequest::with_origin(0, 1), 1000);
    let (first_req_id, n_peers) = match r {
        SendOutcome::SentHead { peers, first_req_id, .. } => (first_req_id, peers.len() as u64),
        _ => panic!("expected a head fan-out"),
    };

    let h5a = mk_header(5, 0xAA, 77);
    let h5b = mk_header(5, 0xBB, 77);
    let double = vec![ok_response(&mk_header(6, 0, 77)), ok_response(&mk_header(7, 0, 77))];
    let mut result = None;
    for k in 0..n_peers {
        let reply = if k < 1 {
            vec![ok_response(&h5b)]
        } else if k < 3 {
            vec![ok_response(&h5a)]
        } else {
            double.iter().map(|r| HeaderResponse { body: r.body.clone(), status_code: r.status_code }).collect()
        };
        if let Some(d) = handler.on_response_received(first_req_id + k, &reply) {
            assert!(result.is_none());
            result = Some(d);
        }
    }
    match result.unwrap() {
        Delivery::Head(_, Ok(v)) => {
            assert_eq!(v.len(), 1);
            assert_eq!(v[0].hash(), &hash_of(5, 0xAA));
        }
        _ => panic!("expected an elected head"),
    }
}

#[test]
fn sweep_times_out_head_session() {
    // When every per-peer head request expires, the sweep closes the
    // session and delivers the failed election.
    let mut tracker = PeerTracker::new();
    for id in 1..=10u64 {
        tracker.set_trusted(id, true);
        tracker.set_connected(id, true);
    }
    let mut handler = ExchangeClientHandler::new();
    let r = handler.on_send_request(&tracker, HeaderRequest::with_origin(0, 1), 1000);
    assert!(matches!(r, SendOutcome::SentHead { .. }));
    assert_eq!(handler.num_pending(), 10);

    let deliveries = handler.prune_expired_requests(1000 + 10_000);
    assert_eq!(handler.num_pending(), 0);
    assert_eq!(deliveries.len(), 1);
    assert!(matches!(
        deliveries[0],
        Delivery::Head(_, Err(P2pError::HeaderNotFound))
    ));
}
