use amr_coordination::network::consensus::{
    AckPromise, CellLockRequest, CommitPayload, IntentLockManager, LamportClock, PreparePayload,
    TransactionId, TwoPhaseOutcome, PREPARE_TIMEOUT_TICKS,
};
use amr_coordination::network::implicit_cnp::{bid_utility, CnpBidder, CnpManager};
use amr_coordination::network::payloads::{
    EdgeBlockedPayload, IntentPayload, Packet, TaskAwardPayload, TaskBidPayload, TaskCfpPayload,
    WireWaypoint,
};
use amr_coordination::network::fec::{join_present_data, FecCodec};
use amr_coordination::network::transport::{quadrant_groups, TransportLayer};
use amr_coordination::space_time::{Heading, Q8_8};
use std::cmp::Ordering;

#[test]
fn test_lamport_clock_tick() {
    let mut clock = LamportClock::new(1);
    assert_eq!(clock.current(), 0);
    let t1 = clock.tick();
    assert_eq!(t1, 1);
    let t2 = clock.tick();
    assert_eq!(t2, 2);
}

#[test]
fn test_lamport_clock_send_receive() {
    let mut clock_a = LamportClock::new(1);
    let mut clock_b = LamportClock::new(2);
    let ts_a = clock_a.send_timestamp();
    assert_eq!(ts_a, 1);
    clock_b.receive(ts_a);
    assert_eq!(clock_b.current(), 2);
    let ts_b = clock_b.send_timestamp();
    assert_eq!(ts_b, 3);
    clock_a.receive(ts_b);
    assert_eq!(clock_a.current(), 4);
}

#[test]
fn test_lamport_total_ordering() {
    assert_eq!(LamportClock::order(5, 1, 5, 2), Ordering::Less);
    assert_eq!(LamportClock::order(5, 2, 5, 1), Ordering::Greater);
    assert_eq!(LamportClock::order(3, 1, 5, 1), Ordering::Less);
    assert_eq!(LamportClock::order(7, 2, 5, 1), Ordering::Greater);
}

#[test]
fn test_transaction_id_uniqueness() {
    let a = TransactionId::new(1, 100);
    let b = TransactionId::new(1, 101);
    let c = TransactionId::new(2, 100);
    assert_ne!(a, b);
    assert_ne!(a, c);
}

#[test]
fn test_2pc_full_cycle_commit() {
    let mut mgr1 = IntentLockManager::new(1, 10, 10);
    let mut mgr2 = IntentLockManager::new(2, 10, 10);
    let waypoints = vec![(5u16, 10u32, 20u32), (6, 12, 22), (7, 14, 24)];
    let prepare = mgr1.prepare(&waypoints, 1, 0).unwrap();
    assert_eq!(prepare.locks.len(), 3);
    assert!(mgr1.has_pending());
    let ack = mgr2.handle_prepare(&prepare);
    assert!(ack.accepted);
    let outcome = mgr1.receive_ack(ack);
    assert_eq!(outcome, Some(TwoPhaseOutcome::Committed));
    let commit = mgr1.commit().unwrap();
    assert!(!mgr1.has_pending());
    mgr2.handle_commit(&commit);
    assert_eq!(mgr2.foreign_lock_count(), 3);
}

#[test]
fn test_2pc_conflict_abort() {
    let mut mgr1 = IntentLockManager::new(1, 10, 10);
    let mut mgr2 = IntentLockManager::new(2, 10, 10);
    let wp2 = vec![(5u16, 10u32, 20u32)];
    let _prep2 = mgr2.prepare(&wp2, 0, 0).unwrap();
    mgr2.commit().unwrap();
    let wp1 = vec![(5u16, 12u32, 18u32)];
    let prepare = mgr1.prepare(&wp1, 1, 0).unwrap();
    let ack = mgr2.handle_prepare(&prepare);
    assert!(!ack.accepted);
    let outcome = mgr1.receive_ack(ack);
    assert_eq!(outcome, Some(TwoPhaseOutcome::Aborted));
    let abort = mgr1.abort().unwrap();
    mgr2.handle_abort(&abort);
}

#[test]
fn test_2pc_timeout() {
    let mut mgr = IntentLockManager::new(1, 10, 10);
    let waypoints = vec![(5u16, 10u32, 20u32)];
    mgr.prepare(&waypoints, 1, 0).unwrap();
    assert!(mgr.check_timeout(5).is_none());
    let outcome = mgr.check_timeout(PREPARE_TIMEOUT_TICKS + 1);
    assert_eq!(outcome, Some(TwoPhaseOutcome::Aborted));
}

#[test]
fn test_cells_in_radius() {
    let mgr = IntentLockManager::new(1, 32, 32);
    let cells = mgr.cells_in_radius(16 * 32 + 16);
    assert!(cells.len() > 400);
    assert!(cells.len() <= 481);
}

#[test]
fn test_peer_in_radius() {
    let mgr = IntentLockManager::new(1, 32, 32);
    assert!(mgr.is_peer_in_radius(10, &[0]));
    assert!(!mgr.is_peer_in_radius(500, &[0]));
}

#[test]
fn test_prepare_roundtrip() {
    let payload = PreparePayload {
        txn_id: TransactionId::new(3, 42),
        lamport_ts: 42,
        locks: vec![
            CellLockRequest { cell: 100, t_start: 10, t_end: 20 },
            CellLockRequest { cell: 200, t_start: 15, t_end: 25 },
        ],
        sent_tick: 5,
    };
    let bytes = payload.to_bytes();
    let recovered = PreparePayload::from_bytes(&bytes).unwrap();
    assert_eq!(recovered.txn_id.agent_id, 3);
    assert_eq!(recovered.locks.len(), 2);
    assert_eq!(recovered.locks[0].cell, 100);
    assert_eq!(recovered.locks[1].t_end, 25);
}

#[test]
fn test_ack_roundtrip() {
    let ack = AckPromise {
        txn_id: TransactionId::new(1, 10),
        responder_id: 2,
        lamport_ts: 15,
        accepted: true,
    };
    let bytes = ack.to_bytes();
    let recovered = AckPromise::from_bytes(&bytes).unwrap();
    assert_eq!(recovered.txn_id.agent_id, 1);
    assert_eq!(recovered.responder_id, 2);
    assert!(recovered.accepted);
}

#[test]
fn test_commit_roundtrip() {
    let commit = CommitPayload { txn_id: TransactionId::new(5, 99), lamport_ts: 100 };
    let bytes = commit.to_bytes();
    let recovered = CommitPayload::from_bytes(&bytes).unwrap();
    assert_eq!(recovered.txn_id.agent_id, 5);
    assert_eq!(recovered.txn_id.timestamp, 99);
}

#[test]
fn test_gc_expired_locks() {
    let mut mgr1 = IntentLockManager::new(1, 10, 10);
    let mut mgr2 = IntentLockManager::new(2, 10, 10);
    let wp = vec![(5u16, 10u32, 20u32)];
    let _prep = mgr2.prepare(&wp, 0, 0).unwrap();
    let commit = mgr2.commit().unwrap();
    mgr1.handle_prepare(&PreparePayload {
        txn_id: commit.txn_id,
        lamport_ts: 1,
        locks: wp.iter().map(|&(c, s, e)| CellLockRequest { cell: c, t_start: s, t_end: e }).collect(),
        sent_tick: 0,
    });
    mgr1.handle_commit(&commit);
    assert_eq!(mgr1.foreign_lock_count(), 1);
    mgr1.gc(25);
    assert_eq!(mgr1.foreign_lock_count(), 0);
}

#[test]
fn test_release_own_locks() {
    let mut mgr = IntentLockManager::new(1, 10, 10);
    let wp = vec![(5u16, 10u32, 20u32)];
    let _prep = mgr.prepare(&wp, 0, 0).unwrap();
    let commit = mgr.commit().unwrap();
    assert_eq!(mgr.own_lock_count(), 1);
    mgr.release_own_locks(&commit.txn_id);
    assert_eq!(mgr.own_lock_count(), 0);
}

#[test]
fn test_no_double_prepare() {
    let mut mgr = IntentLockManager::new(1, 10, 10);
    let wp = vec![(5u16, 10u32, 20u32)];
    assert!(mgr.prepare(&wp, 1, 0).is_some());
    assert!(mgr.prepare(&wp, 1, 0).is_none());
}

#[test]
fn test_intent_roundtrip() {
    let intent = IntentPayload {
        agent_id: 5,
        seq_no: 42,
        heading: Heading::E,
        waypoints: vec![
            WireWaypoint { cell_id: 10, t_arrive: 0, t_depart: 5 },
            WireWaypoint { cell_id: 11, t_arrive: 5, t_depart: 10 },
        ],
    };
    let bytes = intent.serialize();
    assert!(bytes.len() <= 245);
    let decoded = IntentPayload::deserialize(&bytes).unwrap();
    assert_eq!(decoded.agent_id, 5);
    assert_eq!(decoded.seq_no, 42);
    assert_eq!(decoded.waypoints.len(), 2);
    assert_eq!(decoded.waypoints[0].cell_id, 10);
}

#[test]
fn test_cfp_roundtrip() {
    let cfp = TaskCfpPayload {
        task_id: 100,
        pickup_cell: 50,
        dropoff_cell: 200,
        priority: 2,
        deadline_tick: 1000,
        manager_id: 1,
        bid_window_ticks: 5,
    };
    let bytes = cfp.serialize();
    assert!(bytes.len() <= 1472);
    let decoded = TaskCfpPayload::deserialize(&bytes).unwrap();
    assert_eq!(decoded.task_id, 100);
    assert_eq!(decoded.pickup_cell, 50);
}

#[test]
fn bid_roundtrip_fixed_point() {
    let bid = TaskBidPayload {
        task_id: 100,
        agent_id: 3,
        utility: Q8_8(192),
        estimated_ticks: 50,
        battery_pct: 80,
        queue_depth: 1,
    };
    let bytes = bid.serialize();
    let decoded = TaskBidPayload::deserialize(&bytes).unwrap();
    assert_eq!(decoded, bid);
}

#[test]
fn test_edge_blocked_roundtrip() {
    let eb = EdgeBlockedPayload { reporter_id: 7, blocked_cell: 999, detected_tick: 12345 };
    let bytes = eb.serialize();
    assert_eq!(bytes.len(), 8);
    let decoded = EdgeBlockedPayload::deserialize(&bytes).unwrap();
    assert_eq!(decoded.blocked_cell, 999);
    assert_eq!(decoded.detected_tick, 12345);
}

#[test]
fn test_packet_dispatch() {
    let eb = EdgeBlockedPayload { reporter_id: 1, blocked_cell: 42, detected_tick: 100 };
    let bytes = eb.serialize();
    match Packet::from_bytes(&bytes) {
        Some(Packet::EdgeBlocked(p)) => {
            assert_eq!(p.blocked_cell, 42);
        }
        _ => panic!("Expected EdgeBlocked packet"),
    }
}

#[test]
fn test_all_payloads_under_mtu() {
    let intent = IntentPayload {
        agent_id: 0,
        seq_no: 0,
        heading: Heading::N,
        waypoints: vec![WireWaypoint { cell_id: 0, t_arrive: 0, t_depart: 0 }; 24],
    };
    assert!(intent.serialize().len() <= 1472);
}

#[test]
fn test_award_roundtrip() {
    let award = TaskAwardPayload { task_id: 55, agent_id: 2, pickup: 10, dropoff: 200 };
    let bytes = award.serialize();
    let decoded = TaskAwardPayload::deserialize(&bytes).unwrap();
    assert_eq!(decoded.task_id, 55);
    assert_eq!(decoded.agent_id, 2);
    assert_eq!(decoded.pickup, 10);
    assert_eq!(decoded.dropoff, 200);
}

#[test]
fn test_manager_no_bids_defers() {
    let mut mgr = CnpManager::new();
    let _cfp = mgr.create_task(10, 50, 0, 500, 0, 0);
    let awards = mgr.check_awards(10);
    assert!(awards.is_empty());
    assert_eq!(mgr.deferred_count(), 1);
}

#[test]
fn test_bidder_idempotent() {
    let mut bidder = CnpBidder::new(1);
    let cfp = TaskCfpPayload {
        task_id: 1,
        pickup_cell: 10,
        dropoff_cell: 50,
        priority: 0,
        deadline_tick: 500,
        manager_id: 0,
        bid_window_ticks: 5,
    };
    let bid1 = bidder.compute_bid(&cfp, 20, 80, 0);
    assert!(bid1.is_some());
    let bid2 = bidder.compute_bid(&cfp, 20, 80, 0);
    assert!(bid2.is_none());
}

#[test]
fn test_retry_backoff() {
    let mut mgr = CnpManager::new();
    let _cfp = mgr.create_task(10, 50, 0, 500, 0, 0);
    mgr.check_awards(10);
    assert_eq!(mgr.deferred_count(), 1);
    let retries = mgr.check_retries(20);
    assert!(retries.is_empty());
    let retries = mgr.check_retries(30);
    assert_eq!(retries.len(), 1);
    let retries2 = mgr.check_retries(60);
    assert!(retries2.is_empty());
    let retries3 = mgr.check_retries(70);
    assert_eq!(retries3.len(), 1);
}

fn q8(v: f32) -> Q8_8 {
    Q8_8((v.max(0.0).min(255.996) * 256.0) as u16)
}

#[test]
fn test_manager_create_and_award() {
    let mut mgr = CnpManager::new();
    let cfp = mgr.create_task(10, 50, 1, 1000, 0, 0);
    let bid = TaskBidPayload {
        task_id: cfp.task_id,
        agent_id: 3,
        utility: q8(0.8),
        estimated_ticks: 20,
        battery_pct: 90,
        queue_depth: 0,
    };
    mgr.receive_bid(bid);
    // Window hasn't closed yet (tick 0, window = 5)
    let awards = mgr.check_awards(3);
    assert!(awards.is_empty());
    // Window closed
    let awards = mgr.check_awards(6);
    assert_eq!(awards.len(), 1);
    assert_eq!(awards[0].agent_id, 3);
    assert_eq!(awards[0].task_id, cfp.task_id);
}

#[test]
fn test_manager_best_bid_wins() {
    let mut mgr = CnpManager::new();
    let cfp = mgr.create_task(10, 50, 0, 500, 0, 0);
    mgr.receive_bid(TaskBidPayload {
        task_id: cfp.task_id,
        agent_id: 1,
        utility: q8(0.5),
        estimated_ticks: 30,
        battery_pct: 80,
        queue_depth: 0,
    });
    mgr.receive_bid(TaskBidPayload {
        task_id: cfp.task_id,
        agent_id: 2,
        utility: q8(0.9),
        estimated_ticks: 15,
        battery_pct: 90,
        queue_depth: 0,
    });
    let awards = mgr.check_awards(10);
    assert_eq!(awards[0].agent_id, 2); // higher utility wins
}

#[test]
fn test_bidder_utility_range() {
    let mut bidder = CnpBidder::new(1);
    let cfp = TaskCfpPayload {
        task_id: 1,
        pickup_cell: 10,
        dropoff_cell: 50,
        priority: 0,
        deadline_tick: 500,
        manager_id: 0,
        bid_window_ticks: 5,
    };
    let bid = bidder.compute_bid(&cfp, 20, 80, 1).unwrap();
    let u = bid.utility.0 as f32 / 256.0;
    assert!(u > 0.0 && u < 1.0, "Utility {} out of expected range", u);
}

#[test]
fn manager_awards_best_bid() {
    let mut mgr = CnpManager::new();
    let cfp = mgr.create_task(10, 50, 1, 1000, 0, 0);
    assert_eq!(cfp.task_id, 1);
    assert_eq!(cfp.bid_window_ticks, 5);
    let bid = |agent: u8, u: u16| TaskBidPayload {
        task_id: cfp.task_id,
        agent_id: agent,
        utility: Q8_8(u),
        estimated_ticks: 20,
        battery_pct: 90,
        queue_depth: 0,
    };
    mgr.receive_bid(bid(4, 128));
    mgr.receive_bid(bid(3, 200));
    mgr.receive_bid(bid(2, 200));
    mgr.receive_bid(bid(9, 10));
    assert!(mgr.check_awards(3).is_empty());
    let awards = mgr.check_awards(6);
    assert_eq!(awards, vec![TaskAwardPayload { task_id: 1, agent_id: 2, pickup: 10, dropoff: 50 }]);
    // settled: no second award, late bids dropped
    mgr.receive_bid(bid(1, 255));
    assert!(mgr.check_awards(7).is_empty());
    mgr.gc(400);
    assert!(mgr.check_awards(8).is_empty());
    assert_eq!(mgr.create_task(1, 2, 0, 0, 0, 0).task_id, 2);
}

#[test]
fn retries_give_up_after_five() {
    let mut mgr = CnpManager::new();
    mgr.create_task(10, 50, 0, 500, 0, 0);
    mgr.check_awards(10);
    let mut now = 30;
    let mut sent = 0;
    for _ in 0..10 {
        sent += mgr.check_retries(now).len();
        now += 100;
    }
    assert_eq!(sent, 5);
    assert_eq!(mgr.deferred_count(), 0);
}

#[test]
fn bidder_utility_fixed_point() {
    // 768/(5*21) + 16*80/25 + 192/(5*2) = 7 + 51 + 19 raw
    assert_eq!(bid_utility(20, 80, 1), Q8_8(77));
    assert_eq!(bid_utility(0, 100, 0), Q8_8(153 + 64 + 38));
    let mut bidder = CnpBidder::new(4);
    let cfp = TaskCfpPayload {
        task_id: 9,
        pickup_cell: 1,
        dropoff_cell: 2,
        priority: 0,
        deadline_tick: 0,
        manager_id: 0,
        bid_window_ticks: 5,
    };
    let bid = bidder.compute_bid(&cfp, 20, 80, 1).unwrap();
    assert_eq!(bid.utility, Q8_8(77));
    assert_eq!(bid.agent_id, 4);
    bidder.gc(0);
    assert!(bidder.compute_bid(&cfp, 20, 80, 1).is_some());
}

#[test]
fn claim_requires_best_utility_and_quorum() {
    let bidder = CnpBidder::new(2);
    assert!(bidder.should_claim_task(100, 100, 3, 4, 9));
    assert!(!bidder.should_claim_task(90, 100, 3, 4, 2));
    assert!(bidder.should_claim_task(100, 100, 2, 4, 2));
    assert!(!bidder.should_claim_task(100, 100, 2, 4, 1));
    assert!(!bidder.should_claim_task(100, 100, 1, 4, 2));
}

fn intent_bytes(agent_id: u8, seq_no: u16) -> Vec<u8> {
    IntentPayload {
        agent_id,
        seq_no,
        heading: Heading::E,
        waypoints: vec![WireWaypoint { cell_id: 3, t_arrive: 10, t_depart: 12 }],
    }
    .serialize()
}

#[test]
fn test_mock_transport() {
    let mut transport = TransportLayer::mock();
    let packets = transport.recv_all(&Vec::new());
    assert!(packets.is_empty());
}

#[test]
fn test_rate_limiter() {
    let mut transport = TransportLayer::mock();
    assert!(transport.can_broadcast_intent(1));
    assert!(!transport.can_broadcast_intent(1)); // rate limited
    transport.reset_rate_limits();
    assert!(transport.can_broadcast_intent(1)); // reset
}

#[test]
fn rate_limiter_counts_each_agent_apart() {
    let mut transport = TransportLayer::mock();
    assert!(transport.can_broadcast_intent(1));
    assert!(transport.can_broadcast_intent(2));
    assert!(!transport.can_broadcast_intent(1));
    assert!(!transport.can_broadcast_intent(2));
}

#[test]
fn duplicate_intents_are_delivered_once() {
    let mut transport = TransportLayer::mock();
    let edge = EdgeBlockedPayload { reporter_id: 4, blocked_cell: 2, detected_tick: 9 }.serialize();
    let batch = vec![
        intent_bytes(1, 7),
        intent_bytes(1, 7),
        vec![0xFF, 0x00],
        edge.clone(),
        intent_bytes(1, 8),
        intent_bytes(2, 7),
        Vec::new(),
    ];
    let packets = transport.recv_all(&batch);
    assert_eq!(packets.len(), 4);
    assert!(matches!(packets[0], Packet::Intent(ref i) if i.agent_id == 1 && i.seq_no == 7));
    assert!(matches!(packets[1], Packet::EdgeBlocked(_)));
    assert!(matches!(packets[2], Packet::Intent(ref i) if i.agent_id == 1 && i.seq_no == 8));
    assert!(matches!(packets[3], Packet::Intent(ref i) if i.agent_id == 2 && i.seq_no == 7));
    // Heard in an earlier drain: dropped again; other packets still pass.
    let again = transport.recv_all(&vec![intent_bytes(2, 7), edge]);
    assert_eq!(again.len(), 1);
    assert!(matches!(again[0], Packet::EdgeBlocked(_)));
}

#[test]
fn gc_dedup_forgets_half_of_the_keys() {
    let mut transport = TransportLayer::mock();
    let batch: Vec<Vec<u8>> = (0..4u16).map(|s| intent_bytes(3, s)).collect();
    assert_eq!(transport.recv_all(&batch).len(), 4);
    transport.gc_dedup(4);
    assert_eq!(transport.recv_all(&batch).len(), 0);
    transport.gc_dedup(3);
    assert_eq!(transport.recv_all(&batch).len(), 2);
    assert_eq!(transport.recv_all(&batch).len(), 0);
}

#[test]
fn quadrant_groups_include_neighbours() {
    assert_eq!(quadrant_groups(1), vec![1, 2]);
    assert_eq!(quadrant_groups(0), vec![0, 1]);
    assert_eq!(quadrant_groups(5), vec![5, 4, 6]);
    assert_eq!(quadrant_groups(254), vec![254, 253, 255]);
}

#[test]
fn fec_encodes_four_data_and_two_parity_shards() {
    let fec = FecCodec::new().unwrap();
    let payload: Vec<u8> = (1..=10u8).collect();
    let shards = fec.encode_payload_fec(&payload).unwrap();
    assert_eq!(shards.len(), 6);
    assert!(shards.iter().all(|s| s.len() == 3));
    assert_eq!(shards[0], vec![1, 2, 3]);
    assert_eq!(shards[1], vec![4, 5, 6]);
    assert_eq!(shards[2], vec![7, 8, 9]);
    assert_eq!(shards[3], vec![10, 0, 0]);
    // parity is computed, not left as the zero filler
    assert!(shards[4].iter().chain(shards[5].iter()).any(|b| *b != 0));
}

#[test]
fn fec_recovers_two_lost_shards() {
    let fec = FecCodec::new().unwrap();
    let payload: Vec<u8> = b"reservation update".to_vec();
    let shards = fec.encode_payload_fec(&payload).unwrap();
    let mut padded = payload.clone();
    padded.resize(4 * shards[0].len(), 0);
    for lost in [(0usize, 1usize), (2, 5), (3, 4)] {
        let received: Vec<Option<Vec<u8>>> = shards
            .iter()
            .enumerate()
            .map(|(i, s)| if i == lost.0 || i == lost.1 { None } else { Some(s.clone()) })
            .collect();
        assert_eq!(fec.decode_payload_fec(received).unwrap(), padded);
    }
    let all: Vec<Option<Vec<u8>>> = shards.iter().cloned().map(Some).collect();
    assert_eq!(fec.decode_payload_fec(all).unwrap(), padded);
}

#[test]
fn fec_decode_errors() {
    let fec = FecCodec::new().unwrap();
    let shards = fec.encode_payload_fec(&[9u8; 8]).unwrap();
    // three lost shards are too many
    let mut received: Vec<Option<Vec<u8>>> = shards.iter().cloned().map(Some).collect();
    received[0] = None;
    received[1] = None;
    received[2] = None;
    let err = fec.decode_payload_fec(received).unwrap_err();
    assert!(err.starts_with("Decode error"));
    // wrong number of shards
    let five: Vec<Option<Vec<u8>>> = shards[..5].iter().cloned().map(Some).collect();
    assert!(fec.decode_payload_fec(five).is_err());
    // shards of different lengths
    let mut uneven: Vec<Option<Vec<u8>>> = shards.iter().cloned().map(Some).collect();
    uneven[1] = Some(vec![1, 2, 3]);
    assert!(fec.decode_payload_fec(uneven).is_err());
}

#[test]
fn quorum_needs_a_strict_majority_of_an_odd_fleet() {
    let b = CnpBidder::new(1);
    assert!(!b.should_claim_task(100, 100, 2, 5, 1));
    assert!(b.should_claim_task(100, 100, 3, 5, 9));
}

#[test]
fn second_ack_from_one_peer_is_ignored() {
    let mut mgr = IntentLockManager::new(1, 10, 10);
    let p = mgr.prepare(&[(5u16, 10u32, 20u32)], 2, 0).unwrap();
    let ack = AckPromise { txn_id: p.txn_id, responder_id: 2, lamport_ts: 5, accepted: true };
    assert_eq!(mgr.receive_ack(ack), None);
    assert_eq!(mgr.receive_ack(ack), None);
    assert_eq!(mgr.pending_outcome(), Some(TwoPhaseOutcome::Pending));
    let ack3 = AckPromise { txn_id: p.txn_id, responder_id: 3, lamport_ts: 6, accepted: true };
    assert_eq!(mgr.receive_ack(ack3), Some(TwoPhaseOutcome::Committed));
}

#[test]
fn prepare_refused_against_own_pending_window() {
    let mut mgr1 = IntentLockManager::new(1, 10, 10);
    assert!(mgr1.prepare(&[(5u16, 10u32, 20u32)], 1, 0).is_some());
    let mut mgr2 = IntentLockManager::new(2, 10, 10);
    let p2 = mgr2.prepare(&[(5u16, 12u32, 18u32)], 1, 0).unwrap();
    assert!(!mgr1.handle_prepare(&p2).accepted);
    let p3 = mgr2.prepare(&[(6u16, 12u32, 18u32)], 1, 0);
    assert!(p3.is_none()); // mgr2 still has its own pending transaction
    let mut mgr3 = IntentLockManager::new(3, 10, 10);
    let p4 = mgr3.prepare(&[(6u16, 12u32, 18u32)], 1, 0).unwrap();
    assert!(mgr1.handle_prepare(&p4).accepted);
}

#[test]
fn join_skips_missing_data_shards() {
    let shards: Vec<Option<Vec<u8>>> = vec![
        Some(vec![1, 2]),
        None,
        Some(vec![5, 6]),
        Some(vec![7]),
        Some(vec![9, 9]),
        None,
    ];
    assert_eq!(join_present_data(&shards), vec![1, 2, 5, 6, 7]);
}
