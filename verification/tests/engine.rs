//! End-to-end exercises of the dispatch engine with a recording
//! application.

use trailrunner::app::TApp;
use trailrunner::codec::decode;
use trailrunner::codec::encode;
use trailrunner::codec::CodecError;
use trailrunner::network::DrainRecord;
use trailrunner::network::Diagnostic;
use trailrunner::network::Message;
use trailrunner::network::MessageQueue;
use trailrunner::network::NetworkManager;
use trailrunner::network::PeerState;
use trailrunner::user::TUser;

#[derive(Debug, Clone)]
struct TestUser {
    peer: u64,
}

impl TUser for TestUser {
    fn new(peer_id: u64) -> Self {
        TestUser { peer: peer_id }
    }
}

/// Records every hook invocation so tests can check what the engine did.
struct TestApp {
    received: Vec<(u64, u64, Vec<u8>)>,
    must_acked: Vec<(u64, u64, Vec<u8>)>,
    acks: Vec<(u64, u64, u64)>,
    connected: Vec<u64>,
    disconnected: Vec<u64>,
    ticks: Vec<u64>,
    reply: Vec<u8>,
}

impl TestApp {
    fn new() -> Self {
        TestApp {
            received: Vec::new(),
            must_acked: Vec::new(),
            acks: Vec::new(),
            connected: Vec::new(),
            disconnected: Vec::new(),
            ticks: Vec::new(),
            reply: b"ok".to_vec(),
        }
    }
}

impl TApp<TestUser, Vec<u8>> for TestApp {
    fn receive(&mut self, id: u64, from_peer: u64, message: &Vec<u8>) {
        self.received.push((id, from_peer, message.clone()));
    }

    fn receive_must_ack(&mut self, id: u64, from_peer: u64, message: &Vec<u8>) -> Vec<u8> {
        self.must_acked.push((id, from_peer, message.clone()));
        self.reply.clone()
    }

    fn on_ack(&mut self, handler: u64, id: u64, from_peer: u64, _message: &Vec<u8>) {
        self.acks.push((handler, id, from_peer));
    }

    fn tick(&mut self, delta_ms: u64, _queue: &mut MessageQueue<Vec<u8>>) {
        self.ticks.push(delta_ms);
    }

    fn on_post_user_connected(&mut self, peer_id: u64) {
        self.connected.push(peer_id);
    }

    fn on_post_user_disconnected(&mut self, peer_id: u64) {
        self.disconnected.push(peer_id);
    }
}

fn manager() -> NetworkManager<TestUser, TestApp, Vec<u8>> {
    NetworkManager::new(TestApp::new())
}

fn no_events() -> Vec<(u64, PeerState)> {
    Vec::new()
}

fn no_inbound() -> Vec<(u64, Vec<u8>)> {
    Vec::new()
}

fn sent_id(record: &DrainRecord) -> u64 {
    match record {
        DrainRecord::Sent { id, .. } => *id,
        DrainRecord::EncodeFailed => panic!("expected a sent record"),
    }
}

#[test]
fn delivery_ids_are_assigned_in_enqueue_order() {
    let mut mgr = manager();
    let outcome = mgr.tick(16, &vec![(7, PeerState::Connected)], &no_inbound(), &vec![7]);
    assert_eq!(outcome.sends.len(), 0);

    mgr.message_queue.enqueue(Message::new(b"first".to_vec()));
    mgr.message_queue.enqueue(Message::new(b"second".to_vec()).to_peer(7));
    mgr.message_queue.enqueue(Message::new(b"third".to_vec()));
    let outcome = mgr.tick(16, &no_events(), &no_inbound(), &vec![7]);

    assert_eq!(outcome.drained.len(), 3);
    assert_eq!(sent_id(&outcome.drained[0]), 0);
    assert_eq!(sent_id(&outcome.drained[1]), 1);
    assert_eq!(sent_id(&outcome.drained[2]), 2);
    assert_eq!(mgr.next_message_id, 3);

    // one connected peer: broadcast and unicast each produce one frame
    assert_eq!(outcome.sends.len(), 3);
    let e0 = decode(&outcome.sends[0].bytes).unwrap();
    let e1 = decode(&outcome.sends[1].bytes).unwrap();
    let e2 = decode(&outcome.sends[2].bytes).unwrap();
    assert_eq!((e0.id, e0.payload.as_slice()), (0, b"first".as_slice()));
    assert_eq!((e1.id, e1.payload.as_slice()), (1, b"second".as_slice()));
    assert_eq!((e2.id, e2.payload.as_slice()), (2, b"third".as_slice()));
    assert!(!e0.is_ack && !e0.must_ack);
}

#[test]
fn codec_round_trip_preserves_every_field() {
    let payload = vec![0u8, 1, 2, 250, 255];
    let bytes = encode(0x0102030405060708, false, true, &payload);
    let envelope = decode(&bytes).unwrap();
    assert_eq!(envelope.id, 0x0102030405060708);
    assert!(!envelope.is_ack);
    assert!(envelope.must_ack);
    assert_eq!(envelope.payload, payload);
}

#[test]
fn codec_layout_is_little_endian_id_then_flags_then_payload() {
    let bytes = encode(0x0102030405060708, true, false, &vec![0xAA, 0xBB]);
    assert_eq!(
        bytes,
        vec![0x08, 0x07, 0x06, 0x05, 0x04, 0x03, 0x02, 0x01, 1, 0, 0xAA, 0xBB]
    );
}

#[test]
fn codec_rejects_short_and_garbled_frames() {
    assert_eq!(decode(&vec![1, 2, 3]).err(), Some(CodecError::TooShort));
    let mut bad_flag = encode(4, false, false, &vec![]);
    bad_flag[8] = 2;
    assert_eq!(decode(&bad_flag).err(), Some(CodecError::BadFlagByte));
}

#[test]
fn unicast_ack_fires_handler_exactly_once() {
    let mut mgr = manager();
    mgr.tick(16, &vec![(1, PeerState::Connected), (2, PeerState::Connected)], &no_inbound(), &vec![1, 2]);
    mgr.message_queue
        .enqueue(Message::new(b"need-ack".to_vec()).to_peer(2).with_ack_handler(77));
    let outcome = mgr.tick(16, &no_events(), &no_inbound(), &vec![1, 2]);
    let id = sent_id(&outcome.drained[0]);
    let sent = decode(&outcome.sends[0].bytes).unwrap();
    assert!(sent.must_ack && !sent.is_ack);

    // an ack from the wrong peer does not complete the message
    let wrong = encode(id, true, false, &b"ok".to_vec());
    let outcome = mgr.tick(16, &no_events(), &vec![(1, wrong)], &vec![1, 2]);
    assert_eq!(outcome.acks_fired.len(), 0);
    assert_eq!(mgr.app.acks.len(), 0);

    // the target's ack fires the handler, once, for the target
    let right = encode(id, true, false, &b"ok".to_vec());
    let outcome = mgr.tick(16, &no_events(), &vec![(2, right)], &vec![1, 2]);
    assert_eq!(outcome.acks_fired.len(), 1);
    assert_eq!(mgr.app.acks, vec![(77, id, 2)]);

    // a duplicate ack is ignored with a diagnostic; the handler never refires
    let dup = encode(id, true, false, &b"ok".to_vec());
    let outcome = mgr.tick(16, &no_events(), &vec![(2, dup)], &vec![1, 2]);
    assert_eq!(outcome.acks_fired.len(), 0);
    assert!(outcome.diagnostics.contains(&Diagnostic::UnknownAckTarget(id)));
    assert_eq!(mgr.app.acks.len(), 1);
}

#[test]
fn broadcast_ack_waits_for_every_connected_peer() {
    let mut mgr = manager();
    mgr.tick(16, &vec![(1, PeerState::Connected), (2, PeerState::Connected)], &no_inbound(), &vec![1, 2]);
    mgr.message_queue.enqueue(Message::new(b"all".to_vec()).with_ack_handler(9));
    let outcome = mgr.tick(16, &no_events(), &no_inbound(), &vec![1, 2]);
    let id = sent_id(&outcome.drained[0]);
    assert_eq!(outcome.sends.len(), 2);
    assert_eq!(
        (outcome.sends[0].to_peer, outcome.sends[1].to_peer),
        (1, 2)
    );

    let ack1 = encode(id, true, false, &vec![]);
    let outcome = mgr.tick(16, &no_events(), &vec![(1, ack1)], &vec![1, 2]);
    assert_eq!(outcome.acks_fired.len(), 0);

    // the second ack completes: the handler fires once per connected peer
    let ack2 = encode(id, true, false, &vec![]);
    let outcome = mgr.tick(16, &no_events(), &vec![(2, ack2)], &vec![1, 2]);
    assert_eq!(outcome.acks_fired.len(), 2);
    assert_eq!(mgr.app.acks, vec![(9, id, 1), (9, id, 2)]);
}

#[test]
fn broadcast_completes_with_single_connected_peer() {
    // peer A connects; a broadcast with a handler goes out while only A
    // is connected; A's ack completes it and the handler fires once.
    let mut mgr = manager();
    mgr.tick(16, &vec![(10, PeerState::Connected)], &no_inbound(), &vec![10]);
    mgr.message_queue.enqueue(Message::new(b"hi".to_vec()).with_ack_handler(5));
    let outcome = mgr.tick(16, &no_events(), &no_inbound(), &vec![10]);
    let id = sent_id(&outcome.drained[0]);
    assert_eq!(outcome.sends.len(), 1);

    let ack = encode(id, true, false, &vec![]);
    let outcome = mgr.tick(16, &no_events(), &vec![(10, ack)], &vec![10]);
    assert_eq!(outcome.acks_fired.len(), 1);
    assert_eq!(mgr.app.acks, vec![(5, id, 10)]);
}

#[test]
fn late_joiner_stalls_broadcast_until_it_acks_or_leaves() {
    // peer A connects, a broadcast goes out; peer B connects before A's
    // ack arrives: completion is judged against the peers connected at
    // check time, so A's ack alone no longer completes the message.
    let mut mgr = manager();
    mgr.tick(16, &vec![(10, PeerState::Connected)], &no_inbound(), &vec![10]);
    mgr.message_queue.enqueue(Message::new(b"hi".to_vec()).with_ack_handler(5));
    let outcome = mgr.tick(16, &no_events(), &no_inbound(), &vec![10]);
    let id = sent_id(&outcome.drained[0]);

    let ack_a = encode(id, true, false, &vec![]);
    let outcome = mgr.tick(
        16,
        &vec![(11, PeerState::Connected)],
        &vec![(10, ack_a)],
        &vec![10, 11],
    );
    assert_eq!(outcome.acks_fired.len(), 0);

    // an ack from B now completes it, firing once per connected peer
    let ack_b = encode(id, true, false, &vec![]);
    let outcome = mgr.tick(16, &no_events(), &vec![(11, ack_b)], &vec![10, 11]);
    assert_eq!(outcome.acks_fired.len(), 2);
    assert_eq!(mgr.app.acks, vec![(5, id, 10), (5, id, 11)]);
}

#[test]
fn late_joiner_disconnect_unblocks_broadcast() {
    let mut mgr = manager();
    mgr.tick(16, &vec![(10, PeerState::Connected)], &no_inbound(), &vec![10]);
    mgr.message_queue.enqueue(Message::new(b"hi".to_vec()).with_ack_handler(5));
    let outcome = mgr.tick(16, &no_events(), &no_inbound(), &vec![10]);
    let id = sent_id(&outcome.drained[0]);

    // B joins before A's ack: not complete
    let ack_a = encode(id, true, false, &vec![]);
    let outcome = mgr.tick(
        16,
        &vec![(11, PeerState::Connected)],
        &vec![(10, ack_a)],
        &vec![10, 11],
    );
    assert_eq!(outcome.acks_fired.len(), 0);

    // B leaves; the next completion check happens on the next ack with
    // that id, now judged against {A} alone
    let dup_a = encode(id, true, false, &vec![]);
    let outcome = mgr.tick(
        16,
        &vec![(11, PeerState::Disconnected)],
        &vec![(10, dup_a)],
        &vec![10],
    );
    assert_eq!(outcome.acks_fired.len(), 1);
    assert_eq!(mgr.app.acks, vec![(5, id, 10)]);
}

#[test]
fn must_ack_frame_gets_exactly_one_reply_to_sender() {
    let mut mgr = manager();
    mgr.tick(16, &vec![(3, PeerState::Connected)], &no_inbound(), &vec![3]);
    let frame = encode(42, false, true, &b"question".to_vec());
    let outcome = mgr.tick(16, &no_events(), &vec![(3, frame)], &vec![3]);

    assert_eq!(mgr.app.must_acked, vec![(42, 3, b"question".to_vec())]);
    assert_eq!(outcome.sends.len(), 1);
    assert_eq!(outcome.sends[0].to_peer, 3);
    let reply = decode(&outcome.sends[0].bytes).unwrap();
    assert!(reply.is_ack);
    assert!(!reply.must_ack);
    assert_eq!(reply.id, 42);
    assert_eq!(reply.payload, b"ok".to_vec());
}

#[test]
fn plain_frame_reaches_receive_hook_without_reply() {
    let mut mgr = manager();
    mgr.tick(16, &vec![(3, PeerState::Connected)], &no_inbound(), &vec![3]);
    let frame = encode(8, false, false, &b"note".to_vec());
    let outcome = mgr.tick(16, &no_events(), &vec![(3, frame)], &vec![3]);
    assert_eq!(mgr.app.received, vec![(8, 3, b"note".to_vec())]);
    assert_eq!(outcome.sends.len(), 0);
}

#[test]
fn malformed_frame_is_dropped_without_harming_the_rest() {
    let mut mgr = manager();
    mgr.tick(16, &vec![(3, PeerState::Connected)], &no_inbound(), &vec![3]);
    let garbled = vec![1, 2, 3];
    let good = encode(8, false, false, &b"note".to_vec());
    let outcome = mgr.tick(16, &no_events(), &vec![(3, garbled), (3, good)], &vec![3]);
    assert!(outcome.diagnostics.contains(&Diagnostic::MalformedFrame(3)));
    // the later frame of the same tick is processed untouched
    assert_eq!(mgr.app.received, vec![(8, 3, b"note".to_vec())]);
}

#[test]
fn disconnect_of_unknown_peer_surfaces_diagnostic() {
    let mut mgr = manager();
    let outcome = mgr.tick(16, &vec![(99, PeerState::Disconnected)], &no_inbound(), &vec![]);
    assert_eq!(outcome.diagnostics, vec![Diagnostic::UnknownDisconnect(99)]);
    assert_eq!(mgr.app.disconnected.len(), 0);
}

#[test]
fn connect_and_disconnect_maintain_the_registry() {
    let mut mgr = manager();
    mgr.tick(
        16,
        &vec![(1, PeerState::Connected), (2, PeerState::Connected)],
        &no_inbound(),
        &vec![1, 2],
    );
    assert_eq!(mgr.app.connected, vec![1, 2]);
    assert!(mgr.users.get(&1).is_some());
    assert!(mgr.users.get(&2).is_some());

    mgr.tick(16, &vec![(1, PeerState::Disconnected)], &no_inbound(), &vec![2]);
    assert_eq!(mgr.app.disconnected, vec![1]);
    assert!(mgr.users.get(&1).is_none());
    assert!(mgr.users.get(&2).is_some());
}

#[test]
fn registry_records_can_be_mutated_in_place() {
    let mut mgr = manager();
    mgr.tick(16, &vec![(4, PeerState::Connected)], &no_inbound(), &vec![4]);
    assert_eq!(mgr.users.get(&4).unwrap().peer, 4);
    match mgr.users.get_mut(&4) {
        Some(user) => user.peer = 40,
        None => panic!("peer 4 should be registered"),
    }
    assert_eq!(mgr.users.get(&4).unwrap().peer, 40);
    assert!(mgr.users.get_mut(&99).is_none());
}

#[test]
fn empty_broadcast_sends_nothing_but_stays_pending() {
    let mut mgr = manager();
    mgr.message_queue.enqueue(Message::new(b"void".to_vec()).with_ack_handler(1));
    let outcome = mgr.tick(16, &no_events(), &no_inbound(), &vec![]);
    assert_eq!(outcome.sends.len(), 0);
    assert_eq!(sent_id(&outcome.drained[0]), 0);
    // no ack can arrive, so the handler never fires on its own
    assert_eq!(outcome.acks_fired.len(), 0);
    assert_eq!(mgr.messages_waiting_for_ack.len(), 1);
}

#[test]
fn pending_messages_complete_independently() {
    let mut mgr = manager();
    mgr.tick(16, &vec![(1, PeerState::Connected)], &no_inbound(), &vec![1]);
    mgr.message_queue.enqueue(Message::new(b"a".to_vec()).with_ack_handler(100));
    mgr.message_queue.enqueue(Message::new(b"b".to_vec()).with_ack_handler(200));
    let outcome = mgr.tick(16, &no_events(), &no_inbound(), &vec![1]);
    let id_a = sent_id(&outcome.drained[0]);
    let id_b = sent_id(&outcome.drained[1]);
    assert_eq!(mgr.messages_waiting_for_ack.len(), 2);

    // acknowledging the second message leaves the first pending
    let ack_b = encode(id_b, true, false, &vec![]);
    let outcome = mgr.tick(16, &no_events(), &vec![(1, ack_b)], &vec![1]);
    assert_eq!(outcome.acks_fired.len(), 1);
    assert_eq!(mgr.app.acks, vec![(200, id_b, 1)]);
    assert_eq!(mgr.messages_waiting_for_ack.len(), 1);

    let ack_a = encode(id_a, true, false, &vec![]);
    mgr.tick(16, &no_events(), &vec![(1, ack_a)], &vec![1]);
    assert_eq!(mgr.app.acks, vec![(200, id_b, 1), (100, id_a, 1)]);
    assert_eq!(mgr.messages_waiting_for_ack.len(), 0);
}

#[test]
fn one_tick_routes_acks_replies_and_data_together() {
    let mut mgr = manager();
    mgr.tick(16, &vec![(1, PeerState::Connected)], &no_inbound(), &vec![1]);
    mgr.message_queue.enqueue(Message::new(b"out".to_vec()).to_peer(1).with_ack_handler(3));
    let outcome = mgr.tick(16, &no_events(), &no_inbound(), &vec![1]);
    let id = sent_id(&outcome.drained[0]);

    let ack = encode(id, true, false, &vec![]);
    let ask = encode(90, false, true, &b"ping".to_vec());
    let note = encode(91, false, false, &b"fyi".to_vec());
    mgr.message_queue.enqueue(Message::new(b"next".to_vec()));
    let outcome = mgr.tick(16, &no_events(), &vec![(1, ack), (1, ask), (1, note)], &vec![1]);

    assert_eq!(mgr.app.acks, vec![(3, id, 1)]);
    assert_eq!(mgr.app.must_acked, vec![(90, 1, b"ping".to_vec())]);
    assert_eq!(mgr.app.received, vec![(91, 1, b"fyi".to_vec())]);
    // the reply to the must-acknowledge frame precedes the drained send
    assert_eq!(outcome.sends.len(), 2);
    let reply = decode(&outcome.sends[0].bytes).unwrap();
    assert!(reply.is_ack && reply.id == 90);
    let fresh = decode(&outcome.sends[1].bytes).unwrap();
    assert!(!fresh.is_ack && fresh.payload == b"next".to_vec());
}

#[test]
fn app_tick_hook_runs_last_and_can_refill_the_queue() {
    struct Refill {
        ticks: u64,
    }
    impl TApp<TestUser, Vec<u8>> for Refill {
        fn receive(&mut self, _id: u64, _from: u64, _m: &Vec<u8>) {}
        fn receive_must_ack(&mut self, _id: u64, _from: u64, _m: &Vec<u8>) -> Vec<u8> {
            Vec::new()
        }
        fn on_ack(&mut self, _h: u64, _id: u64, _from: u64, _m: &Vec<u8>) {}
        fn tick(&mut self, _delta_ms: u64, queue: &mut MessageQueue<Vec<u8>>) {
            self.ticks += 1;
            queue.enqueue(Message::new(b"again".to_vec()));
        }
    }
    let mut mgr: NetworkManager<TestUser, Refill, Vec<u8>> =
        NetworkManager::new(Refill { ticks: 0 });
    mgr.tick(16, &vec![(1, PeerState::Connected)], &no_inbound(), &vec![1]);
    assert_eq!(mgr.app.ticks, 1);
    // what the hook enqueued goes out on the next tick, not this one
    let outcome = mgr.tick(16, &no_events(), &no_inbound(), &vec![1]);
    assert_eq!(outcome.drained.len(), 1);
    assert_eq!(outcome.sends.len(), 1);
    let e = decode(&outcome.sends[0].bytes).unwrap();
    assert_eq!(e.payload, b"again".to_vec());
}
