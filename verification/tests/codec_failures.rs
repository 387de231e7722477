//! Exercises of the failure paths around the application's payload codec.

use trailrunner::app::TApp;
use trailrunner::codec::encode;
use trailrunner::codec::CodecError;
use trailrunner::network::Diagnostic;
use trailrunner::network::DrainRecord;
use trailrunner::network::Message;
use trailrunner::network::MessageQueue;
use trailrunner::network::NetworkManager;
use trailrunner::network::PeerState;
use trailrunner::network::TSerializableMessage;
use trailrunner::user::TUser;

#[derive(Debug, Clone)]
struct TestUser;

impl TUser for TestUser {
    fn new(_peer_id: u64) -> Self {
        TestUser
    }
}

/// A payload whose codec rejects some values: serializing fails when the
/// first byte is 0xFF, deserializing fails when it is 0xFE.
#[derive(Clone, PartialEq, Debug)]
struct Fussy(Vec<u8>);

impl TSerializableMessage for Fussy {
    fn serialize(&self) -> Result<Vec<u8>, CodecError> {
        if self.0.first() == Some(&0xFF) {
            Err(CodecError::Payload)
        } else {
            Ok(self.0.clone())
        }
    }

    fn deserialize(bytes: &Vec<u8>) -> Result<Self, CodecError> {
        if bytes.first() == Some(&0xFE) {
            Err(CodecError::Payload)
        } else {
            Ok(Fussy(bytes.clone()))
        }
    }
}

struct FussyApp {
    received: Vec<(u64, u64, Fussy)>,
    must_acked: Vec<u64>,
    reply: Fussy,
}

impl TApp<TestUser, Fussy> for FussyApp {
    fn receive(&mut self, id: u64, from_peer: u64, message: &Fussy) {
        self.received.push((id, from_peer, message.clone()));
    }

    fn receive_must_ack(&mut self, id: u64, _from_peer: u64, _message: &Fussy) -> Fussy {
        self.must_acked.push(id);
        self.reply.clone()
    }

    fn on_ack(&mut self, _h: u64, _id: u64, _from: u64, _m: &Fussy) {}

    fn tick(&mut self, _delta_ms: u64, _queue: &mut MessageQueue<Fussy>) {}
}

fn manager(reply: Fussy) -> NetworkManager<TestUser, FussyApp, Fussy> {
    NetworkManager::new(FussyApp { received: Vec::new(), must_acked: Vec::new(), reply })
}

#[test]
fn unserializable_outbound_message_is_dropped_without_consuming_an_id() {
    let mut mgr = manager(Fussy(vec![]));
    mgr.tick(16, &vec![(1, PeerState::Connected)], &Vec::new(), &vec![1]);
    mgr.message_queue.enqueue(Message::new(Fussy(vec![0xFF])).with_ack_handler(4));
    mgr.message_queue.enqueue(Message::new(Fussy(vec![1, 2])));
    let outcome = mgr.tick(16, &Vec::new(), &Vec::new(), &vec![1]);

    assert!(matches!(outcome.drained[0], DrainRecord::EncodeFailed));
    // the dropped message consumed no id: the next message gets id zero
    match &outcome.drained[1] {
        DrainRecord::Sent { id, payload } => {
            assert_eq!(*id, 0);
            assert_eq!(payload, &vec![1, 2]);
        }
        DrainRecord::EncodeFailed => panic!("second message should have been sent"),
    }
    assert_eq!(mgr.next_message_id, 1);
    assert_eq!(outcome.sends.len(), 1);
    assert!(outcome.diagnostics.contains(&Diagnostic::OutboundEncodeFailed));
    // the dropped message never reached the tracker
    assert_eq!(mgr.messages_waiting_for_ack.len(), 0);
}

#[test]
fn undeserializable_inbound_payload_is_dropped_with_diagnostic() {
    let mut mgr = manager(Fussy(vec![]));
    mgr.tick(16, &vec![(1, PeerState::Connected)], &Vec::new(), &vec![1]);
    let frame = encode(3, false, false, &vec![0xFE, 1]);
    let outcome = mgr.tick(16, &Vec::new(), &vec![(1, frame)], &vec![1]);
    assert_eq!(outcome.diagnostics, vec![Diagnostic::MalformedFrame(1)]);
    assert_eq!(mgr.app.received.len(), 0);
}

#[test]
fn unserializable_reply_means_no_ack_is_sent() {
    let mut mgr = manager(Fussy(vec![0xFF]));
    mgr.tick(16, &vec![(1, PeerState::Connected)], &Vec::new(), &vec![1]);
    let frame = encode(21, false, true, &vec![5]);
    let outcome = mgr.tick(16, &Vec::new(), &vec![(1, frame)], &vec![1]);
    assert_eq!(mgr.app.must_acked, vec![21]);
    assert_eq!(outcome.sends.len(), 0);
    assert_eq!(outcome.diagnostics, vec![Diagnostic::ReplyEncodeFailed(21)]);
}
