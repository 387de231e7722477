//! The application collaborator: the hooks the engine calls back into.

use crate::codec::MessageId;
use crate::network::AckHandlerId;
use crate::network::FromPeerId;
use crate::network::MessageQueue;
use crate::network::TSerializableMessage;
use crate::user::PeerId;
use crate::user::TUser;
use vstd::prelude::*;

verus! {

/// What the hosting application must provide to drive the engine.
///
/// The engine invokes these hooks synchronously from within
/// [`crate::network::NetworkManager::tick`], in the fixed order the tick
/// defines: connect and disconnect notifications first, then one receive
/// hook per inbound frame, then the per-frame update.
pub trait TApp<U: TUser, M: TSerializableMessage>: Sized {
    /// Called when a plain message is received.  Notification only: no
    /// reply is produced.
    fn receive(&mut self, id: MessageId, from_peer: FromPeerId, message: &M);

    /// Called when a message demanding acknowledgment is received.  The
    /// returned message is sent straight back to the sender as the
    /// acknowledgment.
    fn receive_must_ack(&mut self, id: MessageId, from_peer: FromPeerId, message: &M) -> M;

    /// Called once per required recipient when a message sent with an
    /// acknowledgment handler completes.  The token is the one attached
    /// to the outbound message; the application resolves it to the
    /// behavior it registered.
    fn on_ack(&mut self, handler: AckHandlerId, id: MessageId, from_peer: FromPeerId, message: &M);

    /// Called once per tick, after all network effects of the tick have
    /// been applied.  The queue is the engine's outbound queue: anything
    /// enqueued here is sent on the next tick.
    fn tick(&mut self, delta_ms: u64, queue: &mut MessageQueue<M>);

    /// Called after a connecting peer's record has been inserted into the
    /// registry.  Optional: the default does nothing.
    fn on_post_user_connected(&mut self, _peer_id: PeerId) {
    }

    /// Called after a disconnecting peer's record has been removed from
    /// the registry.  Optional: the default does nothing.
    fn on_post_user_disconnected(&mut self, _peer_id: PeerId) {
    }
}

} // verus!
