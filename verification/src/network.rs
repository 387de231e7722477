//! Outbound messages, the outbound queue, acknowledgment bookkeeping, and
//! the dispatch engine that ties them together once per tick.

use crate::app::TApp;
use crate::codec::CodecError;
use crate::codec::MessageId;
use crate::codec::spec_decode;
use crate::codec::spec_encode;
use crate::user::PeerId;
use crate::user::TUser;
use crate::user::UserList;
use std::collections::HashMap;
use vstd::prelude::*;

verus! {

broadcast use vstd::std_specs::hash::group_hash_axioms;

/// A peer as the sender of an inbound frame.
pub type FromPeerId = PeerId;

/// Token naming an acknowledgment handler.  The engine never interprets
/// it: when an acknowledged message completes, the token is handed back to
/// the application, which resolves it to whatever behavior it registered.
pub type AckHandlerId = u64;

/// A message the application can hand to the engine: a payload that can be
/// serialized to bytes and deserialized back.
///
/// The two spec functions are the codec's model: which byte string a
/// payload serializes to, if any, and which byte strings deserialize.
/// Every implementation's executable methods must agree with its model,
/// so the engine's contracts can say exactly which messages go out and
/// which frames are dropped.
pub trait TSerializableMessage: Clone + Sized {
    /// The bytes this payload serializes to, or nothing when the codec
    /// cannot represent it.  The default model claims nothing serializes:
    /// an implementation that wants the engine's contracts to speak about
    /// its messages must supply its own.
    open spec fn spec_ser(&self) -> Option<Seq<u8>> {
        None
    }

    /// Whether these bytes deserialize to a payload.  The default model
    /// claims nothing does; see [`Self::spec_ser`].
    open spec fn spec_de_ok(bytes: Seq<u8>) -> bool {
        false
    }

    /// Serialize the payload to bytes; a payload the codec cannot
    /// represent yields an error.
    fn serialize(&self) -> (r: Result<Vec<u8>, CodecError>)
        ensures
            match r {
                Ok(b) => self.spec_ser() == Some(b@),
                Err(_) => self.spec_ser() is None,
            },
    ;

    /// Deserialize a payload from bytes; malformed or mismatched bytes
    /// yield an error.
    fn deserialize(bytes: &Vec<u8>) -> (r: Result<Self, CodecError>)
        ensures
            r is Ok == Self::spec_de_ok(bytes@),
    ;
}

/// Raw bytes are a payload already: the codec is the identity and never
/// fails.
impl TSerializableMessage for Vec<u8> {
    open spec fn spec_ser(&self) -> Option<Seq<u8>> {
        Some(self@)
    }

    open spec fn spec_de_ok(bytes: Seq<u8>) -> bool {
        true
    }

    fn serialize(&self) -> (r: Result<Vec<u8>, CodecError>)
        ensures
            match r {
                Ok(b) => self.spec_ser() == Some(b@),
                Err(_) => self.spec_ser() is None,
            },
    {
        Ok(clone_bytes(self))
    }

    fn deserialize(bytes: &Vec<u8>) -> (r: Result<Self, CodecError>)
        ensures
            r is Ok == Self::spec_de_ok(bytes@),
    {
        Ok(clone_bytes(bytes))
    }
}

/// A copy of a byte vector.
pub fn clone_bytes(v: &Vec<u8>) -> (r: Vec<u8>)
    ensures
        r@ == v@,
{
    let mut r: Vec<u8> = Vec::new();
    let mut i: usize = 0;
    while i < v.len()
        invariant
            i <= v.len(),
            r@ == v@.subrange(0, i as int),
        decreases v.len() - i,
    {
        r.push(v[i]);
        proof {
            assert(v@.subrange(0, i + 1) =~= v@.subrange(0, i as int).push(v@[i as int]));
        }
        i += 1;
    }
    proof {
        assert(v@.subrange(0, v@.len() as int) =~= v@);
    }
    r
}

/// Whether a sequence of peers contains a given peer.
pub fn peers_contain(peers: &Vec<PeerId>, peer: PeerId) -> (r: bool)
    ensures
        r == peers@.contains(peer),
{
    let mut i: usize = 0;
    while i < peers.len()
        invariant
            i <= peers.len(),
            forall|k: int| 0 <= k < i ==> peers@[k] != peer,
        decreases peers.len() - i,
    {
        if peers[i] == peer {
            return true;
        }
        i += 1;
    }
    false
}

/// An outbound message: a payload, an optional single target peer (no
/// target means broadcast to every connected peer), and an optional
/// acknowledgment handler token.  The delivery id is assigned by the
/// engine at the moment the message is actually sent.
pub struct Message<M: TSerializableMessage> {
    pub id: MessageId,
    pub to_peer: Option<PeerId>,
    pub data: M,
    pub ack_handler: Option<AckHandlerId>,
}

impl<M: TSerializableMessage> Message<M> {
    /// A new broadcast message with no acknowledgment handler.  Creating a
    /// message does not send it: enqueue it on a [`MessageQueue`].
    pub fn new(data: M) -> (r: Self)
        ensures
            r.id == 0,
            r.to_peer is None,
            r.data == data,
            r.ack_handler is None,
    {
        Self { id: 0, to_peer: None, data, ack_handler: None }
    }

    /// Address the message to a single peer instead of broadcasting it.
    pub fn to_peer(self, to_peer: PeerId) -> (r: Self)
        ensures
            r.id == self.id,
            r.to_peer == Some(to_peer),
            r.data == self.data,
            r.ack_handler == self.ack_handler,
    {
        Self { to_peer: Some(to_peer), ..self }
    }

    /// Demand acknowledgment: every recipient must answer, and once all
    /// required acknowledgments have arrived the handler named by this
    /// token fires, exactly once per required recipient.
    pub fn with_ack_handler(self, handler: AckHandlerId) -> (r: Self)
        ensures
            r.id == self.id,
            r.to_peer == self.to_peer,
            r.data == self.data,
            r.ack_handler == Some(handler),
    {
        Self { ack_handler: Some(handler), ..self }
    }
}

/// The outbound queue: messages not yet sent, drained once per tick in
/// enqueue order.
pub struct MessageQueue<M: TSerializableMessage> {
    pub messages: Vec<Message<M>>,
}

impl<M: TSerializableMessage> MessageQueue<M> {
    /// An empty queue.
    pub fn new() -> (r: Self)
        ensures
            r.messages@ == Seq::<Message<M>>::empty(),
    {
        Self { messages: Vec::new() }
    }

    /// Append a message to the tail of the queue.
    pub fn enqueue(&mut self, message: Message<M>)
        ensures
            final(self).messages@ == old(self).messages@.push(message),
    {
        self.messages.push(message);
    }

    /// Empty the queue and return its prior contents in enqueue order: a
    /// point-in-time snapshot of everything enqueued since the last drain.
    pub(crate) fn drain(&mut self) -> (r: Vec<Message<M>>)
        ensures
            r@ == old(self).messages@,
            final(self).messages@ == Seq::<Message<M>>::empty(),
    {
        let mut taken: Vec<Message<M>> = Vec::new();
        core::mem::swap(&mut taken, &mut self.messages);
        taken
    }
}

/// Bookkeeping for a sent message that awaits acknowledgment: the message
/// itself (with its assigned delivery id) and the peers that have
/// acknowledged it so far.
pub struct MessageWaitingForAck<M: TSerializableMessage> {
    pub message: Message<M>,
    pub peers_that_have_acked: Vec<PeerId>,
}

impl<M: TSerializableMessage> MessageWaitingForAck<M> {
    /// Whether the original message was a broadcast.
    pub fn was_broadcast(&self) -> (r: bool)
        ensures
            r == (self.message.to_peer is None),
    {
        self.message.to_peer.is_none()
    }

    /// Whether every required acknowledgment has arrived, judged against
    /// the currently connected peers: a broadcast is complete when every
    /// currently connected peer has acknowledged (vacuously complete when
    /// none is connected); a single-target message is complete when its
    /// target has acknowledged.
    pub fn have_all_acked(&self, connected_peers: &Vec<PeerId>) -> (r: bool)
        ensures
            r == spec_have_all_acked(
                self.message.to_peer,
                self.peers_that_have_acked@,
                connected_peers@,
            ),
    {
        match self.message.to_peer {
            None => {
                let mut i: usize = 0;
                while i < connected_peers.len()
                    invariant
                        self.message.to_peer is None,
                        i <= connected_peers.len(),
                        forall|k: int|
                            0 <= k < i ==> self.peers_that_have_acked@.contains(
                                connected_peers@[k],
                            ),
                    decreases connected_peers.len() - i,
                {
                    if !peers_contain(&self.peers_that_have_acked, connected_peers[i]) {
                        proof {
                            let acked = self.peers_that_have_acked@;
                            let cp = connected_peers@;
                            assert(exists|k: int|
                                0 <= k < cp.len() && !acked.contains(cp[k])) by {
                                assert((i as int) < cp.len() && !acked.contains(cp[i as int]));
                            }
                        }
                        return false;
                    }
                    i += 1;
                }
                true
            },
            Some(target) => peers_contain(&self.peers_that_have_acked, target),
        }
    }
}

/// The completion predicate for a pending acknowledgment: which peers must
/// stand among those that have acknowledged for the handler to fire.
pub open spec fn spec_have_all_acked(
    to_peer: Option<PeerId>,
    acked: Seq<PeerId>,
    connected: Seq<PeerId>,
) -> bool {
    match to_peer {
        Some(target) => acked.contains(target),
        None => forall|k: int| 0 <= k < connected.len() ==> acked.contains(connected[k]),
    }
}

/// Connection state change reported by the transport for one peer.
#[derive(Clone, Copy, Debug, PartialEq, Eq, Structural)]
pub enum PeerState {
    Connected,
    Disconnected,
}

/// A frame the engine wants transmitted: bytes addressed to one peer.  A
/// broadcast appears as one action per connected peer.
pub struct SendAction {
    pub to_peer: PeerId,
    pub bytes: Vec<u8>,
}

/// One acknowledgment-handler firing: the handler token of the completed
/// message, its delivery id, and the peer the firing is on behalf of.
#[derive(Clone, Copy, Debug, PartialEq, Eq, Structural)]
pub struct AckInvocation {
    pub handler: AckHandlerId,
    pub id: MessageId,
    pub from_peer: FromPeerId,
}

/// What became of one drained outbound message, in queue order.
pub enum DrainRecord {
    /// The message went out under this delivery id with these payload
    /// bytes.
    Sent { id: MessageId, payload: Vec<u8> },
    /// The payload could not be serialized: the message was dropped, and
    /// no delivery id was consumed.
    EncodeFailed,
}

/// A non-fatal condition surfaced to the caller.  None of these stops the
/// tick: the offending frame, message or event is dropped and processing
/// continues.
#[derive(Clone, Copy, Debug, PartialEq, Eq, Structural)]
pub enum Diagnostic {
    /// An inbound frame could not be decoded and was dropped.
    MalformedFrame(FromPeerId),
    /// An acknowledgment arrived for a delivery id with no pending entry
    /// (a duplicate, or one from before a restart) and was ignored.
    UnknownAckTarget(MessageId),
    /// A disconnect event named a peer with no registry record.
    UnknownDisconnect(PeerId),
    /// The reply to a must-acknowledge message could not be serialized:
    /// no acknowledgment was sent.
    ReplyEncodeFailed(MessageId),
    /// An outbound message's payload could not be serialized: the message
    /// was dropped without a send or a tracker entry.
    OutboundEncodeFailed,
}

/// The tick's execution, frame by frame: the engine state before the
/// first inbound frame and after each one, and how many of the reply
/// sends, handler firings and diagnostics had been produced at each of
/// those points.  [`NetworkManager::tick`]'s contract binds every inbound
/// frame's effect through this trace: frame `j` turns state `j` into
/// state `j + 1` and contributes exactly the slices between its cuts.
pub ghost struct TickTrace<U: TUser, A: TApp<U, M>, M: TSerializableMessage> {
    pub states: Seq<NetworkManager<U, A, M>>,
    pub reply_cuts: Seq<int>,
    pub ack_cuts: Seq<int>,
    pub diag_cuts: Seq<int>,
}

/// Everything one tick decided: the frames to transmit, the
/// acknowledgment handlers that fired, what became of each drained
/// outbound message, the diagnostics, and the ghost trace that binds
/// them to the inbound frames.
pub struct TickOutcome<U: TUser, A: TApp<U, M>, M: TSerializableMessage> {
    pub sends: Vec<SendAction>,
    pub acks_fired: Vec<AckInvocation>,
    pub drained: Vec<DrainRecord>,
    pub diagnostics: Vec<Diagnostic>,
    pub trace: Ghost<TickTrace<U, A, M>>,
}

/// The registry domain after a sequence of connect and disconnect events:
/// each connect inserts the peer, each disconnect removes it, in order.
pub open spec fn spec_users_after_events(dom: Set<PeerId>, events: Seq<(PeerId, PeerState)>) -> Set<
    PeerId,
>
    decreases events.len(),
{
    if events.len() == 0 {
        dom
    } else {
        let prev = spec_users_after_events(dom, events.drop_last());
        if events.last().1 is Connected {
            prev.insert(events.last().0)
        } else {
            prev.remove(events.last().0)
        }
    }
}

/// The diagnostics a sequence of peer events produces: one unknown
/// disconnect for each disconnect event whose peer was absent at that
/// point.
pub open spec fn spec_unknown_disconnects(dom: Set<PeerId>, events: Seq<(PeerId, PeerState)>) -> Seq<
    Diagnostic,
>
    decreases events.len(),
{
    if events.len() == 0 {
        Seq::empty()
    } else {
        let prev_dom = spec_users_after_events(dom, events.drop_last());
        let prev = spec_unknown_disconnects(dom, events.drop_last());
        if events.last().1 is Disconnected && !prev_dom.contains(events.last().0) {
            prev.push(Diagnostic::UnknownDisconnect(events.last().0))
        } else {
            prev
        }
    }
}

/// Whether any event names the given peer.
pub open spec fn spec_events_mention(events: Seq<(PeerId, PeerState)>, peer: PeerId) -> bool {
    exists|j: int| 0 <= j < events.len() && (#[trigger] events[j]).0 == peer
}

/// Whether a frame is an acknowledgment envelope for the given id: the
/// shape of every reply the engine sends.
pub open spec fn spec_is_reply_to(s: SendAction, id: MessageId) -> bool {
    exists|payload: Seq<u8>| s.bytes@ == spec_encode(id, true, false, payload)
}

/// Whether a frame is an acknowledgment envelope for some id.
pub open spec fn spec_is_reply(s: SendAction) -> bool {
    exists|id: MessageId| spec_is_reply_to(s, id)
}

/// How recording one acknowledgment changes the tracker, and which
/// handler firings it produces.
///
/// An unknown id leaves the tracker alone and surfaces a diagnostic.  A
/// known id first gains the sender among the peers that have
/// acknowledged; if the completion predicate then holds against the
/// connected-peer snapshot, the entry leaves the tracker and the handler
/// fires once for the acking peer (single target) or once per currently
/// connected peer (broadcast); otherwise the entry stays with its
/// extended acknowledgment set and nothing fires.
pub open spec fn spec_ack_effect<M: TSerializableMessage>(
    pre: Map<MessageId, MessageWaitingForAck<M>>,
    post: Map<MessageId, MessageWaitingForAck<M>>,
    from: FromPeerId,
    id: MessageId,
    connected: Seq<PeerId>,
    acks: Seq<AckInvocation>,
    diags: Seq<Diagnostic>,
) -> bool {
    if !pre.contains_key(id) {
        &&& post == pre
        &&& acks.len() == 0
        &&& diags == seq![Diagnostic::UnknownAckTarget(id)]
    } else {
        let e = pre[id];
        let acked2 = e.peers_that_have_acked@.push(from);
        &&& diags.len() == 0
        &&& if spec_have_all_acked(e.message.to_peer, acked2, connected) {
            &&& post == pre.remove(id)
            &&& match e.message.ack_handler {
                Some(h) => match e.message.to_peer {
                    Some(_) => acks == seq![AckInvocation { handler: h, id, from_peer: from }],
                    None => acks == Seq::new(
                        connected.len(),
                        |k: int| AckInvocation { handler: h, id, from_peer: connected[k] },
                    ),
                },
                None => acks.len() == 0,
            }
        } else {
            &&& post.dom() == pre.dom()
            &&& post[id].message == e.message
            &&& post[id].peers_that_have_acked@ == acked2
            &&& forall|other: MessageId|
                pre.contains_key(other) && other != id ==> post[other] == pre[other]
            &&& acks.len() == 0
        }
    }
}

/// Everything one inbound frame does to the engine.
///
/// A frame that cannot be decoded — malformed envelope, or a payload the
/// application's codec rejects, judged by the codec's own model — is
/// dropped with a diagnostic and touches nothing.  A decodable
/// acknowledgment frame changes only the tracker, as [`spec_ack_effect`]
/// says.  A decodable must-acknowledge frame changes no engine state and
/// produces exactly one reply envelope (acknowledgment flag set,
/// must-acknowledge flag clear, same id) addressed to the sender —
/// unless serializing the reply fails, in which case no reply goes out
/// and a diagnostic is surfaced.  A decodable plain data frame changes
/// no engine state and produces nothing.
pub open spec fn spec_frame_effect<U: TUser, A: TApp<U, M>, M: TSerializableMessage>(
    pre: NetworkManager<U, A, M>,
    post: NetworkManager<U, A, M>,
    from: FromPeerId,
    frame: Seq<u8>,
    connected: Seq<PeerId>,
    sends: Seq<SendAction>,
    acks: Seq<AckInvocation>,
    diags: Seq<Diagnostic>,
) -> bool {
    match spec_decode(frame) {
        Err(_) => spec_dropped_frame(pre, post, from, sends, acks, diags),
        Ok(env) => {
            if !M::spec_de_ok(env.payload) {
                spec_dropped_frame(pre, post, from, sends, acks, diags)
            } else if env.is_ack {
                &&& post.users == pre.users
                &&& post.message_queue == pre.message_queue
                &&& post.next_message_id == pre.next_message_id
                &&& sends.len() == 0
                &&& spec_ack_effect(
                    pre.messages_waiting_for_ack@,
                    post.messages_waiting_for_ack@,
                    from,
                    env.id,
                    connected,
                    acks,
                    diags,
                )
            } else if env.must_ack {
                &&& spec_engine_state_unchanged(pre, post)
                &&& acks.len() == 0
                &&& ({
                    ||| (sends.len() == 1 && sends[0].to_peer == from && spec_is_reply_to(
                        sends[0],
                        env.id,
                    ) && diags.len() == 0)
                    ||| (sends.len() == 0 && diags == seq![
                        Diagnostic::ReplyEncodeFailed(env.id),
                    ])
                })
            } else {
                &&& spec_engine_state_unchanged(pre, post)
                &&& sends.len() == 0
                &&& acks.len() == 0
                &&& diags.len() == 0
            }
        },
    }
}

/// The registry, the queue, the tracker and the id counter all unchanged
/// (the application state may still have changed through its hooks).
pub open spec fn spec_engine_state_unchanged<U: TUser, A: TApp<U, M>, M: TSerializableMessage>(
    pre: NetworkManager<U, A, M>,
    post: NetworkManager<U, A, M>,
) -> bool {
    &&& post.users == pre.users
    &&& post.message_queue == pre.message_queue
    &&& post.messages_waiting_for_ack@ == pre.messages_waiting_for_ack@
    &&& post.next_message_id == pre.next_message_id
}

/// A dropped frame: engine state untouched, nothing sent, nothing fired,
/// exactly one malformed-frame diagnostic.
pub open spec fn spec_dropped_frame<U: TUser, A: TApp<U, M>, M: TSerializableMessage>(
    pre: NetworkManager<U, A, M>,
    post: NetworkManager<U, A, M>,
    from: FromPeerId,
    sends: Seq<SendAction>,
    acks: Seq<AckInvocation>,
    diags: Seq<Diagnostic>,
) -> bool {
    &&& spec_engine_state_unchanged(pre, post)
    &&& sends.len() == 0
    &&& acks.len() == 0
    &&& diags == seq![Diagnostic::MalformedFrame(from)]
}

/// Everything the peer-reconciliation step does: the registry domain is
/// folded over the events, records of peers no event names are kept
/// untouched, the rest of the engine is untouched, and the diagnostics
/// produced are exactly the unknown disconnects.
pub open spec fn spec_peer_events_effect<U: TUser, A: TApp<U, M>, M: TSerializableMessage>(
    pre: NetworkManager<U, A, M>,
    post: NetworkManager<U, A, M>,
    events: Seq<(PeerId, PeerState)>,
    diags: Seq<Diagnostic>,
) -> bool {
    &&& post.users@.dom() == spec_users_after_events(pre.users@.dom(), events)
    &&& forall|p: PeerId|
        !spec_events_mention(events, p) ==> (post.users@.contains_key(p)
            == pre.users@.contains_key(p)) && (pre.users@.contains_key(p) ==> post.users@[p]
            == pre.users@[p])
    &&& post.message_queue == pre.message_queue
    &&& post.messages_waiting_for_ack@ == pre.messages_waiting_for_ack@
    &&& post.next_message_id == pre.next_message_id
    &&& diags == spec_unknown_disconnects(pre.users@.dom(), events)
}

/// The frames a freshly appended sent record placed stand exactly at its
/// offset, at the end of the send actions.
proof fn lemma_sends_new_record<M: TSerializableMessage>(
    q: Seq<Message<M>>,
    rec0: Seq<DrainRecord>,
    rec1: Seq<DrainRecord>,
    connected: Seq<PeerId>,
    sends_head: Seq<SendAction>,
    sends_new: Seq<SendAction>,
    base: int,
    j: int,
    idv: MessageId,
    pb: Seq<u8>,
)
    requires
        j == rec0.len(),
        rec1.len() == j + 1,
        rec1[j] matches DrainRecord::Sent { id: id9, payload: p9 } && id9 == idv && p9@ == pb,
        0 <= j < q.len(),
        sends_head.len() as int == base + spec_send_offset(q, rec0, connected.len() as int, j),
        spec_send_offset(q, rec1, connected.len() as int, j) == spec_send_offset(
            q,
            rec0,
            connected.len() as int,
            j,
        ),
        forall|idx: int|
            0 <= idx < sends_head.len() ==> #[trigger] sends_new[idx] == sends_head[idx],
        q[j].to_peer is Some ==> sends_new.len() == sends_head.len() + 1 && sends_new.last().to_peer
            == q[j].to_peer->0 && sends_new.last().bytes@ == spec_encode(
            idv,
            false,
            q[j].ack_handler is Some,
            pb,
        ),
        q[j].to_peer is None ==> sends_new.len() == sends_head.len() + connected.len() && forall|
            k: int,
        |
            #![trigger connected[k]]
            0 <= k < connected.len() ==> sends_new[sends_head.len() + k].to_peer == connected[k]
                && sends_new[sends_head.len() + k].bytes@ == spec_encode(
                idv,
                false,
                q[j].ack_handler is Some,
                pb,
            ),
    ensures
        spec_sends_for_record(q, rec1, connected, sends_new, base, j),
{
    let off = base + spec_send_offset(q, rec1, connected.len() as int, j);
    assert(off == sends_head.len() as int);
    match q[j].to_peer {
        Some(_) => {
            assert(sends_new[off] == sends_new.last());
        },
        None => {
            assert forall|k: int|
                #![trigger connected[k]]
                0 <= k < connected.len() implies sends_new[off + k].to_peer == connected[k]
                && sends_new[off + k].bytes@ == spec_encode(
                idv,
                false,
                q[j].ack_handler is Some,
                pb,
            ) by {}
        },
    }
}

/// Frame-effect slices already established stay valid when the send,
/// firing and diagnostic lists grow at the end and the trace grows by a
/// new entry: every earlier slice sits inside the untouched prefix.
proof fn lemma_trace_slices_stable<U: TUser, A: TApp<U, M>, M: TSerializableMessage>(
    inbound: Seq<(FromPeerId, Vec<u8>)>,
    connected: Seq<PeerId>,
    m: int,
    st_old: Seq<NetworkManager<U, A, M>>,
    st_new: Seq<NetworkManager<U, A, M>>,
    rc_old: Seq<int>,
    rc_new: Seq<int>,
    ac_old: Seq<int>,
    ac_new: Seq<int>,
    dc_old: Seq<int>,
    dc_new: Seq<int>,
    sends_old: Seq<SendAction>,
    sends_new: Seq<SendAction>,
    acks_old: Seq<AckInvocation>,
    acks_new: Seq<AckInvocation>,
    diags_old: Seq<Diagnostic>,
    diags_new: Seq<Diagnostic>,
)
    requires
        0 <= m <= inbound.len(),
        forall|jj: int| 0 <= jj <= m ==> #[trigger] st_new[jj] == st_old[jj],
        forall|jj: int|
            0 <= jj <= m ==> #[trigger] rc_new[jj] == rc_old[jj] && ac_new[jj] == ac_old[jj]
                && dc_new[jj] == dc_old[jj],
        sends_old.len() <= sends_new.len(),
        acks_old.len() <= acks_new.len(),
        diags_old.len() <= diags_new.len(),
        forall|idx: int| 0 <= idx < sends_old.len() ==> #[trigger] sends_new[idx] == sends_old[idx],
        forall|idx: int| 0 <= idx < acks_old.len() ==> #[trigger] acks_new[idx] == acks_old[idx],
        forall|idx: int| 0 <= idx < diags_old.len() ==> #[trigger] diags_new[idx] == diags_old[idx],
        forall|jj: int|
            #![trigger rc_old[jj]]
            0 <= jj <= m ==> 0 <= rc_old[jj] <= sends_old.len() && 0 <= ac_old[jj]
                <= acks_old.len() && 0 <= dc_old[jj] <= diags_old.len(),
        forall|jj: int|
            #![trigger rc_old[jj + 1]]
            0 <= jj < m ==> rc_old[jj] <= rc_old[jj + 1] && ac_old[jj] <= ac_old[jj + 1]
                && dc_old[jj] <= dc_old[jj + 1],
        forall|jj: int|
            #![trigger st_old[jj]]
            0 <= jj < m ==> spec_frame_effect(
                st_old[jj],
                st_old[jj + 1],
                inbound[jj].0,
                inbound[jj].1@,
                connected,
                sends_old.subrange(rc_old[jj], rc_old[jj + 1]),
                acks_old.subrange(ac_old[jj], ac_old[jj + 1]),
                diags_old.subrange(dc_old[jj], dc_old[jj + 1]),
            ),
    ensures
        forall|jj: int|
            #![trigger st_new[jj]]
            0 <= jj < m ==> spec_frame_effect(
                st_new[jj],
                st_new[jj + 1],
                inbound[jj].0,
                inbound[jj].1@,
                connected,
                sends_new.subrange(rc_new[jj], rc_new[jj + 1]),
                acks_new.subrange(ac_new[jj], ac_new[jj + 1]),
                diags_new.subrange(dc_new[jj], dc_new[jj + 1]),
            ),
{
    assert forall|jj: int|
        #![trigger st_new[jj]]
        0 <= jj < m implies spec_frame_effect(
        st_new[jj],
        st_new[jj + 1],
        inbound[jj].0,
        inbound[jj].1@,
        connected,
        sends_new.subrange(rc_new[jj], rc_new[jj + 1]),
        acks_new.subrange(ac_new[jj], ac_new[jj + 1]),
        diags_new.subrange(dc_new[jj], dc_new[jj + 1]),
    ) by {
        assert(st_new[jj] == st_old[jj] && st_new[jj + 1] == st_old[jj + 1]);
        assert(rc_new[jj] == rc_old[jj] && rc_new[jj + 1] == rc_old[jj + 1]);
        assert(ac_new[jj] == ac_old[jj] && ac_new[jj + 1] == ac_old[jj + 1]);
        assert(dc_new[jj] == dc_old[jj] && dc_new[jj + 1] == dc_old[jj + 1]);
        assert forall|idx: int| 0 <= idx < rc_old[jj + 1] - rc_old[jj] implies #[trigger] sends_new.subrange(
            rc_old[jj],
            rc_old[jj + 1],
        )[idx] == sends_old.subrange(rc_old[jj], rc_old[jj + 1])[idx] by {
            assert(sends_new.subrange(rc_old[jj], rc_old[jj + 1])[idx] == sends_new[rc_old[jj] + idx]);
            assert(sends_old.subrange(rc_old[jj], rc_old[jj + 1])[idx] == sends_old[rc_old[jj] + idx]);
            assert(sends_new[rc_old[jj] + idx] == sends_old[rc_old[jj] + idx]);
        }
        assert(sends_new.subrange(rc_old[jj], rc_old[jj + 1]) =~= sends_old.subrange(
            rc_old[jj],
            rc_old[jj + 1],
        ));
        assert forall|idx: int| 0 <= idx < ac_old[jj + 1] - ac_old[jj] implies #[trigger] acks_new.subrange(
            ac_old[jj],
            ac_old[jj + 1],
        )[idx] == acks_old.subrange(ac_old[jj], ac_old[jj + 1])[idx] by {
            assert(acks_new.subrange(ac_old[jj], ac_old[jj + 1])[idx] == acks_new[ac_old[jj] + idx]);
            assert(acks_old.subrange(ac_old[jj], ac_old[jj + 1])[idx] == acks_old[ac_old[jj] + idx]);
            assert(acks_new[ac_old[jj] + idx] == acks_old[ac_old[jj] + idx]);
        }
        assert(acks_new.subrange(ac_old[jj], ac_old[jj + 1]) =~= acks_old.subrange(
            ac_old[jj],
            ac_old[jj + 1],
        ));
        assert forall|idx: int| 0 <= idx < dc_old[jj + 1] - dc_old[jj] implies #[trigger] diags_new.subrange(
            dc_old[jj],
            dc_old[jj + 1],
        )[idx] == diags_old.subrange(dc_old[jj], dc_old[jj + 1])[idx] by {
            assert(diags_new.subrange(dc_old[jj], dc_old[jj + 1])[idx] == diags_new[dc_old[jj] + idx]);
            assert(diags_old.subrange(dc_old[jj], dc_old[jj + 1])[idx] == diags_old[dc_old[jj] + idx]);
            assert(diags_new[dc_old[jj] + idx] == diags_old[dc_old[jj] + idx]);
        }
        assert(diags_new.subrange(dc_old[jj], dc_old[jj + 1]) =~= diags_old.subrange(
            dc_old[jj],
            dc_old[jj + 1],
        ));
        assert(spec_frame_effect(
            st_old[jj],
            st_old[jj + 1],
            inbound[jj].0,
            inbound[jj].1@,
            connected,
            sends_old.subrange(rc_old[jj], rc_old[jj + 1]),
            acks_old.subrange(ac_old[jj], ac_old[jj + 1]),
            diags_old.subrange(dc_old[jj], dc_old[jj + 1]),
        ));
    }
}

/// How many of the first `upto` drain records are sends.
pub open spec fn spec_sent_count(records: Seq<DrainRecord>, upto: int) -> int
    decreases upto,
{
    if upto <= 0 {
        0
    } else {
        spec_sent_count(records, upto - 1) + if records[upto - 1] is Sent {
            1int
        } else {
            0int
        }
    }
}

/// What became of each drained message, exactly: a message whose payload
/// the codec represents is sent — under those very bytes, and under the
/// next delivery id in order (the first id goes to the first sent
/// message, and so on) — while a message whose payload will not
/// serialize is dropped and consumes no id.
pub open spec fn spec_drain_records_ok<M: TSerializableMessage>(
    q: Seq<Message<M>>,
    records: Seq<DrainRecord>,
    next0: MessageId,
) -> bool {
    &&& records.len() == q.len()
    &&& forall|j: int|
        0 <= j < records.len() ==> match #[trigger] records[j] {
            DrainRecord::Sent { id, payload } => {
                &&& id as int == next0 + spec_sent_count(records, j)
                &&& q[j].data.spec_ser() == Some(payload@)
            },
            DrainRecord::EncodeFailed => q[j].data.spec_ser() is None,
        }
}

/// How many send actions the `j`-th drained message contributes: one for
/// a single target, one per connected peer for a broadcast, none for a
/// message that failed to serialize.
pub open spec fn spec_send_weight<M: TSerializableMessage>(
    q: Seq<Message<M>>,
    records: Seq<DrainRecord>,
    n_connected: int,
    j: int,
) -> int {
    match records[j] {
        DrainRecord::Sent { id: _, payload: _ } => if q[j].to_peer is Some {
            1int
        } else {
            n_connected
        },
        DrainRecord::EncodeFailed => 0int,
    }
}

/// Where in the drain's send actions the `j`-th drained message's frames
/// begin: the sum of the weights of everything before it.
pub open spec fn spec_send_offset<M: TSerializableMessage>(
    q: Seq<Message<M>>,
    records: Seq<DrainRecord>,
    n_connected: int,
    j: int,
) -> int
    decreases j,
{
    if j <= 0 {
        0
    } else {
        spec_send_offset(q, records, n_connected, j - 1) + spec_send_weight(
            q,
            records,
            n_connected,
            j - 1,
        )
    }
}

/// The frames the drain hands to the transport, exactly: for each sent
/// message, in queue order, its encoded envelope — once to its single
/// target, or once per peer of the connected snapshot, in snapshot order,
/// for a broadcast.  The must-acknowledge flag is set exactly when the
/// message carries an acknowledgment handler.
pub open spec fn spec_drain_sends_ok<M: TSerializableMessage>(
    q: Seq<Message<M>>,
    records: Seq<DrainRecord>,
    connected: Seq<PeerId>,
    sends: Seq<SendAction>,
    base: int,
) -> bool {
    &&& sends.len() as int == base + spec_send_offset(
        q,
        records,
        connected.len() as int,
        records.len() as int,
    )
    &&& forall|j: int|
        0 <= j < records.len() ==> spec_sends_for_record(q, records, connected, sends, base, j)
}

/// The frames the `j`-th drained message put at its place among the send
/// actions: nothing for a failed message; its encoded envelope once, at
/// its offset, for a single target; once per connected peer, in snapshot
/// order from its offset, for a broadcast.
pub open spec fn spec_sends_for_record<M: TSerializableMessage>(
    q: Seq<Message<M>>,
    records: Seq<DrainRecord>,
    connected: Seq<PeerId>,
    sends: Seq<SendAction>,
    base: int,
    j: int,
) -> bool {
    match records[j] {
        DrainRecord::Sent { id, payload } => {
            let off = base + spec_send_offset(q, records, connected.len() as int, j);
            let frame = spec_encode(id, false, q[j].ack_handler is Some, payload@);
            match q[j].to_peer {
                Some(p) => sends[off].to_peer == p && sends[off].bytes@ == frame,
                None => forall|k: int|
                    #![trigger connected[k]]
                    0 <= k < connected.len() ==> sends[off + k].to_peer == connected[k] && sends[off
                        + k].bytes@ == frame,
            }
        },
        DrainRecord::EncodeFailed => true,
    }
}

/// How the drain grows the tracker: every entry already pending stays
/// untouched; every sent message that carries an acknowledgment handler
/// gains an entry under its delivery id, holding the message with its
/// assigned id and an empty acknowledgment set; nothing else appears.
pub open spec fn spec_drain_tracker_ok<M: TSerializableMessage>(
    q: Seq<Message<M>>,
    records: Seq<DrainRecord>,
    pre: Map<MessageId, MessageWaitingForAck<M>>,
    post: Map<MessageId, MessageWaitingForAck<M>>,
) -> bool {
    &&& forall|k: MessageId| pre.contains_key(k) ==> post.contains_key(k) && post[k] == pre[k]
    &&& forall|j: int|
        0 <= j < records.len() ==> match #[trigger] records[j] {
            DrainRecord::Sent { id, payload: _ } => q[j].ack_handler is Some ==> {
                &&& post.contains_key(id)
                &&& post[id].message.id == id
                &&& post[id].message.to_peer == q[j].to_peer
                &&& post[id].message.data == q[j].data
                &&& post[id].message.ack_handler == q[j].ack_handler
                &&& post[id].peers_that_have_acked@.len() == 0
            },
            DrainRecord::EncodeFailed => true,
        }
    &&& forall|k: MessageId|
        post.contains_key(k) ==> pre.contains_key(k) || spec_records_sent_with_handler(
            q,
            records,
            k,
        )
}

/// Whether some drained message was sent under this id and carried an
/// acknowledgment handler.
pub open spec fn spec_records_sent_with_handler<M: TSerializableMessage>(
    q: Seq<Message<M>>,
    records: Seq<DrainRecord>,
    id: MessageId,
) -> bool {
    exists|j: int|
        0 <= j < records.len() && ((#[trigger] records[j]) matches DrainRecord::Sent {
            id: id2,
            payload: _,
        } && id2 == id && q[j].ack_handler is Some)
}

/// The diagnostics the drain produces: one per message whose payload
/// would not serialize, in queue order.
pub open spec fn spec_drain_diags(records: Seq<DrainRecord>) -> Seq<Diagnostic>
    decreases records.len(),
{
    if records.len() == 0 {
        Seq::empty()
    } else {
        spec_drain_diags(records.drop_last()) + if records.last() is EncodeFailed {
            seq![Diagnostic::OutboundEncodeFailed]
        } else {
            Seq::empty()
        }
    }
}

/// Appending a record leaves the sent count of every earlier prefix
/// alone.
proof fn lemma_sent_count_push(records: Seq<DrainRecord>, x: DrainRecord, j: int)
    requires
        0 <= j <= records.len(),
    ensures
        spec_sent_count(records.push(x), j) == spec_sent_count(records, j),
    decreases j,
{
    if j > 0 {
        lemma_sent_count_push(records, x, j - 1);
        assert(records.push(x)[j - 1] == records[j - 1]);
    }
}

/// The sent count of a prefix never exceeds the prefix's length.
proof fn lemma_sent_count_bounds(records: Seq<DrainRecord>, j: int)
    requires
        0 <= j <= records.len(),
    ensures
        0 <= spec_sent_count(records, j) <= j,
    decreases j,
{
    if j > 0 {
        lemma_sent_count_bounds(records, j - 1);
    }
}

/// Send offsets never decrease along the records.
proof fn lemma_send_offset_mono<M: TSerializableMessage>(
    q: Seq<Message<M>>,
    records: Seq<DrainRecord>,
    nc: int,
    a: int,
    b: int,
)
    requires
        0 <= a <= b <= records.len(),
        nc >= 0,
    ensures
        spec_send_offset(q, records, nc, a) <= spec_send_offset(q, records, nc, b),
    decreases b - a,
{
    if a < b {
        lemma_send_offset_mono(q, records, nc, a, b - 1);
    }
}

/// Appending a record leaves the send offset of every earlier prefix
/// alone.
proof fn lemma_send_offset_push<M: TSerializableMessage>(
    q: Seq<Message<M>>,
    records: Seq<DrainRecord>,
    x: DrainRecord,
    nc: int,
    j: int,
)
    requires
        0 <= j <= records.len(),
    ensures
        spec_send_offset(q, records.push(x), nc, j) == spec_send_offset(q, records, nc, j),
    decreases j,
{
    if j > 0 {
        lemma_send_offset_push(q, records, x, nc, j - 1);
        assert(records.push(x)[j - 1] == records[j - 1]);
    }
}

/// Sent counts never decrease along the records.
proof fn lemma_sent_count_mono(records: Seq<DrainRecord>, a: int, b: int)
    requires
        0 <= a <= b <= records.len(),
    ensures
        spec_sent_count(records, a) <= spec_sent_count(records, b),
    decreases b - a,
{
    if a < b {
        lemma_sent_count_mono(records, a, b - 1);
    }
}

/// Law: the drain assigns delivery ids in enqueue order, strictly
/// increasing and never reused — of any two messages a drain sent, the
/// one earlier in the queue carries the strictly smaller id.
pub proof fn lemma_delivery_ids_strictly_increase<M: TSerializableMessage>(
    q: Seq<Message<M>>,
    records: Seq<DrainRecord>,
    next0: MessageId,
    j1: int,
    j2: int,
)
    requires
        spec_drain_records_ok(q, records, next0),
        0 <= j1 < j2 < records.len(),
        records[j1] is Sent,
        records[j2] is Sent,
    ensures
        records[j1]->Sent_id < records[j2]->Sent_id,
{
    lemma_sent_count_mono(records, j1 + 1, j2);
}

/// Law: a single-target message awaiting acknowledgment completes
/// exactly when its target acknowledges.  The handler firing happens in
/// the same step that removes the entry — once, for the target — and an
/// acknowledgment from any other peer fires nothing and keeps the entry
/// pending.
pub proof fn lemma_unicast_ack_fires_once<M: TSerializableMessage>(
    pre: Map<MessageId, MessageWaitingForAck<M>>,
    post: Map<MessageId, MessageWaitingForAck<M>>,
    from: FromPeerId,
    id: MessageId,
    target: PeerId,
    h: AckHandlerId,
    connected: Seq<PeerId>,
    acks: Seq<AckInvocation>,
    diags: Seq<Diagnostic>,
)
    requires
        spec_ack_effect(pre, post, from, id, connected, acks, diags),
        pre.contains_key(id),
        pre[id].message.to_peer == Some(target),
        pre[id].message.ack_handler == Some(h),
        !pre[id].peers_that_have_acked@.contains(target),
    ensures
        from == target ==> acks == seq![AckInvocation { handler: h, id, from_peer: target }]
            && !post.contains_key(id),
        from != target ==> acks.len() == 0 && post.contains_key(id)
            && post[id].peers_that_have_acked@ == pre[id].peers_that_have_acked@.push(from),
{
    let acked0 = pre[id].peers_that_have_acked@;
    let acked2 = acked0.push(from);
    if from == target {
        assert(acked2[acked0.len() as int] == target);
        assert(acked2.contains(target));
    } else {
        assert(!acked2.contains(target)) by {
            if acked2.contains(target) {
                let w = choose|w: int| 0 <= w < acked2.len() && acked2[w] == target;
                if w < acked0.len() {
                    assert(acked0[w] == target);
                    assert(acked0.contains(target));
                } else {
                    assert(acked2[w] == from);
                }
            }
        }
    }
}

/// Law: once a pending entry has completed and left the tracker, a
/// further acknowledgment carrying the same delivery id fires nothing,
/// changes nothing, and is surfaced as an ignorable diagnostic — the
/// handler can never fire twice for one delivery id.
pub proof fn lemma_ack_after_completion_fires_nothing<M: TSerializableMessage>(
    pre: Map<MessageId, MessageWaitingForAck<M>>,
    post: Map<MessageId, MessageWaitingForAck<M>>,
    from: FromPeerId,
    id: MessageId,
    connected: Seq<PeerId>,
    acks: Seq<AckInvocation>,
    diags: Seq<Diagnostic>,
)
    requires
        spec_ack_effect(pre, post, from, id, connected, acks, diags),
        !pre.contains_key(id),
    ensures
        acks.len() == 0,
        post == pre,
        diags == seq![Diagnostic::UnknownAckTarget(id)],
{
}

/// Law: a broadcast awaiting acknowledgment completes exactly when every
/// currently connected peer stands among the acknowledgments — the
/// connected set is judged at check time, not at send time, so a peer
/// that joined after the send is still required.  On completion the
/// handler fires exactly once per currently connected peer, in snapshot
/// order, and the entry leaves the tracker; otherwise nothing fires and
/// the entry stays, extended by the acking peer.
pub proof fn lemma_broadcast_ack_completion<M: TSerializableMessage>(
    pre: Map<MessageId, MessageWaitingForAck<M>>,
    post: Map<MessageId, MessageWaitingForAck<M>>,
    from: FromPeerId,
    id: MessageId,
    h: AckHandlerId,
    connected: Seq<PeerId>,
    acks: Seq<AckInvocation>,
    diags: Seq<Diagnostic>,
)
    requires
        spec_ack_effect(pre, post, from, id, connected, acks, diags),
        pre.contains_key(id),
        pre[id].message.to_peer is None,
        pre[id].message.ack_handler == Some(h),
    ensures
        spec_have_all_acked(None, pre[id].peers_that_have_acked@.push(from), connected) ==> {
            &&& acks.len() == connected.len()
            &&& forall|k: int|
                0 <= k < connected.len() ==> acks[k] == AckInvocation {
                    handler: h,
                    id,
                    from_peer: connected[k],
                }
            &&& !post.contains_key(id)
        },
        !spec_have_all_acked(None, pre[id].peers_that_have_acked@.push(from), connected) ==> {
            &&& acks.len() == 0
            &&& post.contains_key(id)
            &&& post[id].peers_that_have_acked@ == pre[id].peers_that_have_acked@.push(from)
        },
{
}

/// Law: handler firings happen only in the step that removes the entry.
/// Whenever recording an acknowledgment fires anything, every firing
/// carries that acknowledgment's delivery id, and the entry for that id
/// is gone afterwards — so no later acknowledgment can ever fire it
/// again.
pub proof fn lemma_handler_fires_only_at_removal<M: TSerializableMessage>(
    pre: Map<MessageId, MessageWaitingForAck<M>>,
    post: Map<MessageId, MessageWaitingForAck<M>>,
    from: FromPeerId,
    id: MessageId,
    connected: Seq<PeerId>,
    acks: Seq<AckInvocation>,
    diags: Seq<Diagnostic>,
)
    requires
        spec_ack_effect(pre, post, from, id, connected, acks, diags),
        acks.len() > 0,
    ensures
        forall|x: int| 0 <= x < acks.len() ==> (#[trigger] acks[x]).id == id,
        !post.contains_key(id),
{
}

/// Law: a frame that cannot be decoded is dropped whole — the registry,
/// the queue, the tracker and the id counter are untouched, nothing is
/// sent, no handler fires, and one diagnostic is surfaced; every other
/// frame of the same tick is processed as if it were not there.
pub proof fn lemma_malformed_frame_is_isolated<U: TUser, A: TApp<U, M>, M: TSerializableMessage>(
    pre: NetworkManager<U, A, M>,
    post: NetworkManager<U, A, M>,
    from: FromPeerId,
    frame: Seq<u8>,
    connected: Seq<PeerId>,
    sends: Seq<SendAction>,
    acks: Seq<AckInvocation>,
    diags: Seq<Diagnostic>,
)
    requires
        spec_frame_effect(pre, post, from, frame, connected, sends, acks, diags),
        spec_decode(frame) is Err,
    ensures
        spec_engine_state_unchanged(pre, post),
        sends.len() == 0,
        acks.len() == 0,
        diags == seq![Diagnostic::MalformedFrame(from)],
{
}

/// Appending a record leaves every earlier prefix's sent count and send
/// offset alone.
proof fn lemma_drain_push_prefix<M: TSerializableMessage>(
    q: Seq<Message<M>>,
    records: Seq<DrainRecord>,
    x: DrainRecord,
    nc: int,
)
    ensures
        forall|l: int|
            0 <= l <= records.len() ==> #[trigger] spec_sent_count(records.push(x), l)
                == spec_sent_count(records, l),
        forall|l: int|
            0 <= l <= records.len() ==> #[trigger] spec_send_offset(q, records.push(x), nc, l)
                == spec_send_offset(q, records, nc, l),
{
    assert forall|l: int| 0 <= l <= records.len() implies #[trigger] spec_sent_count(
        records.push(x),
        l,
    ) == spec_sent_count(records, l) by {
        lemma_sent_count_push(records, x, l);
    }
    assert forall|l: int| 0 <= l <= records.len() implies #[trigger] spec_send_offset(
        q,
        records.push(x),
        nc,
        l,
    ) == spec_send_offset(q, records, nc, l) by {
        lemma_send_offset_push::<M>(q, records, x, nc, l);
    }
}

/// Extending the send actions beyond what the earlier records placed, and
/// appending a record, leaves every earlier record's frames where they
/// stood.
proof fn lemma_sends_preserved<M: TSerializableMessage>(
    q: Seq<Message<M>>,
    records: Seq<DrainRecord>,
    x: DrainRecord,
    connected: Seq<PeerId>,
    sends_head: Seq<SendAction>,
    sends_new: Seq<SendAction>,
    base: int,
)
    requires
        sends_head.len() as int == base + spec_send_offset(
            q,
            records,
            connected.len() as int,
            records.len() as int,
        ),
        forall|idx: int|
            0 <= idx < sends_head.len() ==> #[trigger] sends_new[idx] == sends_head[idx],
        forall|l: int|
            0 <= l < records.len() ==> #[trigger] spec_sends_for_record(
                q,
                records,
                connected,
                sends_head,
                base,
                l,
            ),
        base >= 0,
    ensures
        forall|l: int|
            0 <= l < records.len() ==> #[trigger] spec_sends_for_record(
                q,
                records.push(x),
                connected,
                sends_new,
                base,
                l,
            ),
{
    let nc = connected.len() as int;
    lemma_drain_push_prefix(q, records, x, nc);
    assert forall|l: int| 0 <= l < records.len() implies #[trigger] spec_sends_for_record(
        q,
        records.push(x),
        connected,
        sends_new,
        base,
        l,
    ) by {
        assert(spec_sends_for_record(q, records, connected, sends_head, base, l));
        assert(records.push(x)[l] == records[l]);
        lemma_send_offset_mono(q, records, nc, 0, l);
        lemma_send_offset_mono(q, records, nc, l + 1, records.len() as int);
        match records[l] {
            DrainRecord::Sent { id: _, payload: _ } => {
                let off_l = base + spec_send_offset(q, records, nc, l);
                assert(off_l + spec_send_weight(q, records, nc, l) <= sends_head.len());
                match q[l].to_peer {
                    Some(_) => {
                        assert(sends_new[off_l] == sends_head[off_l]);
                    },
                    None => {
                        assert forall|k: int|
                            #![trigger connected[k]]
                            0 <= k < nc implies sends_new[off_l + k] == sends_head[off_l + k] by {}
                    },
                }
            },
            DrainRecord::EncodeFailed => {},
        }
    }
}

/// The dispatch engine.  One call to [`NetworkManager::tick`] reconciles
/// peer events against the registry, routes every inbound frame, drains
/// the outbound queue, and finally invokes the application's per-frame
/// hook.
pub struct NetworkManager<U: TUser, A: TApp<U, M>, M: TSerializableMessage> {
    pub app: A,
    pub users: UserList<U>,
    pub message_queue: MessageQueue<M>,
    pub messages_waiting_for_ack: HashMap<MessageId, MessageWaitingForAck<M>>,
    pub next_message_id: MessageId,
}

impl<U: TUser, A: TApp<U, M>, M: TSerializableMessage> NetworkManager<U, A, M> {
    /// The tracker's well-formedness: every pending entry sits under its
    /// own delivery id, carries an acknowledgment handler (entries are
    /// only made for messages that want one), and its id was assigned
    /// before the counter's current position — so a fresh id can never
    /// collide with a pending one.
    pub open spec fn wf(self) -> bool {
        forall|id: MessageId|
            self.messages_waiting_for_ack@.contains_key(id) ==> {
                &&& (#[trigger] self.messages_waiting_for_ack@[id]).message.ack_handler is Some
                &&& self.messages_waiting_for_ack@[id].message.id == id
                &&& id < self.next_message_id
            }
    }

    /// Reconcile the transport's connect and disconnect events against
    /// the registry, in order: a connect builds the peer's record and
    /// inserts it, then tells the application; a disconnect removes the
    /// record and tells the application, or surfaces a diagnostic when no
    /// record exists.  Nothing else of the engine is touched.
    pub fn process_peer_events(
        &mut self,
        peer_events: &Vec<(PeerId, PeerState)>,
        diagnostics: &mut Vec<Diagnostic>,
    )
        ensures
            old(diagnostics)@.is_prefix_of(final(diagnostics)@),
            spec_peer_events_effect(
                *old(self),
                *final(self),
                peer_events@,
                final(diagnostics)@.skip(old(diagnostics)@.len() as int),
            ),
    {
        let ghost dom0 = self.users@.dom();
        let ghost diags0 = diagnostics@;
        let mut i: usize = 0;
        while i < peer_events.len()
            invariant
                i <= peer_events.len(),
                self.users@.dom() == spec_users_after_events(
                    dom0,
                    peer_events@.subrange(0, i as int),
                ),
                forall|p: PeerId|
                    !spec_events_mention(peer_events@.subrange(0, i as int), p) ==> (
                    self.users@.contains_key(p) == old(self).users@.contains_key(p)) && (old(
                        self,
                    ).users@.contains_key(p) ==> self.users@[p] == old(self).users@[p]),
                self.message_queue == old(self).message_queue,
                self.messages_waiting_for_ack@ == old(self).messages_waiting_for_ack@,
                self.next_message_id == old(self).next_message_id,
                dom0 == old(self).users@.dom(),
                diagnostics@ == diags0 + spec_unknown_disconnects(
                    dom0,
                    peer_events@.subrange(0, i as int),
                ),
            decreases peer_events.len() - i,
        {
            let ghost pre = peer_events@.subrange(0, i as int);
            let ghost cur = peer_events@.subrange(0, i + 1);
            proof {
                assert(cur.drop_last() =~= pre);
                assert(cur.last() == peer_events@[i as int]);
            }
            let peer_id = peer_events[i].0;
            match peer_events[i].1 {
                PeerState::Connected => {
                    let user = U::new(peer_id);
                    self.users.insert(peer_id, user);
                    self.app.on_post_user_connected(peer_id);
                    proof {
                        assert(self.users@.dom() =~= spec_users_after_events(dom0, cur));
                    }
                },
                PeerState::Disconnected => {
                    match self.users.remove(&peer_id) {
                        Some(_) => {
                            self.app.on_post_user_disconnected(peer_id);
                        },
                        None => {
                            diagnostics.push(Diagnostic::UnknownDisconnect(peer_id));
                        },
                    }
                    proof {
                        assert(self.users@.dom() =~= spec_users_after_events(dom0, cur));
                    }
                },
            }
            proof {
                assert forall|p: PeerId| !spec_events_mention(cur, p) implies !spec_events_mention(
                    pre,
                    p,
                ) && p != peer_events@[i as int].0 by {
                    if spec_events_mention(pre, p) {
                        let j = choose|j: int|
                            0 <= j < pre.len() && (#[trigger] pre[j]).0 == p;
                        assert(cur[j] == pre[j]);
                        assert(spec_events_mention(cur, p));
                    }
                    assert(cur[i as int] == peer_events@[i as int]);
                }
                assert(diagnostics@ =~= diags0 + spec_unknown_disconnects(dom0, cur));
            }
            i += 1;
        }
        proof {
            assert(peer_events@.subrange(0, peer_events@.len() as int) =~= peer_events@);
            assert(diagnostics@.skip(diags0.len() as int) =~= spec_unknown_disconnects(
                dom0,
                peer_events@,
            ));
        }
    }

    /// Route one inbound frame, exactly as [`spec_frame_effect`] states:
    /// drop it with a diagnostic if it cannot be decoded; record an
    /// acknowledgment and fire the completed handler; answer a
    /// must-acknowledge message with exactly one reply envelope back to
    /// its sender; or hand a plain message to the application.
    pub fn process_inbound_frame(
        &mut self,
        from_peer: FromPeerId,
        frame: &Vec<u8>,
        connected_peers: &Vec<PeerId>,
        sends: &mut Vec<SendAction>,
        acks_fired: &mut Vec<AckInvocation>,
        diagnostics: &mut Vec<Diagnostic>,
    )
        requires
            old(self).wf(),
        ensures
            final(self).wf(),
            old(sends)@.is_prefix_of(final(sends)@),
            old(acks_fired)@.is_prefix_of(final(acks_fired)@),
            old(diagnostics)@.is_prefix_of(final(diagnostics)@),
            spec_frame_effect(
                *old(self),
                *final(self),
                from_peer,
                frame@,
                connected_peers@,
                final(sends)@.skip(old(sends)@.len() as int),
                final(acks_fired)@.skip(old(acks_fired)@.len() as int),
                final(diagnostics)@.skip(old(diagnostics)@.len() as int),
            ),
    {
        let ghost sends0 = sends@;
        let ghost acks0 = acks_fired@;
        let ghost diags0 = diagnostics@;
        let env = match crate::codec::decode(frame) {
            Ok(e) => e,
            Err(_) => {
                diagnostics.push(Diagnostic::MalformedFrame(from_peer));
                proof {
                    assert(diagnostics@.skip(diags0.len() as int) =~= seq![
                        Diagnostic::MalformedFrame(from_peer),
                    ]);
                    assert(sends@.skip(sends0.len() as int) =~= Seq::<SendAction>::empty());
                    assert(acks_fired@.skip(acks0.len() as int) =~= Seq::<AckInvocation>::empty());
                }
                return ;
            },
        };
        let m: M = match M::deserialize(&env.payload) {
            Ok(m) => m,
            Err(_) => {
                diagnostics.push(Diagnostic::MalformedFrame(from_peer));
                proof {
                    assert(diagnostics@.skip(diags0.len() as int) =~= seq![
                        Diagnostic::MalformedFrame(from_peer),
                    ]);
                    assert(sends@.skip(sends0.len() as int) =~= Seq::<SendAction>::empty());
                    assert(acks_fired@.skip(acks0.len() as int) =~= Seq::<AckInvocation>::empty());
                }
                return ;
            },
        };
        if env.is_ack {
            match self.messages_waiting_for_ack.remove(&env.id) {
                None => {
                    diagnostics.push(Diagnostic::UnknownAckTarget(env.id));
                    proof {
                        assert(diagnostics@.skip(diags0.len() as int) =~= seq![
                            Diagnostic::UnknownAckTarget(env.id),
                        ]);
                        assert(sends@.skip(sends0.len() as int) =~= Seq::<SendAction>::empty());
                        assert(acks_fired@.skip(acks0.len() as int) =~= Seq::<
                            AckInvocation,
                        >::empty());
                        assert(self.messages_waiting_for_ack@ =~= old(
                            self,
                        ).messages_waiting_for_ack@);
                    }
                },
                Some(mut entry) => {
                    entry.peers_that_have_acked.push(from_peer);
                    if entry.have_all_acked(connected_peers) {
                        if let Some(h) = entry.message.ack_handler {
                            if entry.message.to_peer.is_none() {
                                let ghost fired = Seq::new(
                                    connected_peers@.len(),
                                    |k: int|
                                        AckInvocation {
                                            handler: h,
                                            id: env.id,
                                            from_peer: connected_peers@[k],
                                        },
                                );
                                let mut k: usize = 0;
                                while k < connected_peers.len()
                                    invariant
                                        k <= connected_peers.len(),
                                        acks_fired@ == acks0 + fired.take(k as int),
                                        fired == Seq::new(
                                            connected_peers@.len(),
                                            |l: int|
                                                AckInvocation {
                                                    handler: h,
                                                    id: env.id,
                                                    from_peer: connected_peers@[l],
                                                },
                                        ),
                                        self.users == old(self).users,
                                        self.message_queue == old(self).message_queue,
                                        self.next_message_id == old(self).next_message_id,
                                        self.messages_waiting_for_ack@ == old(
                                            self,
                                        ).messages_waiting_for_ack@.remove(env.id),
                                        sends@ == sends0,
                                        diagnostics@ == diags0,
                                    decreases connected_peers.len() - k,
                                {
                                    let peer = connected_peers[k];
                                    self.app.on_ack(h, env.id, peer, &m);
                                    acks_fired.push(
                                        AckInvocation { handler: h, id: env.id, from_peer: peer },
                                    );
                                    proof {
                                        assert(fired.take(k + 1) =~= fired.take(k as int).push(
                                            fired[k as int],
                                        ));
                                    }
                                    k += 1;
                                }
                                proof {
                                    assert(fired.take(connected_peers@.len() as int) =~= fired);
                                    assert(acks_fired@.skip(acks0.len() as int) =~= fired);
                                }
                            } else {
                                self.app.on_ack(h, env.id, from_peer, &m);
                                acks_fired.push(
                                    AckInvocation { handler: h, id: env.id, from_peer },
                                );
                                proof {
                                    assert(acks_fired@.skip(acks0.len() as int) =~= seq![
                                        AckInvocation { handler: h, id: env.id, from_peer },
                                    ]);
                                }
                            }
                        }
                        proof {
                            assert(sends@.skip(sends0.len() as int) =~= Seq::<SendAction>::empty());
                            assert(diagnostics@.skip(diags0.len() as int) =~= Seq::<
                                Diagnostic,
                            >::empty());
                        }
                    } else {
                        self.messages_waiting_for_ack.insert(env.id, entry);
                        proof {
                            let pre_map = old(self).messages_waiting_for_ack@;
                            let post_map = self.messages_waiting_for_ack@;
                            assert(post_map.dom() =~= pre_map.dom());
                            assert(sends@.skip(sends0.len() as int) =~= Seq::<SendAction>::empty());
                            assert(acks_fired@.skip(acks0.len() as int) =~= Seq::<
                                AckInvocation,
                            >::empty());
                            assert(diagnostics@.skip(diags0.len() as int) =~= Seq::<
                                Diagnostic,
                            >::empty());
                        }
                    }
                },
            }
        } else if env.must_ack {
            let reply = self.app.receive_must_ack(env.id, from_peer, &m);
            match reply.serialize() {
                Ok(reply_bytes) => {
                    let frame_out = crate::codec::encode(env.id, true, false, &reply_bytes);
                    proof {
                        assert(frame_out@ == spec_encode(env.id, true, false, reply_bytes@));
                    }
                    sends.push(SendAction { to_peer: from_peer, bytes: frame_out });
                    proof {
                        let appended = sends@.skip(sends0.len() as int);
                        assert(appended.len() == 1);
                        assert(appended[0].to_peer == from_peer);
                        assert(appended[0].bytes@ == spec_encode(env.id, true, false, reply_bytes@));
                        assert(spec_is_reply_to(appended[0], env.id));
                        assert(acks_fired@.skip(acks0.len() as int) =~= Seq::<
                            AckInvocation,
                        >::empty());
                        assert(diagnostics@.skip(diags0.len() as int) =~= Seq::<
                            Diagnostic,
                        >::empty());
                    }
                },
                Err(_) => {
                    diagnostics.push(Diagnostic::ReplyEncodeFailed(env.id));
                    proof {
                        assert(diagnostics@.skip(diags0.len() as int) =~= seq![
                            Diagnostic::ReplyEncodeFailed(env.id),
                        ]);
                        assert(sends@.skip(sends0.len() as int) =~= Seq::<SendAction>::empty());
                        assert(acks_fired@.skip(acks0.len() as int) =~= Seq::<
                            AckInvocation,
                        >::empty());
                    }
                },
            }
        } else {
            self.app.receive(env.id, from_peer, &m);
            proof {
                assert(sends@.skip(sends0.len() as int) =~= Seq::<SendAction>::empty());
                assert(acks_fired@.skip(acks0.len() as int) =~= Seq::<AckInvocation>::empty());
                assert(diagnostics@.skip(diags0.len() as int) =~= Seq::<Diagnostic>::empty());
            }
        }
    }

    /// Drain the outbound queue, in enqueue order: assign each message
    /// the next delivery id, encode its envelope (must-acknowledge set
    /// exactly when the message wants acknowledgment), send it to its
    /// single target or to every peer of the connected snapshot, and
    /// enter it into the tracker when it carries an acknowledgment
    /// handler.  A message whose payload will not serialize is dropped
    /// with a diagnostic, consuming no delivery id.  The record list says
    /// what became of each message, in queue order.
    #[verifier::rlimit(100)]
    #[verifier::spinoff_prover]
    pub fn drain_outbound(
        &mut self,
        connected_peers: &Vec<PeerId>,
        sends: &mut Vec<SendAction>,
        drained: &mut Vec<DrainRecord>,
        diagnostics: &mut Vec<Diagnostic>,
    )
        requires
            old(self).wf(),
            old(drained)@.len() == 0,
            old(self).next_message_id + old(self).message_queue.messages@.len() <= u64::MAX,
        ensures
            final(self).wf(),
            final(self).app == old(self).app,
            final(self).users == old(self).users,
            final(self).message_queue.messages@.len() == 0,
            old(sends)@.is_prefix_of(final(sends)@),
            final(drained)@.len() == old(self).message_queue.messages@.len(),
            spec_drain_records_ok(
                old(self).message_queue.messages@,
                final(drained)@,
                old(self).next_message_id,
            ),
            final(self).next_message_id as int == old(self).next_message_id + spec_sent_count(
                final(drained)@,
                final(drained)@.len() as int,
            ),
            spec_drain_sends_ok(
                old(self).message_queue.messages@,
                final(drained)@,
                connected_peers@,
                final(sends)@,
                old(sends)@.len() as int,
            ),
            spec_drain_tracker_ok(
                old(self).message_queue.messages@,
                final(drained)@,
                old(self).messages_waiting_for_ack@,
                final(self).messages_waiting_for_ack@,
            ),
            final(diagnostics)@ == old(diagnostics)@ + spec_drain_diags(final(drained)@),
    {
        let ghost q0 = self.message_queue.messages@;
        let ghost next0 = self.next_message_id;
        let ghost t0 = self.messages_waiting_for_ack@;
        let ghost sends0 = sends@;
        let ghost diags0 = diagnostics@;
        let ghost nc = connected_peers@.len() as int;
        let mut queue = self.message_queue.drain();
        while queue.len() > 0
            invariant
                drained@.len() + queue@.len() == q0.len(),
                queue@ == q0.skip(drained@.len() as int),
                connected_peers@.len() as int == nc,
                q0 == old(self).message_queue.messages@,
                next0 == old(self).next_message_id,
                t0 == old(self).messages_waiting_for_ack@,
                sends0 == old(sends)@,
                diags0 == old(diagnostics)@,
                next0 + q0.len() <= u64::MAX,
                self.wf(),
                self.app == old(self).app,
                self.users == old(self).users,
                self.message_queue.messages@.len() == 0,
                self.next_message_id as int == next0 + spec_sent_count(
                    drained@,
                    drained@.len() as int,
                ),
                forall|j: int|
                    0 <= j < drained@.len() ==> match #[trigger] drained@[j] {
                        DrainRecord::Sent { id, payload } => {
                            &&& id as int == next0 + spec_sent_count(drained@, j)
                            &&& q0[j].data.spec_ser() == Some(payload@)
                        },
                        DrainRecord::EncodeFailed => q0[j].data.spec_ser() is None,
                    },
                sends0.is_prefix_of(sends@),
                spec_drain_sends_ok(q0, drained@, connected_peers@, sends@, sends0.len() as int),
                forall|kk: MessageId|
                    #![trigger t0.contains_key(kk)]
                    t0.contains_key(kk) ==> self.messages_waiting_for_ack@.contains_key(kk)
                        && self.messages_waiting_for_ack@[kk] == t0[kk],
                forall|j: int|
                    0 <= j < drained@.len() ==> match #[trigger] drained@[j] {
                        DrainRecord::Sent { id, payload: _ } => q0[j].ack_handler is Some
                            ==> {
                            &&& self.messages_waiting_for_ack@.contains_key(id)
                            &&& self.messages_waiting_for_ack@[id].message.id == id
                            &&& self.messages_waiting_for_ack@[id].message.to_peer == q0[j].to_peer
                            &&& self.messages_waiting_for_ack@[id].message.data == q0[j].data
                            &&& self.messages_waiting_for_ack@[id].message.ack_handler
                                == q0[j].ack_handler
                            &&& self.messages_waiting_for_ack@[id].peers_that_have_acked@.len()
                                == 0
                        },
                        DrainRecord::EncodeFailed => true,
                    },
                forall|kk: MessageId|
                    self.messages_waiting_for_ack@.contains_key(kk) ==> t0.contains_key(kk)
                        || spec_records_sent_with_handler(q0, drained@, kk),
                diagnostics@ == diags0 + spec_drain_diags(drained@),
            decreases queue.len(),
        {
            let ghost j = drained@.len() as int;
            let ghost rec0 = drained@;
            let ghost t_head = self.messages_waiting_for_ack@;
            let ghost sends_head = sends@;
            let ghost next_head = self.next_message_id;
            proof {
                lemma_sent_count_bounds(rec0, j);
                assert(q0.skip(j)[0] == q0[j]);
                assert(q0.skip(j).remove(0) =~= q0.skip(j + 1));
                assert(forall|kk: MessageId|
                    #![trigger t0.contains_key(kk)]
                    t0.contains_key(kk) ==> t_head.contains_key(kk) && t_head[kk] == t0[kk]);
                assert(forall|kk: MessageId|
                    #![trigger t_head.contains_key(kk)]
                    t_head.contains_key(kk) ==> t_head[kk].message.ack_handler is Some
                        && t_head[kk].message.id == kk && kk < next_head);
            }
            let mut message = queue.remove(0);
            message.id = self.next_message_id;
            let result = message.data.serialize();
            proof {
                assert(message.data == q0[j].data);
            }
            match result {
                Err(_) => {
                    drained.push(DrainRecord::EncodeFailed);
                    diagnostics.push(Diagnostic::OutboundEncodeFailed);
                    proof {
                        let rec1 = drained@;
                        let x = DrainRecord::EncodeFailed;
                        let cp = connected_peers@;
                        let base = sends0.len() as int;
                        assert(rec1 == rec0.push(x));
                        assert(rec1.drop_last() =~= rec0);
                        assert(spec_drain_diags(rec1) =~= spec_drain_diags(rec0).push(
                            Diagnostic::OutboundEncodeFailed,
                        ));
                        assert(diagnostics@ =~= diags0 + spec_drain_diags(rec1));
                        lemma_drain_push_prefix(q0, rec0, x, nc);
                        assert(spec_sent_count(rec0.push(x), j) == spec_sent_count(rec0, j));
                        assert(spec_send_offset(q0, rec0.push(x), nc, j) == spec_send_offset(
                            q0,
                            rec0,
                            nc,
                            j,
                        ));
                        assert(spec_send_offset(q0, rec1, nc, j + 1) == spec_send_offset(
                            q0,
                            rec0,
                            nc,
                            j,
                        ));
                        assert forall|idx: int| 0 <= idx < sends_head.len() implies sends@[idx]
                            == sends_head[idx] by {}
                        lemma_sends_preserved(q0, rec0, x, cp, sends_head, sends@, base);
                        assert forall|l: int| 0 <= l < rec1.len() implies spec_sends_for_record(
                            q0,
                            rec1,
                            cp,
                            sends@,
                            base,
                            l,
                        ) by {
                            if l < j {
                                assert(spec_sends_for_record(q0, rec0.push(x), cp, sends@, base, l));
                            }
                        }
                        assert forall|kk: MessageId|
                            self.messages_waiting_for_ack@.contains_key(kk) implies t0.contains_key(
                            kk,
                        ) || spec_records_sent_with_handler(q0, rec1, kk) by {
                            if !t0.contains_key(kk) {
                                let w = choose|w: int|
                                    0 <= w < rec0.len() && ((#[trigger] rec0[w])
                                        matches DrainRecord::Sent { id: id2, payload: _ } && id2
                                        == kk && q0[w].ack_handler is Some);
                                assert(rec1[w] == rec0[w]);
                            }
                        }
                    }
                },
                Ok(payload_bytes) => {
                    let must_ack = message.ack_handler.is_some();
                    let id = self.next_message_id;
                    let frame = crate::codec::encode(id, false, must_ack, &payload_bytes);
                    let ghost pre_sends = sends@;
                    match message.to_peer {
                        Some(p) => {
                            sends.push(SendAction { to_peer: p, bytes: frame });
                        },
                        None => {
                            let mut k: usize = 0;
                            while k < connected_peers.len()
                                invariant
                                    k <= connected_peers.len(),
                                    connected_peers@.len() as int == nc,
                                    sends@.len() == pre_sends.len() + k,
                                    forall|idx: int|
                                        0 <= idx < pre_sends.len() ==> #[trigger] sends@[idx]
                                            == pre_sends[idx],
                                    frame@ == spec_encode(id, false, must_ack, payload_bytes@),
                                    forall|l: int|
                                        #![trigger connected_peers@[l]]
                                        0 <= l < k ==> sends@[pre_sends.len() + l].to_peer
                                            == connected_peers@[l] && sends@[pre_sends.len()
                                            + l].bytes@ == frame@,
                                decreases connected_peers.len() - k,
                            {
                                sends.push(
                                    SendAction {
                                        to_peer: connected_peers[k],
                                        bytes: clone_bytes(&frame),
                                    },
                                );
                                k += 1;
                            }
                        },
                    }
                    self.next_message_id = self.next_message_id + 1;
                    if message.ack_handler.is_some() {
                        self.messages_waiting_for_ack.insert(
                            id,
                            MessageWaitingForAck { message, peers_that_have_acked: Vec::new() },
                        );
                    }
                    drained.push(DrainRecord::Sent { id, payload: payload_bytes });
                    proof {
                        let rec1 = drained@;
                        let x = rec1[j];
                        let cp = connected_peers@;
                        let base = sends0.len() as int;
                        assert(rec1 == rec0.push(x));
                        assert(rec1.drop_last() =~= rec0);
                        assert(spec_drain_diags(rec1) =~= spec_drain_diags(rec0));
                        assert(diagnostics@ =~= diags0 + spec_drain_diags(rec1));
                        lemma_drain_push_prefix(q0, rec0, x, nc);
                        assert(spec_sent_count(rec0.push(x), j) == spec_sent_count(rec0, j));
                        assert(spec_send_offset(q0, rec0.push(x), nc, j) == spec_send_offset(
                            q0,
                            rec0,
                            nc,
                            j,
                        ));
                        assert(spec_sent_count(rec1, j + 1) == spec_sent_count(rec0, j) + 1);
                        assert(spec_send_offset(q0, rec1, nc, j + 1) == spec_send_offset(
                            q0,
                            rec0,
                            nc,
                            j,
                        ) + spec_send_weight(q0, rec1, nc, j));
                        // every send the earlier messages placed is still at its index
                        assert(sends_head.len() as int == base + spec_send_offset(
                            q0,
                            rec0,
                            nc,
                            j,
                        ));
                        assert forall|idx: int| 0 <= idx < sends_head.len() implies sends@[idx]
                            == sends_head[idx] by {}
                        lemma_sends_preserved(q0, rec0, x, cp, sends_head, sends@, base);
                        // the message's own frames stand at its offset
                        let off_j = base + spec_send_offset(q0, rec1, nc, j);
                        assert(off_j == sends_head.len() as int);
                        assert(message.ack_handler == q0[j].ack_handler);
                        assert(message.to_peer == q0[j].to_peer);
                        assert(frame@ == spec_encode(
                            id,
                            false,
                            q0[j].ack_handler is Some,
                            payload_bytes@,
                        ));
                        assert(rec1[j] matches DrainRecord::Sent { id: id9, payload: p9 } && id9
                            == id && p9@ == payload_bytes@);
                        assert(pre_sends == sends_head);
                        if q0[j].to_peer is None {
                            assert(sends@.len() == sends_head.len() + cp.len());
                            assert forall|k: int|
                                #![trigger cp[k]]
                                0 <= k < cp.len() implies sends@[sends_head.len() + k].to_peer
                                == cp[k] && sends@[sends_head.len() + k].bytes@ == spec_encode(
                                id,
                                false,
                                q0[j].ack_handler is Some,
                                payload_bytes@,
                            ) by {
                                assert(sends@[pre_sends.len() + k].to_peer == cp[k]);
                                assert(sends@[pre_sends.len() + k].bytes@ == frame@);
                            }
                            lemma_sends_new_record(
                                q0,
                                rec0,
                                rec1,
                                cp,
                                sends_head,
                                sends@,
                                base,
                                j,
                                id,
                                payload_bytes@,
                            );
                        } else {
                            assert(sends@.len() == sends_head.len() + 1);
                            assert(sends@.last().to_peer == q0[j].to_peer->0);
                            assert(sends@.last().bytes@ == frame@);
                            lemma_sends_new_record(
                                q0,
                                rec0,
                                rec1,
                                cp,
                                sends_head,
                                sends@,
                                base,
                                j,
                                id,
                                payload_bytes@,
                            );
                        }
                        assert forall|l: int| 0 <= l < rec1.len() implies spec_sends_for_record(
                            q0,
                            rec1,
                            cp,
                            sends@,
                            base,
                            l,
                        ) by {
                            if l < j {
                                assert(spec_sends_for_record(q0, rec0.push(x), cp, sends@, base, l));
                            } else {
                                assert(spec_sends_for_record(q0, rec1, cp, sends@, base, j));
                            }
                        }
                        // entries already pending stay; the new entry is fresh
                        assert forall|kk: MessageId| t0.contains_key(kk) implies
                            self.messages_waiting_for_ack@.contains_key(kk)
                            && self.messages_waiting_for_ack@[kk] == t0[kk] by {
                            assert(t_head.contains_key(kk) && t_head[kk] == t0[kk]);
                            assert(kk < id);
                        }
                        assert forall|l: int|
                            0 <= l < rec1.len() && ((#[trigger] rec1[l]) matches DrainRecord::Sent {
                                id: id2,
                                payload: _,
                            } && q0[l].ack_handler is Some) implies {
                            let id2 = rec1[l]->Sent_id;
                            &&& self.messages_waiting_for_ack@.contains_key(id2)
                            &&& self.messages_waiting_for_ack@[id2].message.id == id2
                            &&& self.messages_waiting_for_ack@[id2].message.to_peer == q0[l].to_peer
                            &&& self.messages_waiting_for_ack@[id2].message.data == q0[l].data
                            &&& self.messages_waiting_for_ack@[id2].message.ack_handler
                                == q0[l].ack_handler
                            &&& self.messages_waiting_for_ack@[id2].peers_that_have_acked@.len()
                                == 0
                        } by {
                            let id2 = rec1[l]->Sent_id;
                            if l < j {
                                assert(rec1[l] == rec0[l]);
                                assert(t_head.contains_key(id2) && t_head[id2].message.id == id2);
                                assert(id2 < id);
                            }
                        }
                        assert forall|kk: MessageId|
                            self.messages_waiting_for_ack@.contains_key(kk) implies t0.contains_key(
                            kk,
                        ) || spec_records_sent_with_handler(q0, rec1, kk) by {
                            if kk == id && q0[j].ack_handler is Some {
                                assert(rec1[j] matches DrainRecord::Sent { id: id2, payload: _ }
                                    && id2 == kk && q0[j].ack_handler is Some);
                            } else if !t0.contains_key(kk) {
                                assert(t_head.contains_key(kk));
                                let w = choose|w: int|
                                    0 <= w < rec0.len() && ((#[trigger] rec0[w])
                                        matches DrainRecord::Sent { id: id2, payload: _ } && id2
                                        == kk && q0[w].ack_handler is Some);
                                assert(rec1[w] == rec0[w]);
                            }
                        }
                    }
                },
            }
        }
        proof {
            assert(drained@.len() == q0.len());
            assert(spec_drain_records_ok(q0, drained@, next0));
            assert(spec_drain_tracker_ok(q0, drained@, t0, self.messages_waiting_for_ack@));
        }
    }

    /// One tick of the engine, executed synchronously and in this fixed
    /// order: reconcile peer events against the registry; route every
    /// inbound frame against the one connected-peer snapshot taken for
    /// this tick; drain the outbound queue, assigning strictly
    /// increasing delivery ids in enqueue order; and finally invoke the
    /// application's per-frame hook, which may refill the queue for the
    /// next tick.  The outcome holds every frame to transmit — the
    /// acknowledgment replies first, then the drained messages' frames
    /// in enqueue order — beside the handler firings, the drain records
    /// and the diagnostics, and a ghost trace binding each inbound
    /// frame's effect ([`spec_frame_effect`]) to its slice of them.
    #[verifier::rlimit(100)]
    #[verifier::spinoff_prover]
    pub fn tick(
        &mut self,
        delta_ms: u64,
        peer_events: &Vec<(PeerId, PeerState)>,
        inbound: &Vec<(FromPeerId, Vec<u8>)>,
        connected_peers: &Vec<PeerId>,
    ) -> (outcome: TickOutcome<U, A, M>)
        requires
            old(self).wf(),
            old(self).next_message_id + old(self).message_queue.messages@.len() <= u64::MAX,
        ensures
            final(self).wf(),
            final(self).users@.dom() == spec_users_after_events(
                old(self).users@.dom(),
                peer_events@,
            ),
            forall|p: PeerId|
                !spec_events_mention(peer_events@, p) ==> (final(self).users@.contains_key(p)
                    == old(self).users@.contains_key(p)) && (old(self).users@.contains_key(p)
                    ==> final(self).users@[p] == old(self).users@[p]),
            outcome.drained@.len() == old(self).message_queue.messages@.len(),
            spec_drain_records_ok(
                old(self).message_queue.messages@,
                outcome.drained@,
                old(self).next_message_id,
            ),
            final(self).next_message_id as int == old(self).next_message_id + spec_sent_count(
                outcome.drained@,
                outcome.drained@.len() as int,
            ),
            spec_drain_sends_ok(
                old(self).message_queue.messages@,
                outcome.drained@,
                connected_peers@,
                outcome.sends@,
                outcome.sends@.len() - spec_send_offset(
                    old(self).message_queue.messages@,
                    outcome.drained@,
                    connected_peers@.len() as int,
                    outcome.drained@.len() as int,
                ),
            ),
            forall|l: int|
                0 <= l < outcome.sends@.len() - spec_send_offset(
                    old(self).message_queue.messages@,
                    outcome.drained@,
                    connected_peers@.len() as int,
                    outcome.drained@.len() as int,
                ) ==> spec_is_reply(#[trigger] outcome.sends@[l]),
            outcome.trace@.states.len() == inbound@.len() + 1,
            outcome.trace@.reply_cuts.len() == inbound@.len() + 1,
            outcome.trace@.ack_cuts.len() == inbound@.len() + 1,
            outcome.trace@.diag_cuts.len() == inbound@.len() + 1,
            outcome.trace@.reply_cuts[0] == 0,
            outcome.trace@.ack_cuts[0] == 0,
            outcome.trace@.reply_cuts[inbound@.len() as int] == outcome.sends@.len()
                - spec_send_offset(
                old(self).message_queue.messages@,
                outcome.drained@,
                connected_peers@.len() as int,
                outcome.drained@.len() as int,
            ),
            outcome.trace@.ack_cuts[inbound@.len() as int] == outcome.acks_fired@.len() as int,
            spec_peer_events_effect(
                *old(self),
                outcome.trace@.states[0],
                peer_events@,
                outcome.diagnostics@.take(outcome.trace@.diag_cuts[0]),
            ),
            outcome.diagnostics@.skip(outcome.trace@.diag_cuts[inbound@.len() as int])
                == spec_drain_diags(outcome.drained@),
            forall|jj: int|
                #![trigger outcome.trace@.reply_cuts[jj]]
                0 <= jj <= inbound@.len() ==> 0 <= outcome.trace@.reply_cuts[jj]
                    <= outcome.sends@.len() && 0 <= outcome.trace@.ack_cuts[jj]
                    <= outcome.acks_fired@.len() && 0 <= outcome.trace@.diag_cuts[jj]
                    <= outcome.diagnostics@.len(),
            forall|jj: int|
                #![trigger outcome.trace@.reply_cuts[jj + 1]]
                0 <= jj < inbound@.len() ==> outcome.trace@.reply_cuts[jj]
                    <= outcome.trace@.reply_cuts[jj + 1] && outcome.trace@.ack_cuts[jj]
                    <= outcome.trace@.ack_cuts[jj + 1] && outcome.trace@.diag_cuts[jj]
                    <= outcome.trace@.diag_cuts[jj + 1],
            forall|jj: int|
                #![trigger outcome.trace@.states[jj]]
                0 <= jj < inbound@.len() ==> spec_frame_effect(
                    outcome.trace@.states[jj],
                    outcome.trace@.states[jj + 1],
                    inbound@[jj].0,
                    inbound@[jj].1@,
                    connected_peers@,
                    outcome.sends@.subrange(
                        outcome.trace@.reply_cuts[jj],
                        outcome.trace@.reply_cuts[jj + 1],
                    ),
                    outcome.acks_fired@.subrange(
                        outcome.trace@.ack_cuts[jj],
                        outcome.trace@.ack_cuts[jj + 1],
                    ),
                    outcome.diagnostics@.subrange(
                        outcome.trace@.diag_cuts[jj],
                        outcome.trace@.diag_cuts[jj + 1],
                    ),
                ),
            spec_drain_tracker_ok(
                old(self).message_queue.messages@,
                outcome.drained@,
                outcome.trace@.states[inbound@.len() as int].messages_waiting_for_ack@,
                final(self).messages_waiting_for_ack@,
            ),
    {
        let ghost q0 = self.message_queue.messages@;
        let ghost next0 = self.next_message_id;
        let mut sends: Vec<SendAction> = Vec::new();
        let mut acks_fired: Vec<AckInvocation> = Vec::new();
        let mut drained: Vec<DrainRecord> = Vec::new();
        let mut diagnostics: Vec<Diagnostic> = Vec::new();
        self.process_peer_events(peer_events, &mut diagnostics);
        let ghost s1 = *self;
        let ghost diags1 = diagnostics@;
        let ghost mut states: Seq<NetworkManager<U, A, M>> = seq![s1];
        let ghost mut rcuts: Seq<int> = seq![0int];
        let ghost mut acuts: Seq<int> = seq![0int];
        let ghost mut dcuts: Seq<int> = seq![diags1.len() as int];
        proof {
            assert(diagnostics@.skip(0) =~= diags1);
        }
        let mut i: usize = 0;
        while i < inbound.len()
            invariant
                i <= inbound.len(),
                self.wf(),
                self.users == s1.users,
                spec_peer_events_effect(*old(self), s1, peer_events@, diags1),
                self.message_queue == old(self).message_queue,
                self.next_message_id == old(self).next_message_id,
                q0 == old(self).message_queue.messages@,
                next0 == old(self).next_message_id,
                next0 + q0.len() <= u64::MAX,
                drained@.len() == 0,
                forall|l: int| 0 <= l < sends@.len() ==> spec_is_reply(#[trigger] sends@[l]),
                diags1.is_prefix_of(diagnostics@),
                states.len() == i + 1,
                rcuts.len() == i + 1,
                acuts.len() == i + 1,
                dcuts.len() == i + 1,
                states[0] == s1,
                rcuts[0] == 0,
                acuts[0] == 0,
                dcuts[0] == diags1.len() as int,
                states[i as int] == *self,
                rcuts[i as int] == sends@.len() as int,
                acuts[i as int] == acks_fired@.len() as int,
                dcuts[i as int] == diagnostics@.len() as int,
                forall|jj: int|
                    #![trigger rcuts[jj]]
                    0 <= jj <= i ==> 0 <= rcuts[jj] <= sends@.len() && 0 <= acuts[jj]
                        <= acks_fired@.len() && 0 <= dcuts[jj] <= diagnostics@.len(),
                forall|jj: int|
                    #![trigger rcuts[jj + 1]]
                    0 <= jj < i ==> rcuts[jj] <= rcuts[jj + 1] && acuts[jj] <= acuts[jj + 1]
                        && dcuts[jj] <= dcuts[jj + 1],
                forall|jj: int|
                    #![trigger states[jj]]
                    0 <= jj < i ==> spec_frame_effect(
                        states[jj],
                        states[jj + 1],
                        inbound@[jj].0,
                        inbound@[jj].1@,
                        connected_peers@,
                        sends@.subrange(rcuts[jj], rcuts[jj + 1]),
                        acks_fired@.subrange(acuts[jj], acuts[jj + 1]),
                        diagnostics@.subrange(dcuts[jj], dcuts[jj + 1]),
                    ),
            decreases inbound.len() - i,
        {
            let pair = &inbound[i];
            let ghost m_pre = *self;
            let ghost sends_pre = sends@;
            let ghost acks_pre = acks_fired@;
            let ghost diags_pre = diagnostics@;
            let ghost st0 = states;
            let ghost rc0 = rcuts;
            let ghost ac0 = acuts;
            let ghost dc0 = dcuts;
            self.process_inbound_frame(
                pair.0,
                &pair.1,
                connected_peers,
                &mut sends,
                &mut acks_fired,
                &mut diagnostics,
            );
            proof {
                let appended = sends@.skip(sends_pre.len() as int);
                assert forall|l: int| 0 <= l < sends@.len() implies spec_is_reply(
                    #[trigger] sends@[l],
                ) by {
                    if l < sends_pre.len() {
                        assert(sends@[l] == sends_pre[l]);
                        assert(spec_is_reply(sends_pre[l]));
                    } else {
                        assert(sends@[l] == appended[l - sends_pre.len()]);
                        match spec_decode(pair.1@) {
                            Ok(env) => {
                                assert(spec_is_reply_to(appended[0], env.id));
                            },
                            Err(_) => {},
                        }
                    }
                }
                assert(self.users == m_pre.users);
                // extend the trace by this frame
                states = states.push(*self);
                rcuts = rcuts.push(sends@.len() as int);
                acuts = acuts.push(acks_fired@.len() as int);
                dcuts = dcuts.push(diagnostics@.len() as int);
                assert(sends@.subrange(sends_pre.len() as int, sends@.len() as int)
                    =~= sends@.skip(sends_pre.len() as int));
                assert(acks_fired@.subrange(acks_pre.len() as int, acks_fired@.len() as int)
                    =~= acks_fired@.skip(acks_pre.len() as int));
                assert(diagnostics@.subrange(diags_pre.len() as int, diagnostics@.len() as int)
                    =~= diagnostics@.skip(diags_pre.len() as int));
                assert(spec_frame_effect(
                    states[i as int],
                    states[i + 1],
                    inbound@[i as int].0,
                    inbound@[i as int].1@,
                    connected_peers@,
                    sends@.subrange(rcuts[i as int], rcuts[i + 1]),
                    acks_fired@.subrange(acuts[i as int], acuts[i + 1]),
                    diagnostics@.subrange(dcuts[i as int], dcuts[i + 1]),
                ));
                assert forall|jj: int|
                    #![trigger rcuts[jj]]
                    0 <= jj <= i + 1 implies 0 <= rcuts[jj] <= sends@.len() && 0 <= acuts[jj]
                    <= acks_fired@.len() && 0 <= dcuts[jj] <= diagnostics@.len() by {
                    if jj <= i {
                        assert(rcuts[jj] == rc0[jj]);
                        assert(acuts[jj] == ac0[jj]);
                        assert(dcuts[jj] == dc0[jj]);
                    }
                }
                assert forall|jj: int|
                    #![trigger rcuts[jj + 1]]
                    0 <= jj < i + 1 implies rcuts[jj] <= rcuts[jj + 1] && acuts[jj] <= acuts[jj
                    + 1] && dcuts[jj] <= dcuts[jj + 1] by {
                    if jj < i {
                        assert(rcuts[jj] == rc0[jj] && rcuts[jj + 1] == rc0[jj + 1]);
                        assert(acuts[jj] == ac0[jj] && acuts[jj + 1] == ac0[jj + 1]);
                        assert(dcuts[jj] == dc0[jj] && dcuts[jj + 1] == dc0[jj + 1]);
                    }
                }
                assert forall|idx: int|
                    0 <= idx < sends_pre.len() implies #[trigger] sends@[idx]
                    == sends_pre[idx] by {}
                assert forall|idx: int|
                    0 <= idx < acks_pre.len() implies #[trigger] acks_fired@[idx]
                    == acks_pre[idx] by {}
                assert forall|idx: int|
                    0 <= idx < diags_pre.len() implies #[trigger] diagnostics@[idx]
                    == diags_pre[idx] by {}
                lemma_trace_slices_stable(
                    inbound@,
                    connected_peers@,
                    i as int,
                    st0,
                    states,
                    rc0,
                    rcuts,
                    ac0,
                    acuts,
                    dc0,
                    dcuts,
                    sends_pre,
                    sends@,
                    acks_pre,
                    acks_fired@,
                    diags_pre,
                    diagnostics@,
                );
                assert forall|jj: int|
                    #![trigger states[jj]]
                    0 <= jj < i + 1 implies spec_frame_effect(
                    states[jj],
                    states[jj + 1],
                    inbound@[jj].0,
                    inbound@[jj].1@,
                    connected_peers@,
                    sends@.subrange(rcuts[jj], rcuts[jj + 1]),
                    acks_fired@.subrange(acuts[jj], acuts[jj + 1]),
                    diagnostics@.subrange(dcuts[jj], dcuts[jj + 1]),
                ) by {}
            }
            i += 1;
        }
        let ghost s2 = *self;
        let ghost sends2 = sends@;
        let ghost acks2 = acks_fired@;
        let ghost diags2 = diagnostics@;
        proof {
            assert(states[i as int] == s2);
        }
        self.drain_outbound(connected_peers, &mut sends, &mut drained, &mut diagnostics);
        self.app.tick(delta_ms, &mut self.message_queue);
        proof {
            let n = inbound@.len() as int;
            let nc = connected_peers@.len() as int;
            let total = spec_send_offset(q0, drained@, nc, drained@.len() as int);
            assert forall|l: int| 0 <= l < sends@.len() - total implies spec_is_reply(
                #[trigger] sends@[l],
            ) by {
                assert(sends@[l] == sends@.subrange(0, (sends@.len() - total) as int)[l]);
            }
            // the trace's slices survive the drain's appends untouched
            assert(sends@.len() - total == sends2.len());
            assert(diagnostics@.take(dcuts[0]) =~= diags1);
            assert(diagnostics@.skip(dcuts[n]) =~= spec_drain_diags(drained@));
            assert forall|jj: int|
                #![trigger rcuts[jj]]
                0 <= jj <= n implies 0 <= rcuts[jj] <= sends@.len() && 0 <= acuts[jj]
                <= acks_fired@.len() && 0 <= dcuts[jj] <= diagnostics@.len() by {}
            assert forall|idx: int|
                0 <= idx < sends2.len() implies #[trigger] sends@[idx] == sends2[idx] by {}
            assert forall|idx: int|
                0 <= idx < acks2.len() implies #[trigger] acks_fired@[idx] == acks2[idx] by {}
            assert forall|idx: int|
                0 <= idx < diags2.len() implies #[trigger] diagnostics@[idx] == diags2[idx] by {}
            lemma_trace_slices_stable(
                inbound@,
                connected_peers@,
                n,
                states,
                states,
                rcuts,
                rcuts,
                acuts,
                acuts,
                dcuts,
                dcuts,
                sends2,
                sends@,
                acks2,
                acks_fired@,
                diags2,
                diagnostics@,
            );
        }
        TickOutcome {
            sends,
            acks_fired,
            drained,
            diagnostics,
            trace: Ghost(TickTrace { states, reply_cuts: rcuts, ack_cuts: acuts, diag_cuts: dcuts }),
        }
    }

    /// A fresh engine around the given application: empty registry, empty
    /// queue, empty tracker, delivery ids starting at zero.
    pub fn new(app: A) -> (r: Self)
        ensures
            r.wf(),
            r.app == app,
            r.users@ == Map::<PeerId, U>::empty(),
            r.message_queue.messages@ == Seq::<Message<M>>::empty(),
            r.messages_waiting_for_ack@ == Map::<MessageId, MessageWaitingForAck<M>>::empty(),
            r.next_message_id == 0,
    {
        Self {
            app,
            users: UserList::new(),
            message_queue: MessageQueue::new(),
            messages_waiting_for_ack: HashMap::new(),
            next_message_id: 0,
        }
    }
}

} // verus!
