//! The network manager: the local identity, the registry of sessions, and
//! the decisions of the broadcast engine and of the discovery connector.
//!
//! The manager performs no I/O. Where the transport has to act, a method
//! returns what is to be done (a peer to dial, bytes to deliver to a list of
//! sessions) and another method takes what came of it.

use crate::content::{ClipboardContent, ClipboardMessage, ContentView};
use crate::peer::PeerId;
use crate::registry::{id_set, PeerSessionRegistry};
use crate::ticket::{
    lemma_bare_ticket_fits, ticket_of_text, AddressView, ConnectionTicket, InvalidTicket,
    TicketView,
};
use crate::wire::{message_bytes, EncodingError};
use vstd::prelude::*;
use vstd::string::*;

verus! {

/// How the delivery of a broadcast to one peer ended.
#[derive(Clone, Copy, Debug, PartialEq, Eq, Structural)]
pub enum Delivery {
    /// The bytes were written to a fresh stream.
    Sent,
    /// No stream could be opened.
    OpenFailed,
    /// A stream was opened, but writing failed.
    WriteFailed,
}

impl Delivery {
    /// Whether the delivery failed.
    pub open spec fn failed(self) -> bool {
        self != Delivery::Sent
    }

    /// Whether the delivery failed.
    pub fn is_failure(&self) -> (failed: bool)
        ensures
            failed == self.failed(),
    {
        match self {
            Delivery::Sent => false,
            Delivery::OpenFailed => true,
            Delivery::WriteFailed => true,
        }
    }
}

/// One broadcast, ready for delivery: the message, its wire form, written
/// once, and the sessions to deliver it to, each with its peer.
#[derive(Debug)]
pub struct Broadcast<S> {
    pub message: ClipboardMessage,
    pub payload: Vec<u8>,
    pub targets: Vec<(PeerId, S)>,
}

/// What to do about a peer that discovery has found.
#[derive(Clone, Copy, Debug, PartialEq, Eq, Structural)]
pub enum DiscoveryDecision {
    /// The peer is this device: do nothing.
    IsSelf,
    /// The peer has a session: do nothing.
    AlreadyConnected,
    /// Try to connect to the peer.
    Attempt,
}

/// Where a discovered peer stands after a connect attempt.
#[derive(Clone, Copy, Debug, PartialEq, Eq, Structural)]
pub enum PeerState {
    /// The attempt gave a session, which is now in the registry.
    Connected,
    /// The attempt failed. The peer is not remembered: if it is discovered
    /// again, the decision is taken anew.
    AttemptFailed,
}

/// The decision about a discovered peer, given the local identity and the
/// peers that have a session.
pub open spec fn decision_for<S>(
    local: Seq<u8>,
    connections: Map<Seq<u8>, S>,
    peer: Seq<u8>,
) -> DiscoveryDecision {
    if peer == local {
        DiscoveryDecision::IsSelf
    } else if connections.contains_key(peer) {
        DiscoveryDecision::AlreadyConnected
    } else {
        DiscoveryDecision::Attempt
    }
}

/// The peers of `outcomes` whose delivery failed, as a set of identities.
pub open spec fn failed_ids(outcomes: Seq<(PeerId, Delivery)>) -> Set<Seq<u8>> {
    Set::new(
        |k: Seq<u8>|
            exists|i: int|
                0 <= i < outcomes.len() && (#[trigger] outcomes[i]).0@ == k && outcomes[i].1.failed(),
    )
}

/// The registry after a broadcast with the given outcomes: the peers whose
/// delivery failed are gone, and nothing else has changed.
pub open spec fn after_broadcast<S>(
    connections: Map<Seq<u8>, S>,
    outcomes: Seq<(PeerId, Delivery)>,
) -> Map<Seq<u8>, S> {
    connections.remove_keys(failed_ids(outcomes))
}

/// The network manager of one device, over sessions of type `S`.
pub struct NetworkManager<S> {
    device_name: String,
    node_id: PeerId,
    connections: PeerSessionRegistry<S>,
}

/// Mathematical value of a [`NetworkManager`].
pub struct ManagerView<S> {
    pub device_name: Seq<char>,
    pub node_id: Seq<u8>,
    pub connections: Map<Seq<u8>, S>,
}

impl<S> View for NetworkManager<S> {
    type V = ManagerView<S>;

    closed spec fn view(&self) -> ManagerView<S> {
        ManagerView {
            device_name: self.device_name@,
            node_id: self.node_id@,
            connections: self.connections@,
        }
    }
}

impl<S> NetworkManager<S> {
    /// The manager of the device called `device_name`, whose endpoint has
    /// the identity `node_id`, with no session yet.
    pub fn new(device_name: String, node_id: PeerId) -> (manager: Self)
        ensures
            manager@ == (ManagerView {
                device_name: device_name@,
                node_id: node_id@,
                connections: Map::<Seq<u8>, S>::empty(),
            }),
    {
        NetworkManager { device_name, node_id, connections: PeerSessionRegistry::new() }
    }

    /// The identity of the local endpoint.
    pub fn get_node_id(&self) -> (node_id: PeerId)
        ensures
            node_id@ == self@.node_id,
    {
        self.node_id
    }

    /// The name of the local device, which is the sender of its messages.
    pub fn device_name(&self) -> (name: &String)
        ensures
            name@ == self@.device_name,
    {
        &self.device_name
    }

    /// The registry of sessions.
    pub fn connections(&self) -> (registry: &PeerSessionRegistry<S>)
        ensures
            registry@ == self@.connections,
    {
        &self.connections
    }

    /// The ticket for the local endpoint, as text: its identity and no
    /// address, so that the peer is found by discovery. Writing it never
    /// fails.
    pub fn generate_ticket(&self) -> (written: Result<String, EncodingError>)
        ensures
            written matches Ok(text) && ticket_of_text(text@) == Some(
                TicketView { node_id: self@.node_id, addresses: Seq::<AddressView>::empty() },
            ),
    {
        let ticket = ConnectionTicket { node_id: self.node_id, addresses: Vec::new() };
        proof {
            assert(ticket@.addresses =~= Seq::<AddressView>::empty());
            lemma_bare_ticket_fits(self.node_id@);
        }
        ticket.to_string()
    }

    /// First half of connecting by ticket: the peer and the addresses to
    /// dial, read from the text of the ticket. The session that the dial gives
    /// is handed to [`NetworkManager::connected`].
    pub fn connect_to_peer(&self, ticket_str: &str) -> (target: Result<
        ConnectionTicket,
        InvalidTicket,
    >)
        ensures
            match target {
                Ok(ticket) => ticket_of_text(ticket_str@) == Some(ticket@),
                Err(InvalidTicket::NotBase64) => crate::ticket::base64_bytes(ticket_str@) is None,
                Err(InvalidTicket::NotATicket) => crate::ticket::base64_bytes(ticket_str@) is Some
                    && ticket_of_text(ticket_str@) is None,
            },
    {
        ConnectionTicket::from_string(ticket_str)
    }

    /// A session with `peer` was established, by dialling it or by accepting
    /// its connection. It takes the place of any session the peer had.
    pub fn connected(&mut self, peer: PeerId, session: S)
        ensures
            final(self)@ == (ManagerView {
                connections: old(self)@.connections.insert(peer@, session),
                ..old(self)@
            }),
    {
        self.connections.insert(peer, session);
    }

    /// The session with `peer` is over. Nothing happens if it had none.
    pub fn disconnected(&mut self, peer: &PeerId)
        ensures
            final(self)@ == (ManagerView {
                connections: old(self)@.connections.remove(peer@),
                ..old(self)@
            }),
    {
        self.connections.remove(peer);
    }

    /// What to do about the discovered peer `node_id`: nothing if it is this
    /// device or has a session, and a connect attempt otherwise.
    pub fn try_connect_to_clipboard_node(&self, node_id: &PeerId) -> (decision: DiscoveryDecision)
        ensures
            decision == decision_for(self@.node_id, self@.connections, node_id@),
    {
        if *node_id == self.node_id {
            DiscoveryDecision::IsSelf
        } else if self.connections.contains(node_id) {
            DiscoveryDecision::AlreadyConnected
        } else {
            DiscoveryDecision::Attempt
        }
    }

    /// The connect attempt for the discovered peer `peer` ended: with a
    /// session, which is recorded, or without one, which changes nothing.
    pub fn connect_attempted(&mut self, peer: PeerId, session: Option<S>) -> (state: PeerState)
        ensures
            match session {
                Some(s) => state == PeerState::Connected && final(self)@ == (ManagerView {
                    connections: old(self)@.connections.insert(peer@, s),
                    ..old(self)@
                }),
                None => state == PeerState::AttemptFailed && final(self)@ == old(self)@,
            },
    {
        match session {
            Some(s) => {
                self.connections.insert(peer, s);
                PeerState::Connected
            },
            None => PeerState::AttemptFailed,
        }
    }

    /// Second half of a broadcast: the deliveries ended as `outcomes` say.
    /// Every peer whose delivery failed loses its session, in one go; every
    /// other peer keeps its session. The peers that failed are handed back.
    #[verifier::rlimit(40)]
    pub fn complete_broadcast(&mut self, outcomes: &Vec<(PeerId, Delivery)>) -> (failed: Vec<
        PeerId,
    >)
        ensures
            id_set(failed@) == failed_ids(outcomes@),
            final(self)@ == (ManagerView {
                connections: after_broadcast(old(self)@.connections, outcomes@),
                ..old(self)@
            }),
    {
        let mut failed: Vec<PeerId> = Vec::new();
        let mut i: usize = 0;
        assert(id_set(failed@) =~= failed_ids(outcomes@.take(0)));
        while i < outcomes.len()
            invariant
                i <= outcomes@.len(),
                id_set(failed@) == failed_ids(outcomes@.take(i as int)),
            decreases outcomes@.len() - i,
        {
            let ghost before = failed@;
            if outcomes[i].1.is_failure() {
                failed.push(outcomes[i].0);
            }
            proof {
                let done = outcomes@.take(i as int);
                let next = outcomes@.take(i as int + 1);
                assert forall|k: Seq<u8>| id_set(failed@).contains(k) == failed_ids(next).contains(
                    k,
                ) by {
                    if id_set(failed@).contains(k) {
                        let j = choose|j: int| 0 <= j < failed@.len() && #[trigger] failed@[j]@ == k;
                        if j < before.len() {
                            assert(before[j]@ == k);
                            assert(id_set(before).contains(k));
                            let m = choose|m: int|
                                0 <= m < done.len() && (#[trigger] done[m]).0@ == k
                                    && done[m].1.failed();
                            assert(next[m] == done[m]);
                        } else {
                            assert(next[i as int] == outcomes@[i as int]);
                        }
                    }
                    if failed_ids(next).contains(k) {
                        let m = choose|m: int|
                            0 <= m < next.len() && (#[trigger] next[m]).0@ == k
                                && next[m].1.failed();
                        if m < i {
                            assert(done[m] == next[m]);
                            assert(failed_ids(done).contains(k));
                            let j = choose|j: int|
                                0 <= j < before.len() && #[trigger] before[j]@ == k;
                            assert(failed@[j]@ == k);
                        } else {
                            assert(failed@[failed@.len() - 1]@ == k);
                        }
                    }
                }
                assert(id_set(failed@) =~= failed_ids(next));
            }
            i += 1;
        }
        assert(outcomes@.take(outcomes@.len() as int) =~= outcomes@);
        self.connections.prune(&failed);
        failed
    }
}

impl<S: Clone> NetworkManager<S> {
    /// First half of a broadcast: `message` is written once, and every peer
    /// with a session becomes a target, each once, with a copy of its
    /// session. The caller opens one stream per target and writes the
    /// payload to it; a failure with one target does not keep it from the
    /// others. What came of the deliveries is handed to
    /// [`NetworkManager::complete_broadcast`].
    pub fn broadcast_message(&self, message: ClipboardMessage) -> (plan: Result<
        Broadcast<S>,
        EncodingError,
    >)
        ensures
            plan matches Ok(broadcast) && broadcast.message@ == message@ && broadcast.payload@
                == message_bytes(message@) && self.is_snapshot(broadcast.targets@),
    {
        let payload = match message.to_bytes() {
            Ok(payload) => payload,
            Err(e) => {
                return Err(e);
            },
        };
        let targets = self.connections.snapshot();
        Ok(Broadcast { message, payload, targets })
    }

    /// Whether `targets` names every peer with a session once, each with a
    /// copy of its session.
    pub open spec fn is_snapshot(&self, targets: Seq<(PeerId, S)>) -> bool {
        &&& targets.len() == self@.connections.dom().len()
        &&& forall|i: int|
            0 <= i < targets.len() ==> self@.connections.contains_key(#[trigger] targets[i].0@)
                && cloned(self@.connections[targets[i].0@], targets[i].1)
        &&& forall|k: Seq<u8>|
            self@.connections.contains_key(k) ==> exists|i: int|
                0 <= i < targets.len() && #[trigger] targets[i].0@ == k
        &&& forall|i: int, j: int| 0 <= i < j < targets.len() ==> targets[i].0@ != targets[j].0@
    }

    /// The broadcast of a text seen now on the local clipboard.
    pub fn broadcast_clipboard(&self, content: &str) -> (plan: Result<Broadcast<S>, EncodingError>)
        ensures
            plan matches Ok(broadcast) && broadcast.message@.content == ContentView::Text(content@)
                && broadcast.message@.sender_id == self@.device_name && broadcast.payload@
                == message_bytes(broadcast.message@) && self.is_snapshot(broadcast.targets@),
    {
        let message = ClipboardMessage::new_text(
            String::from_str(content),
            self.device_name.clone(),
        );
        self.broadcast_message(message)
    }

    /// The broadcast of an image seen now on the local clipboard.
    pub fn broadcast_image(&self, width: u32, height: u32, data: Vec<u8>) -> (plan: Result<
        Broadcast<S>,
        EncodingError,
    >)
        ensures
            plan matches Ok(broadcast) && broadcast.message@.content == (ContentView::Image {
                width,
                height,
                data: data@,
            }) && broadcast.message@.sender_id == self@.device_name && broadcast.payload@
                == message_bytes(broadcast.message@) && self.is_snapshot(broadcast.targets@),
    {
        let message = ClipboardMessage::new_image(width, height, data, self.device_name.clone());
        self.broadcast_message(message)
    }

    /// The broadcast of `content`, seen now on the local clipboard.
    pub fn broadcast(&self, content: ClipboardContent) -> (plan: Result<Broadcast<S>, EncodingError>)
        ensures
            plan matches Ok(broadcast) && broadcast.message@.content == content@
                && broadcast.message@.sender_id == self@.device_name && broadcast.payload@
                == message_bytes(broadcast.message@) && self.is_snapshot(broadcast.targets@),
    {
        match content {
            ClipboardContent::Text(text) => self.broadcast_clipboard(text.as_str()),
            ClipboardContent::Image { width, height, data } => self.broadcast_image(
                width,
                height,
                data,
            ),
        }
    }
}

/// After a broadcast, a peer has a session exactly if it had one before and
/// its delivery did not fail, and the session it has is the one it had. The
/// failure of one peer costs no other peer its session.
pub proof fn lemma_broadcast_isolation<S>(
    connections: Map<Seq<u8>, S>,
    outcomes: Seq<(PeerId, Delivery)>,
    peer: Seq<u8>,
)
    ensures
        after_broadcast(connections, outcomes).contains_key(peer) <==> connections.contains_key(
            peer,
        ) && !failed_ids(outcomes).contains(peer),
        after_broadcast(connections, outcomes).contains_key(peer) ==> after_broadcast(
            connections,
            outcomes,
        )[peer] == connections[peer],
{
}

/// A discovery event that names the local identity never leads to a connect
/// attempt, whatever the registry holds.
pub proof fn lemma_never_connects_to_self<S>(local: Seq<u8>, connections: Map<Seq<u8>, S>)
    ensures
        decision_for(local, connections, local) == DiscoveryDecision::IsSelf,
{
}

/// While a peer has a session, discovering it again leads to no connect
/// attempt, however often; and recording a session for a peer that has one
/// leaves the registry with one entry for that peer.
pub proof fn lemma_discovery_is_idempotent<S>(
    local: Seq<u8>,
    connections: Map<Seq<u8>, S>,
    peer: Seq<u8>,
    session: S,
)
    requires
        connections.dom().finite(),
    ensures
        connections.contains_key(peer) ==> decision_for(local, connections, peer)
            != DiscoveryDecision::Attempt,
        decision_for(local, connections.insert(peer, session), peer) != DiscoveryDecision::Attempt,
        connections.contains_key(peer) ==> connections.insert(peer, session).dom()
            == connections.dom(),
        connections.insert(peer, session).insert(peer, session) == connections.insert(
            peer,
            session,
        ),
{
    if connections.contains_key(peer) {
        assert(connections.insert(peer, session).dom() =~= connections.dom());
    }
    assert(connections.insert(peer, session).insert(peer, session) =~= connections.insert(
        peer,
        session,
    ));
}

} // verus!
