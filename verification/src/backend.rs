//! The decisions of the backend's event loop.
//!
//! The loop itself waits on the listener, on the peer tasks and on the
//! command channel. Whatever comes in, it hands to the `Backend` as an
//! `Input`; the backend updates its books and answers with the `Action`s to
//! carry out: streams to open, peer tasks to start or stop, messages to put
//! on the wire, events to pass up to the handles.

use std::collections::HashMap;
use vstd::prelude::*;
use vstd::std_specs::iter::IteratorSpec;
use crate::error::{DialError, P2pError, PeerError, ProtocolError, PublishError};
use crate::message::{Announcement, Request, Response};
use crate::primitives::SemVer;
use crate::request_manager::{RequestManager, RequestManagerView};
use crate::service::ANNOUNCEMENT_MAX_SIZE;
use crate::types::{
    Command, ConnectivityEvent, HandshakeData, Message, PeerAddress, PeerId, PeerInfo, PubSubTopic,
    RequestId, SyncingEvent, TopicSet,
};

verus! {

/// Which side opened a connection.
#[derive(Debug, Clone, Copy, PartialEq, Eq, Structural)]
pub enum Role {
    /// The peer dialed us.
    Inbound,
    /// We dialed the peer.
    Outbound,
}

/// How far a connection has come.
#[derive(Debug, Clone, Copy, PartialEq, Eq, Structural)]
pub enum Phase {
    /// The stream is open; the peer has not said yet who it is.
    Handshaking,
    /// The handshake has succeeded; messages flow.
    Established,
    /// The peer task has been told to stop and has not reported back yet.
    Closing,
}

/// What the backend keeps for each peer.
#[derive(Debug, Clone, Copy, PartialEq, Eq)]
pub struct PeerContext<A> {
    pub address: A,
    pub role: Role,
    pub phase: Phase,
    /// The topics that the peer has subscribed to; empty until the
    /// handshake.
    pub subscriptions: TopicSet,
}

/// What the backend needs to know of the local node.
#[derive(Debug, Clone, Copy, PartialEq, Eq)]
pub struct BackendConfig {
    /// The magic bytes of the network that the node is on.
    pub network: [u8; 4],
    /// The version of the protocol that the node speaks.
    pub version: SemVer,
    /// The topics that the node wants to hear announcements on.
    pub subscriptions: TopicSet,
    /// The longest serialized announcement that is sent or taken, in bytes.
    pub announcement_max_size: usize,
}

impl BackendConfig {
    /// The configuration of a node on the main network.
    pub fn mainnet() -> (r: Self)
        ensures
            r.network@ == seq![0x1au8, 0x2bu8, 0x3cu8, 0x4du8],
            r.version == (SemVer { major: 0, minor: 1, patch: 0 }),
            r.subscriptions@ == Set::<PubSubTopic>::full(),
            r.announcement_max_size == ANNOUNCEMENT_MAX_SIZE,
    {
        let network: [u8; 4] = [0x1a, 0x2b, 0x3c, 0x4d];
        assert(network@ =~= seq![0x1au8, 0x2bu8, 0x3cu8, 0x4du8]);
        BackendConfig {
            network,
            version: SemVer::new(0, 1, 0),
            subscriptions: TopicSet::all(),
            announcement_max_size: ANNOUNCEMENT_MAX_SIZE,
        }
    }

    /// What the node says of itself in its handshake, to a peer that it
    /// sees at `receiver_address`.
    pub open spec fn hello(self, receiver_address: Option<PeerAddress>) -> HandshakeData {
        HandshakeData {
            network: self.network,
            version: self.version,
            agent: None,
            subscriptions: self.subscriptions,
            receiver_address,
        }
    }

    /// What the node says of itself in its handshake, to a peer that it
    /// sees at `receiver_address`.
    pub fn handshake(&self, receiver_address: Option<PeerAddress>) -> (r: HandshakeData)
        ensures
            r == self.hello(receiver_address),
    {
        HandshakeData {
            network: self.network,
            version: self.version,
            agent: None,
            subscriptions: self.subscriptions,
            receiver_address,
        }
    }
}

/// What a peer task reports.
#[derive(Debug, Clone, PartialEq, Eq)]
pub enum PeerEvent {
    /// A message has arrived.
    MessageReceived(Message),
    /// The handshake could not be completed.
    HandshakeFailed(P2pError),
    /// The peer broke the protocol.
    Misbehaved(P2pError),
    /// The task has ended and the stream is closed.
    ConnectionClosed,
}

/// What the event loop hands to the backend.
#[derive(Debug, Clone, PartialEq, Eq)]
pub enum Input<A> {
    /// The listener has accepted a stream from `address`.
    Accepted { address: A },
    /// The dial of `address` has ended with a stream.
    Dialed { address: A },
    /// The dial of `address` has ended without a stream.
    DialFailed { address: A, error: DialError },
    /// A handle has sent a command.
    Command(Command<A>),
    /// The task of `peer_id` has reported `event`.
    Peer { peer_id: PeerId, event: PeerEvent },
    /// The command channel has ended: the handles are gone.
    CommandsClosed,
}

/// What the backend asks the event loop to do.
#[derive(Debug, Clone, PartialEq, Eq)]
pub enum Action<A> {
    /// Open a stream to `address` and report how the dial ended.
    Dial { address: A },
    /// Start a task for the new stream, under `peer_id`, and let it shake
    /// hands.
    SpawnPeer { peer_id: PeerId, address: A, role: Role },
    /// Put `message` on the wire to `peer_id`.
    SendToPeer { peer_id: PeerId, message: Box<Message> },
    /// Tell the task of `peer_id` to stop.
    ClosePeer { peer_id: PeerId },
    /// Pass an event up to the connectivity handle.
    Connectivity(ConnectivityEvent<A>),
    /// Pass an event up to the syncing handle.
    Syncing(SyncingEvent),
}

/// What a backend holds.
pub struct BackendView<A> {
    pub config: BackendConfig,
    /// The peers whose tasks are running.
    pub peers: Map<PeerId, PeerContext<A>>,
    /// The books of the request manager.
    pub requests: RequestManagerView,
    /// The number of the next peer id; every smaller one has been given out.
    pub next_peer_id: u64,
}

impl<A> BackendView<A> {
    /// What holds of the books of a backend at all times: the request
    /// manager is consistent and knows exactly the established peers, and
    /// every peer has an id that has been given out.
    pub open spec fn wf(self) -> bool {
        &&& self.requests.consistent()
        &&& forall|p: PeerId| #[trigger] self.peers.contains_key(p) ==> p.0 < self.next_peer_id
        &&& forall|p: PeerId| #[trigger]
            self.requests.by_peer.contains_key(p) <==> self.peers.contains_key(p)
                && self.peers[p].phase == Phase::Established
    }

    /// Whether `peer` is connected and has shaken hands.
    pub open spec fn established(self, peer: PeerId) -> bool {
        self.peers.contains_key(peer) && self.peers[peer].phase == Phase::Established
    }

    /// The books after the task of `peer` has been told to stop: the peer is
    /// closing, and its pending requests are forgotten.
    pub open spec fn closing(self, peer: PeerId) -> Self {
        BackendView {
            peers: self.peers.insert(
                peer,
                PeerContext { phase: Phase::Closing, ..self.peers[peer] },
            ),
            requests: self.requests.unregister_peer(peer),
            ..self
        }
    }

    /// The books after the task of `peer` has ended.
    pub open spec fn closed(self, peer: PeerId) -> Self {
        BackendView {
            peers: self.peers.remove(peer),
            requests: self.requests.unregister_peer(peer),
            ..self
        }
    }

    /// The books after every task has been told to stop: every peer is
    /// closing, and no request is pending.
    pub open spec fn shut_down(self) -> Self {
        BackendView {
            peers: Map::new(
                |p: PeerId| self.peers.contains_key(p),
                |p: PeerId| PeerContext { phase: Phase::Closing, ..self.peers[p] },
            ),
            requests: RequestManagerView::empty(),
            ..self
        }
    }

    /// The peers whose tasks have not been told to stop yet.
    pub open spec fn running(self) -> Set<PeerId> {
        Set::new(|p: PeerId| self.peers.contains_key(p) && self.peers[p].phase != Phase::Closing)
    }

    /// The established peers that have subscribed to `topic`.
    pub open spec fn recipients(self, topic: PubSubTopic) -> Set<PeerId> {
        Set::new(|p: PeerId| self.established(p) && self.peers[p].subscriptions@.contains(topic))
    }
}

/// The peer that an action sends a message to, if it sends one.
pub open spec fn sent_to<A>(action: Action<A>) -> Option<PeerId> {
    match action {
        Action::SendToPeer { peer_id, .. } => Some(peer_id),
        _ => None,
    }
}

/// Whether `out` sends the announcement `bytes` on `topic` to each of
/// `recipients` once, and does nothing else.
pub open spec fn is_broadcast<A>(
    out: Seq<Action<A>>,
    recipients: Set<PeerId>,
    topic: PubSubTopic,
    bytes: Seq<u8>,
) -> bool {
    &&& forall|i: int|
        0 <= i < out.len() ==> {
            &&& (#[trigger] out[i]) matches Action::SendToPeer { peer_id, message }
            &&& recipients.contains(peer_id)
            &&& *message matches Message::Announcement { topic: t, message: m }
            &&& t == topic
            &&& m@ == bytes
        }
    &&& forall|p: PeerId|
        recipients.contains(p) ==> exists|i: int| 0 <= i < out.len() && sent_to(#[trigger] out[i]) == Some(p)
    &&& forall|i: int, j: int|
        0 <= i < j < out.len() ==> sent_to(#[trigger] out[i]) != sent_to(#[trigger] out[j])
}

/// The peer whose task an action tells to stop, if it does so.
pub open spec fn stopped<A>(action: Action<A>) -> Option<PeerId> {
    match action {
        Action::ClosePeer { peer_id } => Some(peer_id),
        _ => None,
    }
}

/// Whether `out` tells the task of each of `peers` to stop, once, and does
/// nothing else.
pub open spec fn is_shutdown<A>(out: Seq<Action<A>>, peers: Set<PeerId>) -> bool {
    &&& forall|i: int|
        0 <= i < out.len() ==> {
            &&& (#[trigger] out[i]) matches Action::ClosePeer { peer_id }
            &&& peers.contains(peer_id)
        }
    &&& forall|p: PeerId|
        peers.contains(p) ==> exists|i: int| 0 <= i < out.len() && stopped(#[trigger] out[i]) == Some(p)
    &&& forall|i: int, j: int|
        0 <= i < j < out.len() ==> stopped(#[trigger] out[i]) != stopped(#[trigger] out[j])
}

/// A stream from or to `address` has been opened. The backend gives the
/// peer the next id and has a task started for it; where the ids have run
/// out it reports the peer as unavailable.
pub open spec fn connection_opened<A>(
    pre: BackendView<A>,
    address: A,
    role: Role,
    post: BackendView<A>,
    out: Seq<Action<A>>,
) -> bool {
    if pre.next_peer_id < u64::MAX {
        let peer_id = PeerId(pre.next_peer_id);
        &&& post == (BackendView {
            peers: pre.peers.insert(
                peer_id,
                PeerContext {
                    address,
                    role,
                    phase: Phase::Handshaking,
                    subscriptions: TopicSet { blocks: false, transactions: false },
                },
            ),
            next_peer_id: (pre.next_peer_id + 1) as u64,
            ..pre
        })
        &&& out == seq![Action::SpawnPeer { peer_id, address, role }]
    } else {
        &&& post == pre
        &&& out == seq![
            Action::Connectivity(
                ConnectivityEvent::ConnectionError {
                    address,
                    error: P2pError::PeerError(PeerError::PeerUnavailable),
                },
            ),
        ]
    }
}

/// The event that reports to the dialing or the accepting side that the
/// peer at `address` was not taken.
pub open spec fn connection_error<A>(address: A, error: P2pError) -> Action<A> {
    Action::Connectivity(ConnectivityEvent::ConnectionError { address, error })
}

/// The event that passes an inbound request up, under the ephemeral id that
/// it was given: to the connectivity handle where it is a request of the
/// peer manager, to the syncing handle where it is one of synchronisation.
pub open spec fn request_event<A>(peer_id: PeerId, request_id: RequestId, request: Request) -> Action<
    A,
> {
    match request {
        Request::PeerManager(request) => Action::Connectivity(
            ConnectivityEvent::Request { peer_id, request_id, request },
        ),
        Request::Sync(request) => Action::Syncing(
            SyncingEvent::Request { peer_id, request_id, request },
        ),
    }
}

/// The event that passes a response up, under the id that the request was
/// sent with.
pub open spec fn response_event<A>(peer_id: PeerId, request_id: RequestId, response: Response) -> Action<
    A,
> {
    match response {
        Response::PeerManager(response) => Action::Connectivity(
            ConnectivityEvent::Response { peer_id, request_id, response },
        ),
        Response::Sync(response) => Action::Syncing(
            SyncingEvent::Response { peer_id, request_id, response },
        ),
    }
}

/// The event that reports a peer as accepted, to the side that its role
/// names.
pub open spec fn accepted_event<A>(peer_id: PeerId, context: PeerContext<A>, remote: HandshakeData) -> Action<
    A,
> {
    let peer_info = PeerInfo {
        peer_id,
        network: remote.network,
        version: remote.version,
        agent: remote.agent,
        subscriptions: remote.subscriptions,
    };
    match context.role {
        Role::Inbound => Action::Connectivity(
            ConnectivityEvent::InboundAccepted {
                address: context.address,
                peer_info,
                receiver_address: remote.receiver_address,
            },
        ),
        Role::Outbound => Action::Connectivity(
            ConnectivityEvent::OutboundAccepted {
                address: context.address,
                peer_info,
                receiver_address: remote.receiver_address,
            },
        ),
    }
}

/// A handle has sent `command`.
pub open spec fn command_handled<A>(
    pre: BackendView<A>,
    command: Command<A>,
    post: BackendView<A>,
    out: Result<Seq<Action<A>>, P2pError>,
) -> bool {
    match command {
        Command::Connect { address } => post == pre && out == Ok::<_, P2pError>(
            seq![Action::Dial { address }],
        ),
        Command::Disconnect { peer_id } => if !pre.peers.contains_key(peer_id) {
            post == pre && out == Err::<Seq<Action<A>>, _>(
                P2pError::PeerError(PeerError::PeerDoesntExist),
            )
        } else if pre.peers[peer_id].phase == Phase::Closing {
            post == pre && out == Ok::<_, P2pError>(Seq::<Action<A>>::empty())
        } else {
            post == pre.closing(peer_id) && out == Ok::<_, P2pError>(
                seq![Action::<A>::ClosePeer { peer_id }],
            )
        },
        Command::SendRequest { peer_id, request_id, message } => post == pre && out == (
        if !pre.peers.contains_key(peer_id) {
            Err::<Seq<Action<A>>, _>(P2pError::PeerError(PeerError::PeerDoesntExist))
        } else if pre.peers[peer_id].phase != Phase::Established {
            Err::<Seq<Action<A>>, _>(P2pError::PeerError(PeerError::PeerUnavailable))
        } else {
            Ok::<_, P2pError>(
                seq![
                    Action::<A>::SendToPeer {
                        peer_id,
                        message: Box::new(Message::Request { request_id, request: message }),
                    },
                ],
            )
        }),
        Command::SendResponse { request_id, message } => post == (BackendView {
            requests: pre.requests.make_response(request_id),
            ..pre
        }) && out == Ok::<_, P2pError>(
            if pre.requests.to_remote.contains_key(request_id) {
                seq![
                    Action::<A>::SendToPeer {
                        peer_id: pre.requests.to_remote[request_id].0,
                        message: Box::new(
                            Message::Response {
                                request_id: pre.requests.to_remote[request_id].1,
                                response: message,
                            },
                        ),
                    },
                ]
            } else {
                Seq::<Action<A>>::empty()
            },
        ),
        Command::AnnounceData { topic, message } => post == pre && (if message@.len()
            > pre.config.announcement_max_size {
            out == Err::<Seq<Action<A>>, _>(
                P2pError::PublishError(
                    PublishError::MessageTooLarge(
                        message@.len() as usize,
                        pre.config.announcement_max_size,
                    ),
                ),
            )
        } else {
            out matches Ok(actions) && is_broadcast(actions, pre.recipients(topic), topic, message@)
        }),
    }
}

/// The task of `peer_id` has reported `event`. What a task reports of a
/// peer that the backend does not know, or that is closing, is dropped; only
/// the end of the task is still taken note of.
pub open spec fn peer_event_handled<A>(
    pre: BackendView<A>,
    peer_id: PeerId,
    event: PeerEvent,
    post: BackendView<A>,
    out: Seq<Action<A>>,
) -> bool {
    if !pre.peers.contains_key(peer_id) {
        post == pre && out == Seq::<Action<A>>::empty()
    } else if event is ConnectionClosed {
        post == pre.closed(peer_id) && out == seq![
            Action::<A>::Connectivity(ConnectivityEvent::ConnectionClosed { peer_id }),
        ]
    } else {
        let context = pre.peers[peer_id];
        match context.phase {
            Phase::Closing => post == pre && out == Seq::<Action<A>>::empty(),
            Phase::Handshaking => handshaking_event_handled(pre, peer_id, event, post, out),
            Phase::Established => established_event_handled(pre, peer_id, event, post, out),
        }
    }
}

/// The error that ends a handshake, if `event` ends it with one.
pub open spec fn handshake_error(config: BackendConfig, event: PeerEvent) -> Option<P2pError> {
    match event {
        PeerEvent::MessageReceived(Message::Handshake(remote)) => match handshake_verdict(
            config,
            remote,
        ) {
            Ok(()) => None,
            Err(e) => Some(P2pError::ProtocolError(e)),
        },
        PeerEvent::MessageReceived(_) => Some(
            P2pError::ProtocolError(ProtocolError::UnexpectedMessage),
        ),
        PeerEvent::HandshakeFailed(error) => Some(error),
        PeerEvent::Misbehaved(error) => Some(error),
        PeerEvent::ConnectionClosed => None,
    }
}

/// A peer that has not shaken hands yet has reported `event`. A handshake
/// that is in order makes the peer established and is reported as an
/// accepted connection; anything else ends the connection with an error.
pub open spec fn handshaking_event_handled<A>(
    pre: BackendView<A>,
    peer_id: PeerId,
    event: PeerEvent,
    post: BackendView<A>,
    out: Seq<Action<A>>,
) -> bool {
    let context = pre.peers[peer_id];
    match handshake_error(pre.config, event) {
        Some(error) => {
            &&& post == pre.closing(peer_id)
            &&& out == seq![
                connection_error(context.address, error),
                Action::<A>::ClosePeer { peer_id },
            ]
        },
        None => {
            &&& event matches PeerEvent::MessageReceived(Message::Handshake(remote))
            &&& post == (BackendView {
                peers: pre.peers.insert(
                    peer_id,
                    PeerContext {
                        phase: Phase::Established,
                        subscriptions: remote.subscriptions,
                        ..context
                    },
                ),
                requests: pre.requests.register_peer(peer_id),
                ..pre
            })
            &&& out == seq![accepted_event(peer_id, context, remote)]
        },
    }
}

/// The error that an established peer is reported with as misbehaving, if
/// `event` shows that it is.
pub open spec fn misbehaviour(config: BackendConfig, event: PeerEvent) -> Option<P2pError> {
    match event {
        PeerEvent::MessageReceived(Message::Handshake(_)) => Some(
            P2pError::ProtocolError(ProtocolError::UnexpectedMessage),
        ),
        PeerEvent::MessageReceived(Message::Announcement { topic, message }) => if message@.len()
            > config.announcement_max_size {
            Some(P2pError::ProtocolError(ProtocolError::MessageTooLarge))
        } else if forall|a: Announcement| a.spec_encode() != message@ {
            Some(P2pError::ProtocolError(ProtocolError::MalformedMessage))
        } else {
            None
        },
        PeerEvent::MessageReceived(_) => None,
        PeerEvent::HandshakeFailed(_) => None,
        PeerEvent::Misbehaved(error) => Some(error),
        PeerEvent::ConnectionClosed => None,
    }
}

/// An established peer has reported `event`.
pub open spec fn established_event_handled<A>(
    pre: BackendView<A>,
    peer_id: PeerId,
    event: PeerEvent,
    post: BackendView<A>,
    out: Seq<Action<A>>,
) -> bool {
    match misbehaviour(pre.config, event) {
        Some(error) => {
            &&& post == pre.closing(peer_id)
            &&& out == seq![
                Action::<A>::Connectivity(ConnectivityEvent::Misbehaved { peer_id, error }),
                Action::<A>::ClosePeer { peer_id },
            ]
        },
        None => match event {
            PeerEvent::MessageReceived(Message::Request { request_id, request }) => exists|
                ephemeral: RequestId,
            |
                {
                    &&& !pre.requests.to_remote.contains_key(ephemeral)
                    &&& post == (BackendView {
                        requests: pre.requests.register_request(peer_id, request_id, ephemeral),
                        ..pre
                    })
                    &&& out == seq![request_event::<A>(peer_id, ephemeral, request)]
                },
            PeerEvent::MessageReceived(Message::Response { request_id, response }) => {
                &&& post == pre
                &&& out == seq![response_event::<A>(peer_id, request_id, response)]
            },
            PeerEvent::MessageReceived(Message::Announcement { topic, message }) => {
                &&& post == pre
                &&& out.len() == 1
                &&& out[0] matches Action::Syncing(
                    SyncingEvent::Announcement { peer_id: from, announcement },
                )
                &&& from == peer_id
                &&& announcement.spec_encode() == message@
            },
            _ => post == pre && out == Seq::<Action<A>>::empty(),
        },
    }
}

/// What the backend does with `input`: how its books change from `pre` to
/// `post`, and which actions `out` it asks for, or which error it fails the
/// command with.
pub open spec fn transition<A>(
    pre: BackendView<A>,
    input: Input<A>,
    post: BackendView<A>,
    out: Result<Seq<Action<A>>, P2pError>,
) -> bool {
    match input {
        Input::Accepted { address } => out matches Ok(actions) && connection_opened(
            pre,
            address,
            Role::Inbound,
            post,
            actions,
        ),
        Input::Dialed { address } => out matches Ok(actions) && connection_opened(
            pre,
            address,
            Role::Outbound,
            post,
            actions,
        ),
        Input::DialFailed { address, error } => post == pre && out == Ok::<_, P2pError>(
            seq![connection_error(address, P2pError::DialError(error))],
        ),
        Input::Command(command) => command_handled(pre, command, post, out),
        Input::Peer { peer_id, event } => out matches Ok(actions) && peer_event_handled(
            pre,
            peer_id,
            event,
            post,
            actions,
        ),
        Input::CommandsClosed => {
            &&& post == pre.shut_down()
            &&& out matches Ok(actions)
            &&& is_shutdown(actions, pre.running())
        },
    }
}

/// Whether a peer that says `remote` of itself may stay: it must be on our
/// network and speak our version.
pub open spec fn handshake_verdict(config: BackendConfig, remote: HandshakeData) -> Result<
    (),
    ProtocolError,
> {
    if remote.network != config.network {
        Err(ProtocolError::DifferentNetwork(config.network, remote.network))
    } else if remote.version != config.version {
        Err(ProtocolError::IncompatibleVersion)
    } else {
        Ok(())
    }
}

/// Checks what a peer says of itself in its handshake.
pub fn validate_handshake(config: &BackendConfig, remote: &HandshakeData) -> (r: Result<
    (),
    ProtocolError,
>)
    ensures
        r == handshake_verdict(*config, *remote),
{
    if !same_network(&remote.network, &config.network) {
        return Err(ProtocolError::DifferentNetwork(config.network, remote.network));
    }
    if remote.version != config.version {
        return Err(ProtocolError::IncompatibleVersion);
    }
    Ok(())
}

/// Whether two networks have the same magic bytes.
fn same_network(a: &[u8; 4], b: &[u8; 4]) -> (r: bool)
    ensures
        r == (*a == *b),
{
    let r = a[0] == b[0] && a[1] == b[1] && a[2] == b[2] && a[3] == b[3];
    assert(r == (*a =~= *b));
    r
}

/// The actions that a step returned, or the error it failed with.
pub open spec fn actions_of<A>(r: Result<Vec<Action<A>>, P2pError>) -> Result<
    Seq<Action<A>>,
    P2pError,
> {
    match r {
        Ok(actions) => Ok(actions@),
        Err(e) => Err(e),
    }
}

/// The books of the event loop: the peers, the request manager, and the
/// counter that peer ids come from.
#[derive(Debug)]
pub struct Backend<A> {
    config: BackendConfig,
    /// The context of each peer, by the number of its id.
    peers: HashMap<u64, PeerContext<A>>,
    request_mgr: RequestManager,
    next_peer_id: u64,
}

impl<A> View for Backend<A> {
    type V = BackendView<A>;

    closed spec fn view(&self) -> BackendView<A> {
        BackendView {
            config: self.config,
            peers: Map::new(
                |p: PeerId| self.peers@.contains_key(p.0),
                |p: PeerId| self.peers@[p.0],
            ),
            requests: self.request_mgr@,
            next_peer_id: self.next_peer_id,
        }
    }
}

impl<A: Copy> Backend<A> {
    /// The invariant of the backend.
    pub open spec fn wf(&self) -> bool {
        self@.wf()
    }

    /// A backend with no peer.
    pub fn new(config: BackendConfig) -> (r: Self)
        ensures
            r.wf(),
            r@ == (BackendView::<A> {
                config,
                peers: Map::empty(),
                requests: RequestManagerView::empty(),
                next_peer_id: 0,
            }),
    {
        let r = Backend {
            config,
            peers: HashMap::new(),
            request_mgr: RequestManager::new(),
            next_peer_id: 0,
        };
        assert(r@.peers =~= Map::empty());
        r
    }

    /// The configuration that the backend was made with.
    pub fn config(&self) -> (r: BackendConfig)
        ensures
            r == self@.config,
    {
        self.config
    }

    /// What the backend keeps for `peer_id`, if the peer is known.
    pub fn peer(&self, peer_id: PeerId) -> (r: Option<PeerContext<A>>)
        ensures
            r == (if self@.peers.contains_key(peer_id) {
                Some(self@.peers[peer_id])
            } else {
                None
            }),
    {
        broadcast use vstd::std_specs::hash::group_hash_axioms;
        match self.peers.get(&peer_id.0) {
            Some(context) => Some(*context),
            None => None,
        }
    }

    /// Takes one input of the event loop.
    pub fn step(&mut self, input: Input<A>) -> (r: Result<Vec<Action<A>>, P2pError>)
        requires
            old(self).wf(),
        ensures
            final(self).wf(),
            transition(old(self)@, input, final(self)@, actions_of(r)),
    {
        match input {
            Input::Accepted { address } => Ok(self.open_connection(address, Role::Inbound)),
            Input::Dialed { address } => Ok(self.open_connection(address, Role::Outbound)),
            Input::DialFailed { address, error } => Ok(
                single(
                    Action::Connectivity(
                        ConnectivityEvent::ConnectionError {
                            address,
                            error: P2pError::DialError(error),
                        },
                    ),
                ),
            ),
            Input::Command(command) => self.handle_command(command),
            Input::Peer { peer_id, event } => Ok(self.handle_peer_event(peer_id, event)),
            Input::CommandsClosed => Ok(self.shut_down()),
        }
    }

    /// Tells every task to stop, as the handles are gone.
    pub fn shut_down(&mut self) -> (out: Vec<Action<A>>)
        requires
            old(self).wf(),
        ensures
            final(self).wf(),
            final(self)@ == old(self)@.shut_down(),
            is_shutdown(out@, old(self)@.running()),
    {
        broadcast use vstd::std_specs::hash::group_hash_axioms;
        let running = self.running_peers();
        let mut out: Vec<Action<A>> = Vec::new();
        let mut i: usize = 0;
        while i < running.len()
            invariant
                i <= running.len(),
                self.wf(),
                self@.config == old(self)@.config,
                self@.next_peer_id == old(self)@.next_peer_id,
                self@.peers.dom() == old(self)@.peers.dom(),
                forall|k: int, l: int| 0 <= k < l < running.len() ==> running@[k] != running@[l],
                forall|p: PeerId|
                    old(self)@.running().contains(p) <==> exists|k: int|
                        0 <= k < running.len() && #[trigger] running@[k] == p,
                forall|p: PeerId| #[trigger]
                    self@.peers.contains_key(p) ==> self@.peers[p] == (if exists|k: int|
                        0 <= k < i && #[trigger] running@[k] == p {
                        PeerContext { phase: Phase::Closing, ..old(self)@.peers[p] }
                    } else {
                        old(self)@.peers[p]
                    }),
                out.len() == i,
                forall|k: int| 0 <= k < i ==> #[trigger] out@[k] == (Action::<A>::ClosePeer {
                    peer_id: running@[k],
                }),
            decreases running.len() - i,
        {
            let peer_id = running[i];
            let ghost before = self@;
            assert(old(self)@.running().contains(peer_id));
            assert(!exists|k: int| 0 <= k < i && #[trigger] running@[k] == peer_id);
            let context = match self.peers.get(&peer_id.0) {
                Some(context) => *context,
                None => {
                    assert(false);
                    return out;
                },
            };
            self.start_closing(peer_id, context);
            out.push(Action::ClosePeer { peer_id });
            proof {
                assert(self@.peers.dom() =~= before.peers.dom());
                assert forall|p: PeerId| #[trigger] self@.peers.contains_key(p) implies self@.peers[p]
                    == (if exists|k: int| 0 <= k < i + 1 && #[trigger] running@[k] == p {
                    PeerContext { phase: Phase::Closing, ..old(self)@.peers[p] }
                } else {
                    old(self)@.peers[p]
                }) by {
                    if p == peer_id {
                        assert(running@[i as int] == p);
                    } else {
                        if exists|k: int| 0 <= k < i + 1 && #[trigger] running@[k] == p {
                            let k = choose|k: int| 0 <= k < i + 1 && #[trigger] running@[k] == p;
                            assert(0 <= k < i && running@[k] == p);
                        }
                        if exists|k: int| 0 <= k < i && #[trigger] running@[k] == p {
                            let k = choose|k: int| 0 <= k < i && #[trigger] running@[k] == p;
                            assert(0 <= k < i + 1 && running@[k] == p);
                        }
                    }
                }
            }
            i = i + 1;
        }
        proof {
            let post = self@;
            let expected = old(self)@.shut_down();
            assert forall|p: PeerId| post.peers.contains_key(p) implies post.peers[p].phase
                == Phase::Closing by {
                if old(self)@.running().contains(p) {
                    let k = choose|k: int| 0 <= k < running.len() && #[trigger] running@[k] == p;
                    assert(0 <= k < i && running@[k] == p);
                } else {
                    assert(old(self)@.peers[p].phase == Phase::Closing);
                }
            }
            assert(post.peers =~= expected.peers) by {
                assert forall|p: PeerId| post.peers.contains_key(p) implies #[trigger] post.peers[p]
                    == expected.peers[p] by {
                    assert(post.peers[p].phase == Phase::Closing);
                }
            }
            assert(post.requests.by_peer =~= Map::empty()) by {
                assert forall|p: PeerId| !post.requests.by_peer.contains_key(p) by {
                    if post.peers.contains_key(p) {
                        assert(post.peers[p].phase == Phase::Closing);
                    }
                }
            }
            assert(post.requests.to_remote =~= Map::empty());
            assert forall|p: PeerId| old(self)@.running().contains(p) implies exists|k: int|
                0 <= k < out.len() && stopped(#[trigger] out@[k]) == Some(p) by {
                let k = choose|k: int| 0 <= k < running.len() && #[trigger] running@[k] == p;
                assert(stopped(out@[k]) == Some(p));
            }
        }
        out
    }

    /// The peers whose tasks have not been told to stop yet, each once.
    fn running_peers(&self) -> (running: Vec<PeerId>)
        ensures
            forall|k: int, l: int| 0 <= k < l < running.len() ==> running@[k] != running@[l],
            forall|p: PeerId|
                self@.running().contains(p) <==> exists|k: int|
                    0 <= k < running.len() && #[trigger] running@[k] == p,
    {
        broadcast use vstd::std_specs::hash::group_hash_axioms;
        let mut running: Vec<PeerId> = Vec::new();
        let ghost walk = vstd::std_specs::hash::spec_hash_map_iter(&self.peers).remaining();
        let ghost mut origin: Seq<int> = Seq::empty();
        for entry in it: self.peers.iter()
            invariant
                it.seq() == walk,
                walk == vstd::std_specs::hash::spec_hash_map_iter(&self.peers).remaining(),
                walk.no_duplicates(),
                origin.len() == running.len(),
                forall|i: int|
                    0 <= i < origin.len() ==> {
                        &&& 0 <= #[trigger] origin[i] < it.index()
                        &&& self@.running().contains(PeerId(*walk[origin[i]].0))
                        &&& running@[i] == PeerId(*walk[origin[i]].0)
                    },
                forall|i: int, j: int|
                    0 <= i < j < origin.len() ==> #[trigger] origin[i] < #[trigger] origin[j],
                forall|k: int|
                    0 <= k < it.index() && self@.running().contains(PeerId(*(#[trigger] walk[k]).0))
                        ==> exists|i: int| 0 <= i < origin.len() && origin[i] == k,
        {
            let (id, context) = entry;
            let ghost n = it.index();
            let ghost origin_before = origin;
            let is_running = match context.phase {
                Phase::Closing => false,
                _ => true,
            };
            proof {
                assert(entry == walk[n]);
                assert(self.peers@.contains_key(*walk[n].0) && self.peers@[*walk[n].0] == *walk[n].1);
                assert(is_running == self@.running().contains(PeerId(*walk[n].0)));
            }
            if is_running {
                running.push(PeerId(*id));
                proof {
                    origin = origin.push(n);
                }
            }
            proof {
                assert forall|k: int|
                    0 <= k < n + 1 && self@.running().contains(
                        PeerId(*(#[trigger] walk[k]).0),
                    ) implies exists|i: int| 0 <= i < origin.len() && origin[i] == k by {
                    if k < n {
                        let i = choose|i: int| 0 <= i < origin_before.len() && origin_before[i] == k;
                        assert(origin[i] == k);
                    } else {
                        assert(origin[origin.len() - 1] == k);
                    }
                }
            }
        }
        proof {
            assert forall|k: int, l: int| 0 <= k < l < running.len() implies running@[k]
                != running@[l] by {
                assert(origin[k] < origin[l]);
                lemma_walk_keys_differ(self.peers@, walk, origin[k], origin[l]);
            }
            assert forall|p: PeerId| self@.running().contains(p) implies exists|k: int|
                0 <= k < running.len() && #[trigger] running@[k] == p by {
                assert(self.peers@.contains_key(p.0));
                assert(walk.contains((&p.0, &self.peers@[p.0])));
                let w = choose|w: int| 0 <= w < walk.len() && walk[w] == (&p.0, &self.peers@[p.0]);
                assert(self@.running().contains(PeerId(*walk[w].0)));
                let i = choose|i: int| 0 <= i < origin.len() && origin[i] == w;
                assert(running@[i] == p);
            }
            assert forall|p: PeerId|
                (exists|k: int| 0 <= k < running.len() && #[trigger] running@[k] == p)
                    implies self@.running().contains(p) by {
                let k = choose|k: int| 0 <= k < running.len() && #[trigger] running@[k] == p;
                assert(0 <= origin[k]);
            }
        }
        running
    }

    /// Takes note of a stream that has been opened, in the direction that
    /// `role` names.
    pub fn open_connection(&mut self, address: A, role: Role) -> (out: Vec<Action<A>>)
        requires
            old(self).wf(),
        ensures
            final(self).wf(),
            connection_opened(old(self)@, address, role, final(self)@, out@),
    {
        broadcast use vstd::std_specs::hash::group_hash_axioms;
        if self.next_peer_id == u64::MAX {
            return single(
                Action::Connectivity(
                    ConnectivityEvent::ConnectionError {
                        address,
                        error: P2pError::PeerError(PeerError::PeerUnavailable),
                    },
                ),
            );
        }
        let peer_id = PeerId(self.next_peer_id);
        let context = PeerContext {
            address,
            role,
            phase: Phase::Handshaking,
            subscriptions: TopicSet { blocks: false, transactions: false },
        };
        self.peers.insert(peer_id.0, context);
        self.next_peer_id = self.next_peer_id + 1;
        proof {
            assert(self@.peers =~= old(self)@.peers.insert(peer_id, context));
        }
        single(Action::SpawnPeer { peer_id, address, role })
    }

    /// Carries out a command of a handle.
    pub fn handle_command(&mut self, command: Command<A>) -> (r: Result<Vec<Action<A>>, P2pError>)
        requires
            old(self).wf(),
        ensures
            final(self).wf(),
            command_handled(old(self)@, command, final(self)@, actions_of(r)),
    {
        broadcast use vstd::std_specs::hash::group_hash_axioms;
        match command {
            Command::Connect { address } => Ok(single(Action::Dial { address })),
            Command::Disconnect { peer_id } => {
                let context = match self.peers.get(&peer_id.0) {
                    Some(context) => *context,
                    None => {
                        return Err(P2pError::PeerError(PeerError::PeerDoesntExist));
                    },
                };
                match context.phase {
                    Phase::Closing => Ok(Vec::new()),
                    _ => {
                        self.start_closing(peer_id, context);
                        Ok(single(Action::ClosePeer { peer_id }))
                    },
                }
            },
            Command::SendRequest { peer_id, request_id, message } => {
                let context = match self.peers.get(&peer_id.0) {
                    Some(context) => *context,
                    None => {
                        return Err(P2pError::PeerError(PeerError::PeerDoesntExist));
                    },
                };
                match context.phase {
                    Phase::Established => {
                        let message = self.request_mgr.make_request(request_id, message)?;
                        Ok(single(Action::SendToPeer { peer_id, message }))
                    },
                    _ => Err(P2pError::PeerError(PeerError::PeerUnavailable)),
                }
            },
            Command::SendResponse { request_id, message } => {
                match self.request_mgr.make_response(&request_id, message) {
                    Some((peer_id, message)) => Ok(single(Action::SendToPeer { peer_id, message })),
                    None => Ok(Vec::new()),
                }
            },
            Command::AnnounceData { topic, message } => {
                if message.len() > self.config.announcement_max_size {
                    return Err(
                        P2pError::PublishError(
                            PublishError::MessageTooLarge(
                                message.len(),
                                self.config.announcement_max_size,
                            ),
                        ),
                    );
                }
                Ok(self.broadcast(topic, &message))
            },
        }
    }

    /// Takes what the task of `peer_id` has reported.
    pub fn handle_peer_event(&mut self, peer_id: PeerId, event: PeerEvent) -> (out: Vec<Action<A>>)
        requires
            old(self).wf(),
        ensures
            final(self).wf(),
            peer_event_handled(old(self)@, peer_id, event, final(self)@, out@),
    {
        broadcast use vstd::std_specs::hash::group_hash_axioms;
        let context = match self.peers.get(&peer_id.0) {
            Some(context) => *context,
            None => {
                return Vec::new();
            },
        };
        if let PeerEvent::ConnectionClosed = event {
            self.peers.remove(&peer_id.0);
            self.request_mgr.unregister_peer(&peer_id);
            proof {
                assert(self@.peers =~= old(self)@.peers.remove(peer_id));
            }
            return single(Action::Connectivity(ConnectivityEvent::ConnectionClosed { peer_id }));
        }
        match context.phase {
            Phase::Closing => Vec::new(),
            Phase::Handshaking => self.handle_handshaking(peer_id, context, event),
            Phase::Established => self.handle_established(peer_id, context, event),
        }
    }

    /// Takes what a peer has reported that has not shaken hands yet.
    fn handle_handshaking(&mut self, peer_id: PeerId, context: PeerContext<A>, event: PeerEvent) -> (out:
        Vec<Action<A>>)
        requires
            old(self).wf(),
            old(self)@.peers.contains_key(peer_id),
            old(self)@.peers[peer_id] == context,
            context.phase == Phase::Handshaking,
            !(event is ConnectionClosed),
        ensures
            final(self).wf(),
            handshaking_event_handled(old(self)@, peer_id, event, final(self)@, out@),
    {
        broadcast use vstd::std_specs::hash::group_hash_axioms;
        let error = match event {
            PeerEvent::MessageReceived(Message::Handshake(remote)) => {
                match validate_handshake(&self.config, &remote) {
                    Ok(()) => {
                        let established = PeerContext {
                            address: context.address,
                            role: context.role,
                            phase: Phase::Established,
                            subscriptions: remote.subscriptions,
                        };
                        self.peers.insert(peer_id.0, established);
                        let registered = self.request_mgr.register_peer(peer_id);
                        proof {
                            assert(self@.peers =~= old(self)@.peers.insert(peer_id, established));
                        }
                        let peer_info = PeerInfo {
                            peer_id,
                            network: remote.network,
                            version: remote.version,
                            agent: remote.agent,
                            subscriptions: remote.subscriptions,
                        };
                        let accepted = match context.role {
                            Role::Inbound => ConnectivityEvent::InboundAccepted {
                                address: context.address,
                                peer_info,
                                receiver_address: remote.receiver_address,
                            },
                            Role::Outbound => ConnectivityEvent::OutboundAccepted {
                                address: context.address,
                                peer_info,
                                receiver_address: remote.receiver_address,
                            },
                        };
                        return single(Action::Connectivity(accepted));
                    },
                    Err(e) => P2pError::ProtocolError(e),
                }
            },
            PeerEvent::MessageReceived(_) => P2pError::ProtocolError(
                ProtocolError::UnexpectedMessage,
            ),
            PeerEvent::HandshakeFailed(error) => error,
            PeerEvent::Misbehaved(error) => error,
            PeerEvent::ConnectionClosed => {
                return Vec::new();
            },
        };
        self.start_closing(peer_id, context);
        pair(
            Action::Connectivity(
                ConnectivityEvent::ConnectionError { address: context.address, error },
            ),
            Action::ClosePeer { peer_id },
        )
    }

    /// Takes what an established peer has reported.
    fn handle_established(&mut self, peer_id: PeerId, context: PeerContext<A>, event: PeerEvent) -> (out:
        Vec<Action<A>>)
        requires
            old(self).wf(),
            old(self)@.peers.contains_key(peer_id),
            old(self)@.peers[peer_id] == context,
            context.phase == Phase::Established,
            !(event is ConnectionClosed),
        ensures
            final(self).wf(),
            established_event_handled(old(self)@, peer_id, event, final(self)@, out@),
    {
        broadcast use vstd::std_specs::hash::group_hash_axioms;
        let error = match event {
            PeerEvent::MessageReceived(Message::Handshake(_)) => P2pError::ProtocolError(
                ProtocolError::UnexpectedMessage,
            ),
            PeerEvent::MessageReceived(Message::Request { request_id, request }) => {
                return match self.request_mgr.register_request(&peer_id, &request_id) {
                    Ok(ephemeral) => single(
                        match request {
                            Request::PeerManager(request) => Action::Connectivity(
                                ConnectivityEvent::Request { peer_id, request_id: ephemeral, request },
                            ),
                            Request::Sync(request) => Action::Syncing(
                                SyncingEvent::Request { peer_id, request_id: ephemeral, request },
                            ),
                        },
                    ),
                    Err(_) => Vec::new(),
                };
            },
            PeerEvent::MessageReceived(Message::Response { request_id, response }) => {
                return single(
                    match response {
                        Response::PeerManager(response) => Action::Connectivity(
                            ConnectivityEvent::Response { peer_id, request_id, response },
                        ),
                        Response::Sync(response) => Action::Syncing(
                            SyncingEvent::Response { peer_id, request_id, response },
                        ),
                    },
                );
            },
            PeerEvent::MessageReceived(Message::Announcement { topic, message }) => {
                if message.len() > self.config.announcement_max_size {
                    P2pError::ProtocolError(ProtocolError::MessageTooLarge)
                } else {
                    match Announcement::decode(message.as_slice()) {
                        Some(announcement) => {
                            return single(
                                Action::Syncing(
                                    SyncingEvent::Announcement {
                                        peer_id,
                                        announcement: Box::new(announcement),
                                    },
                                ),
                            );
                        },
                        None => P2pError::ProtocolError(ProtocolError::MalformedMessage),
                    }
                }
            },
            PeerEvent::HandshakeFailed(_) => {
                return Vec::new();
            },
            PeerEvent::Misbehaved(error) => error,
            PeerEvent::ConnectionClosed => {
                return Vec::new();
            },
        };
        self.start_closing(peer_id, context);
        pair(
            Action::Connectivity(ConnectivityEvent::Misbehaved { peer_id, error }),
            Action::ClosePeer { peer_id },
        )
    }

    /// Marks a peer as closing and forgets its pending requests.
    fn start_closing(&mut self, peer_id: PeerId, context: PeerContext<A>)
        requires
            old(self).wf(),
            old(self)@.peers.contains_key(peer_id),
            old(self)@.peers[peer_id] == context,
        ensures
            final(self).wf(),
            final(self)@ == old(self)@.closing(peer_id),
    {
        broadcast use vstd::std_specs::hash::group_hash_axioms;
        let closing = PeerContext {
            address: context.address,
            role: context.role,
            phase: Phase::Closing,
            subscriptions: context.subscriptions,
        };
        self.peers.insert(peer_id.0, closing);
        self.request_mgr.unregister_peer(&peer_id);
        proof {
            assert(self@.peers =~= old(self)@.peers.insert(peer_id, closing));
        }
    }

    /// One message for each established peer that has subscribed to
    /// `topic`.
    fn broadcast(&self, topic: PubSubTopic, message: &Vec<u8>) -> (out: Vec<Action<A>>)
        ensures
            is_broadcast(out@, self@.recipients(topic), topic, message@),
    {
        broadcast use vstd::std_specs::hash::group_hash_axioms;
        let mut out: Vec<Action<A>> = Vec::new();
        let ghost walk = vstd::std_specs::hash::spec_hash_map_iter(&self.peers).remaining();
        let ghost recipients = self@.recipients(topic);
        let ghost mut origin: Seq<int> = Seq::empty();
        for entry in it: self.peers.iter()
            invariant
                it.seq() == walk,
                walk == vstd::std_specs::hash::spec_hash_map_iter(&self.peers).remaining(),
                walk.no_duplicates(),
                recipients == self@.recipients(topic),
                origin.len() == out.len(),
                forall|i: int|
                    0 <= i < origin.len() ==> {
                        &&& 0 <= #[trigger] origin[i] < it.index()
                        &&& recipients.contains(PeerId(*walk[origin[i]].0))
                        &&& announces(out@[i], PeerId(*walk[origin[i]].0), topic, message@)
                    },
                forall|i: int, j: int|
                    0 <= i < j < out.len() ==> #[trigger] origin[i] < #[trigger] origin[j],
                forall|k: int|
                    0 <= k < it.index() && recipients.contains(PeerId(*(#[trigger] walk[k]).0))
                        ==> exists|i: int| 0 <= i < out.len() && origin[i] == k,
        {
            let (id, context) = entry;
            let ghost n = it.index();
            let ghost before = out@;
            let ghost origin_before = origin;
            let listening = match context.phase {
                Phase::Established => context.subscriptions.contains(topic),
                _ => false,
            };
            proof {
                assert(entry == walk[n]);
                assert(self.peers@.contains_key(*walk[n].0) && self.peers@[*walk[n].0] == *walk[n].1);
                assert(listening == recipients.contains(PeerId(*walk[n].0)));
            }
            if listening {
                let copy = message.clone();
                assert(copy@ =~= message@);
                out.push(
                    Action::SendToPeer {
                        peer_id: PeerId(*id),
                        message: Box::new(Message::Announcement { topic, message: copy }),
                    },
                );
                proof {
                    origin = origin.push(n);
                }
            }
            proof {
                assert forall|k: int|
                    0 <= k < n + 1 && recipients.contains(
                        PeerId(*(#[trigger] walk[k]).0),
                    ) implies exists|i: int| 0 <= i < out.len() && origin[i] == k by {
                    if k < n {
                        let i = choose|i: int| 0 <= i < before.len() && origin_before[i] == k;
                        assert(origin[i] == k);
                    } else {
                        assert(origin[out.len() - 1] == k);
                    }
                }
            }
        }
        proof {
            assert forall|i: int| 0 <= i < out.len() implies announces(
                #[trigger] out@[i],
                PeerId(*walk[origin[i]].0),
                topic,
                message@,
            ) && recipients.contains(PeerId(*walk[origin[i]].0)) by {
                assert(0 <= origin[i]);
            }
            assert forall|p: PeerId| recipients.contains(p) implies exists|i: int|
                0 <= i < out.len() && sent_to(#[trigger] out@[i]) == Some(p) by {
                assert(self.peers@.contains_key(p.0));
                assert(walk.contains((&p.0, &self.peers@[p.0])));
                let k = choose|k: int| 0 <= k < walk.len() && walk[k] == (&p.0, &self.peers@[p.0]);
                assert(recipients.contains(PeerId(*walk[k].0)));
                let i = choose|i: int| 0 <= i < out.len() && origin[i] == k;
                assert(sent_to(out@[i]) == Some(p));
            }
            assert forall|i: int, j: int| 0 <= i < j < out.len() implies sent_to(
                #[trigger] out@[i],
            ) != sent_to(#[trigger] out@[j]) by {
                assert(origin[i] < origin[j]);
                lemma_walk_keys_differ(self.peers@, walk, origin[i], origin[j]);
            }
        }
        out
    }
}

/// Whether `action` sends the announcement `bytes` on `topic` to `peer`.
spec fn announces<A>(action: Action<A>, peer: PeerId, topic: PubSubTopic, bytes: Seq<u8>) -> bool {
    &&& action matches Action::SendToPeer { peer_id, message }
    &&& peer_id == peer
    &&& *message matches Message::Announcement { topic: t, message: m }
    &&& t == topic
    &&& m@ == bytes
}

/// The one action given.
fn single<A>(action: Action<A>) -> (out: Vec<Action<A>>)
    ensures
        out@ == seq![action],
{
    let mut out: Vec<Action<A>> = Vec::new();
    out.push(action);
    assert(out@ =~= seq![action]);
    out
}

/// The two actions given, in order.
fn pair<A>(first: Action<A>, second: Action<A>) -> (out: Vec<Action<A>>)
    ensures
        out@ == seq![first, second],
{
    let mut out: Vec<Action<A>> = Vec::new();
    out.push(first);
    out.push(second);
    assert(out@ =~= seq![first, second]);
    out
}

/// Two places of a walk over a map hold different keys.
proof fn lemma_walk_keys_differ<A>(
    map: Map<u64, PeerContext<A>>,
    walk: Seq<(&u64, &PeerContext<A>)>,
    i: int,
    j: int,
)
    requires
        0 <= i < j < walk.len(),
        walk.no_duplicates(),
        forall|k: int|
            0 <= k < walk.len() ==> map.contains_key(*(#[trigger] walk[k]).0) && map[*walk[k].0]
                == *walk[k].1,
    ensures
        *walk[i].0 != *walk[j].0,
{
    if *walk[i].0 == *walk[j].0 {
        assert(*walk[i].1 == *walk[j].1);
        assert(walk[i] == walk[j]);
    }
}

} // verus!
