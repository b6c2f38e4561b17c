use p2p::backend::{
    validate_handshake, Action, Backend, BackendConfig, Input, PeerContext, PeerEvent, Phase, Role,
};
use p2p::error::{DialError, P2pError, PeerError, ProtocolError, PublishError};
use p2p::message::{
    Announcement, PeerManagerRequest, PeerManagerResponse, Request, Response, SyncRequest,
    SyncResponse,
};
use p2p::primitives::SemVer;
use p2p::service::{self, DefaultNetworkingService, ANNOUNCEMENT_MAX_SIZE};
use p2p::types::{
    Command, ConnectivityEvent, HandshakeData, Message, PeerAddress, PeerId, PeerInfo,
    PubSubTopic, RequestId, SyncingEvent, TopicSet,
};

type Address = u32;

const N1: Address = 1;
const N2: Address = 2;

fn node() -> Backend<Address> {
    Backend::new(BackendConfig::mainnet())
}

fn node_with_magic(network: [u8; 4]) -> Backend<Address> {
    Backend::new(BackendConfig { network, ..BackendConfig::mainnet() })
}

fn handshake_of(node: &Backend<Address>) -> PeerEvent {
    PeerEvent::MessageReceived(Message::Handshake(node.config().handshake(None)))
}

fn spawned(actions: Vec<Action<Address>>) -> PeerId {
    assert_eq!(actions.len(), 1);
    match &actions[0] {
        Action::SpawnPeer { peer_id, .. } => *peer_id,
        other => panic!("expected a new peer task, got {:?}", other),
    }
}

/// Opens a stream from `dialer` to `listener` and lets both ends shake
/// hands. Returns the id that each side gave to the other.
fn connect(dialer: &mut Backend<Address>, listener: &mut Backend<Address>) -> (PeerId, PeerId) {
    assert_eq!(
        dialer.step(Input::Command(Command::Connect { address: N2 })),
        Ok(vec![Action::Dial { address: N2 }])
    );
    let at_dialer = spawned(dialer.step(Input::Dialed { address: N2 }).unwrap());
    let at_listener = spawned(listener.step(Input::Accepted { address: N1 }).unwrap());
    let hello = handshake_of(dialer);
    let ack = handshake_of(listener);
    let accepted = listener.step(Input::Peer { peer_id: at_listener, event: hello }).unwrap();
    assert!(matches!(
        accepted.as_slice(),
        [Action::Connectivity(ConnectivityEvent::InboundAccepted { .. })]
    ));
    let accepted = dialer.step(Input::Peer { peer_id: at_dialer, event: ack }).unwrap();
    assert!(matches!(
        accepted.as_slice(),
        [Action::Connectivity(ConnectivityEvent::OutboundAccepted { .. })]
    ));
    (at_dialer, at_listener)
}

fn mainnet_info(peer_id: PeerId) -> PeerInfo {
    PeerInfo {
        peer_id,
        network: [0x1a, 0x2b, 0x3c, 0x4d],
        version: SemVer::new(0, 1, 0),
        agent: None,
        subscriptions: TopicSet::from_topics(&[PubSubTopic::Blocks, PubSubTopic::Transactions]),
    }
}

fn sends_to(actions: &[Action<Address>]) -> Vec<PeerId> {
    let mut peers: Vec<PeerId> = actions
        .iter()
        .map(|action| match action {
            Action::SendToPeer { peer_id, .. } => *peer_id,
            other => panic!("expected a message for a peer, got {:?}", other),
        })
        .collect();
    peers.sort();
    peers
}

#[test]
fn mainnet_configuration() {
    let config = BackendConfig::mainnet();
    assert_eq!(config.network, [0x1a, 0x2b, 0x3c, 0x4d]);
    assert_eq!(config.version, SemVer::new(0, 1, 0));
    assert_eq!(config.subscriptions, TopicSet::all());
    assert_eq!(config.announcement_max_size, ANNOUNCEMENT_MAX_SIZE);
    let hello = config.handshake(Some(PeerAddress::Ip4 { ip: 0x7f000001, port: 3031 }));
    assert_eq!(
        hello,
        HandshakeData {
            network: [0x1a, 0x2b, 0x3c, 0x4d],
            version: SemVer::new(0, 1, 0),
            agent: None,
            subscriptions: TopicSet::all(),
            receiver_address: Some(PeerAddress::Ip4 { ip: 0x7f000001, port: 3031 }),
        }
    );
}

#[test]
fn connect_and_greet() {
    let mut n1 = node();
    let mut n2 = node();
    let (mut conn1, _) = DefaultNetworkingService::start(vec![N1]);
    let (mut conn2, _) = DefaultNetworkingService::start(vec![N2]);

    let target = conn2.local_addresses()[0];
    let command = conn1.connect(target);
    assert_eq!(n1.step(Input::Command(command)), Ok(vec![Action::Dial { address: N2 }]));
    let n2_at_n1 = spawned(n1.step(Input::Dialed { address: N2 }).unwrap());
    let n1_at_n2 = spawned(n2.step(Input::Accepted { address: N1 }).unwrap());

    let hello = handshake_of(&n1);
    let ack = handshake_of(&n2);

    let mut at_n2 = n2.step(Input::Peer { peer_id: n1_at_n2, event: hello }).unwrap();
    assert_eq!(
        at_n2,
        vec![Action::Connectivity(ConnectivityEvent::InboundAccepted {
            address: N1,
            peer_info: mainnet_info(n1_at_n2),
            receiver_address: None,
        })]
    );
    let mut at_n1 = n1.step(Input::Peer { peer_id: n2_at_n1, event: ack }).unwrap();
    assert_eq!(
        at_n1,
        vec![Action::Connectivity(ConnectivityEvent::OutboundAccepted {
            address: N2,
            peer_info: mainnet_info(n2_at_n1),
            receiver_address: None,
        })]
    );

    // What the handles report.
    let Action::Connectivity(event) = at_n1.remove(0) else { unreachable!() };
    match conn1.poll_next(Some(event)) {
        Ok(service::ConnectivityEvent::OutboundAccepted { address, peer_info, receiver_address }) => {
            assert_eq!(address, conn2.local_addresses()[0]);
            assert_eq!(peer_info.network, [0x1a, 0x2b, 0x3c, 0x4d]);
            assert_eq!(peer_info.version, SemVer::new(0, 1, 0));
            assert_eq!(peer_info.agent, None);
            assert_eq!(
                peer_info.subscriptions,
                TopicSet::from_topics(&[PubSubTopic::Blocks, PubSubTopic::Transactions])
            );
            assert_eq!(receiver_address, None);
        }
        other => panic!("invalid event received: {:?}", other),
    }
    let Action::Connectivity(event) = at_n2.remove(0) else { unreachable!() };
    match conn2.poll_next(Some(event)) {
        Ok(service::ConnectivityEvent::InboundAccepted { address, peer_info, .. }) => {
            assert_eq!(address, N1);
            assert_eq!(peer_info.network, [0x1a, 0x2b, 0x3c, 0x4d]);
            assert_eq!(peer_info.version, SemVer::new(0, 1, 0));
            assert_eq!(peer_info.agent, None);
        }
        other => panic!("invalid event received, expected incoming connection: {:?}", other),
    }

    assert_eq!(n1.peer(n2_at_n1).map(|c| (c.phase, c.role)), Some((Phase::Established, Role::Outbound)));
    assert_eq!(n2.peer(n1_at_n2).map(|c| (c.phase, c.role)), Some((Phase::Established, Role::Inbound)));
}

#[test]
fn disconnect() {
    let mut n1 = node();
    let mut n2 = node();
    let (n2_at_n1, n1_at_n2) = connect(&mut n1, &mut n2);
    let (mut conn2, _) = DefaultNetworkingService::<>::start(vec![N2]);

    let command: Command<Address> = conn2.disconnect(n1_at_n2);
    assert_eq!(
        n2.step(Input::Command(command)),
        Ok(vec![Action::ClosePeer { peer_id: n1_at_n2 }])
    );
    assert_eq!(n2.peer(n1_at_n2).map(|c| c.phase), Some(Phase::Closing));

    // The task at N2 ends, and with it the stream; the task at N1 sees the
    // stream close.
    assert_eq!(
        n2.step(Input::Peer { peer_id: n1_at_n2, event: PeerEvent::ConnectionClosed }),
        Ok(vec![Action::Connectivity(ConnectivityEvent::ConnectionClosed { peer_id: n1_at_n2 })])
    );
    assert_eq!(
        n1.step(Input::Peer { peer_id: n2_at_n1, event: PeerEvent::ConnectionClosed }),
        Ok(vec![Action::Connectivity(ConnectivityEvent::ConnectionClosed { peer_id: n2_at_n1 })])
    );
    assert_eq!(n1.peer(n2_at_n1), None);
    assert_eq!(n2.peer(n1_at_n2), None);
}

#[test]
fn disconnect_twice_and_unknown_peer() {
    let mut n1 = node();
    let mut n2 = node();
    let (n2_at_n1, _) = connect(&mut n1, &mut n2);
    assert_eq!(
        n1.step(Input::Command(Command::Disconnect { peer_id: n2_at_n1 })),
        Ok(vec![Action::ClosePeer { peer_id: n2_at_n1 }])
    );
    assert_eq!(n1.step(Input::Command(Command::Disconnect { peer_id: n2_at_n1 })), Ok(vec![]));
    assert_eq!(
        n1.step(Input::Command(Command::Disconnect { peer_id: PeerId::from_u64(99) })),
        Err(P2pError::PeerError(PeerError::PeerDoesntExist))
    );
}

#[test]
fn self_dial() {
    let mut n1 = node();
    let mut n2 = node();
    let failure = P2pError::DialError(DialError::AttemptToDialSelf);

    assert_eq!(
        n1.step(Input::Command(Command::Connect { address: N1 })),
        Ok(vec![Action::Dial { address: N1 }])
    );
    let dialer = spawned(n1.step(Input::Dialed { address: N1 }).unwrap());
    let listener = spawned(n1.step(Input::Accepted { address: 77 }).unwrap());
    assert_ne!(dialer, listener);

    // One error for the dial, then the two ends of the stream close.
    assert_eq!(
        n1.step(Input::Peer { peer_id: dialer, event: PeerEvent::HandshakeFailed(failure) }),
        Ok(vec![
            Action::Connectivity(ConnectivityEvent::ConnectionError { address: N1, error: failure }),
            Action::ClosePeer { peer_id: dialer },
        ])
    );
    assert_eq!(
        n1.step(Input::Peer { peer_id: dialer, event: PeerEvent::ConnectionClosed }),
        Ok(vec![Action::Connectivity(ConnectivityEvent::ConnectionClosed { peer_id: dialer })])
    );
    assert_eq!(
        n1.step(Input::Peer { peer_id: listener, event: PeerEvent::ConnectionClosed }),
        Ok(vec![Action::Connectivity(ConnectivityEvent::ConnectionClosed { peer_id: listener })])
    );

    // The node connects normally afterwards.
    let (n2_at_n1, _) = connect(&mut n1, &mut n2);
    assert_ne!(n2_at_n1, dialer);
    assert_ne!(n2_at_n1, listener);
    assert_eq!(n1.peer(n2_at_n1).map(|c| c.phase), Some(Phase::Established));
}

#[test]
fn wrong_network() {
    let mut n1 = node_with_magic([0x1a, 0x2b, 0x3c, 0x4d]);
    let mut n2 = node_with_magic([0x01, 0x02, 0x03, 0x04]);
    let n2_at_n1 = spawned(n1.step(Input::Dialed { address: N2 }).unwrap());
    let n1_at_n2 = spawned(n2.step(Input::Accepted { address: N1 }).unwrap());
    let hello = handshake_of(&n1);
    let ack = handshake_of(&n2);

    assert_eq!(
        n2.step(Input::Peer { peer_id: n1_at_n2, event: hello }),
        Ok(vec![
            Action::Connectivity(ConnectivityEvent::ConnectionError {
                address: N1,
                error: P2pError::ProtocolError(ProtocolError::DifferentNetwork(
                    [1, 2, 3, 4],
                    [0x1a, 0x2b, 0x3c, 0x4d]
                )),
            }),
            Action::ClosePeer { peer_id: n1_at_n2 },
        ])
    );
    assert_eq!(
        n1.step(Input::Peer { peer_id: n2_at_n1, event: ack }),
        Ok(vec![
            Action::Connectivity(ConnectivityEvent::ConnectionError {
                address: N2,
                error: P2pError::ProtocolError(ProtocolError::DifferentNetwork(
                    [0x1a, 0x2b, 0x3c, 0x4d],
                    [1, 2, 3, 4]
                )),
            }),
            Action::ClosePeer { peer_id: n2_at_n1 },
        ])
    );
    // Never accepted, and closed once the task is gone.
    assert_eq!(n2.peer(n1_at_n2).map(|c| c.phase), Some(Phase::Closing));
    assert_eq!(
        n2.step(Input::Peer { peer_id: n1_at_n2, event: PeerEvent::ConnectionClosed }),
        Ok(vec![Action::Connectivity(ConnectivityEvent::ConnectionClosed { peer_id: n1_at_n2 })])
    );
}

#[test]
fn handshake_is_checked_for_network_then_version() {
    let config = BackendConfig::mainnet();
    let mut remote = config.handshake(None);
    assert_eq!(validate_handshake(&config, &remote), Ok(()));
    remote.version = SemVer::new(0, 1, 1);
    assert_eq!(validate_handshake(&config, &remote), Err(ProtocolError::IncompatibleVersion));
    remote.network = [9, 9, 9, 9];
    assert_eq!(
        validate_handshake(&config, &remote),
        Err(ProtocolError::DifferentNetwork([0x1a, 0x2b, 0x3c, 0x4d], [9, 9, 9, 9]))
    );
    remote.version = SemVer::new(0, 1, 0);
    remote.network = [0x1a, 0x2b, 0x3c, 0x4c];
    assert_eq!(
        validate_handshake(&config, &remote),
        Err(ProtocolError::DifferentNetwork([0x1a, 0x2b, 0x3c, 0x4d], [0x1a, 0x2b, 0x3c, 0x4c]))
    );
}

#[test]
fn oversized_announcement() {
    let mut n1 = node();
    let mut n2 = node();
    connect(&mut n1, &mut n2);
    let (_, mut sync1) = DefaultNetworkingService::start(vec![N1]);

    // The serialized announcement is one byte longer than its block.
    let announcement = Announcement::Block(vec![0u8; ANNOUNCEMENT_MAX_SIZE]);
    let refused: Result<Command<Address>, P2pError> = sync1.make_announcement(announcement);
    assert_eq!(
        refused,
        Err(P2pError::PublishError(PublishError::MessageTooLarge(
            ANNOUNCEMENT_MAX_SIZE + 1,
            ANNOUNCEMENT_MAX_SIZE
        )))
    );

    // The backend refuses it as well, should a command ask for it.
    let command = Command::AnnounceData {
        topic: PubSubTopic::Blocks,
        message: vec![0u8; ANNOUNCEMENT_MAX_SIZE + 1],
    };
    assert_eq!(
        n1.step(Input::Command(command)),
        Err(P2pError::PublishError(PublishError::MessageTooLarge(
            ANNOUNCEMENT_MAX_SIZE + 1,
            ANNOUNCEMENT_MAX_SIZE
        )))
    );
}

#[test]
fn announcement_of_the_largest_size_goes_out() {
    let mut n1 = node();
    let mut n2 = node();
    let (n2_at_n1, n1_at_n2) = connect(&mut n1, &mut n2);
    let (_, mut sync1) = DefaultNetworkingService::start(vec![N1]);
    let (_, mut sync2) = DefaultNetworkingService::start(vec![N2]);

    let announcement = Announcement::Block(vec![7u8; ANNOUNCEMENT_MAX_SIZE - 1]);
    let command = sync1.make_announcement(announcement.clone()).unwrap();
    let mut encoded = vec![0u8];
    encoded.extend_from_slice(&vec![7u8; ANNOUNCEMENT_MAX_SIZE - 1]);
    assert_eq!(
        command,
        Command::AnnounceData { topic: PubSubTopic::Blocks, message: encoded.clone() }
    );
    let mut out = n1.step(Input::Command(command)).unwrap();
    assert_eq!(
        out,
        vec![Action::SendToPeer {
            peer_id: n2_at_n1,
            message: Box::new(Message::Announcement {
                topic: PubSubTopic::Blocks,
                message: encoded
            }),
        }]
    );

    // At the other end the announcement comes up on the syncing handle.
    let Action::SendToPeer { message, .. } = out.remove(0) else { unreachable!() };
    let mut up = n2
        .step(Input::Peer { peer_id: n1_at_n2, event: PeerEvent::MessageReceived(*message) })
        .unwrap();
    assert_eq!(
        up,
        vec![Action::Syncing(SyncingEvent::Announcement {
            peer_id: n1_at_n2,
            announcement: Box::new(announcement.clone()),
        })]
    );
    let Action::Syncing(event) = up.remove(0) else { unreachable!() };
    assert_eq!(
        sync2.poll_next(Some(event)),
        Ok(service::SyncingEvent::Announcement { peer_id: n1_at_n2, announcement })
    );
}

#[test]
fn request_response_round_trip() {
    let mut n1 = node();
    let mut n2 = node();
    let (n2_at_n1, n1_at_n2) = connect(&mut n1, &mut n2);
    let (mut conn1, _) = DefaultNetworkingService::<>::start(vec![N1]);
    let (mut conn2, _) = DefaultNetworkingService::<>::start(vec![N2]);

    // N1 sends a request under an id of its own.
    let request = PeerManagerRequest { payload: b"ping".to_vec() };
    let (local_id, command): (RequestId, Command<Address>) =
        conn1.send_request(n2_at_n1, request.clone());
    let mut out = n1.step(Input::Command(command)).unwrap();
    assert_eq!(
        out,
        vec![Action::SendToPeer {
            peer_id: n2_at_n1,
            message: Box::new(Message::Request {
                request_id: local_id,
                request: Request::PeerManager(request.clone()),
            }),
        }]
    );

    // N2 sees it under an ephemeral id.
    let Action::SendToPeer { message, .. } = out.remove(0) else { unreachable!() };
    let mut up = n2
        .step(Input::Peer { peer_id: n1_at_n2, event: PeerEvent::MessageReceived(*message) })
        .unwrap();
    assert_eq!(up.len(), 1);
    let Action::Connectivity(event) = up.remove(0) else { panic!("expected an event") };
    let ephemeral = match conn2.poll_next(Some(event)) {
        Ok(service::ConnectivityEvent::Request { peer_id, request_id, request: seen }) => {
            assert_eq!(peer_id, n1_at_n2);
            assert_eq!(seen, request);
            request_id
        }
        other => panic!("invalid event received: {:?}", other),
    };

    // N2 answers under the ephemeral id; the wire carries N1's id again.
    let response = PeerManagerResponse { payload: b"pong".to_vec() };
    let command: Command<Address> = conn2.send_response(ephemeral, response.clone());
    let mut out = n2.step(Input::Command(command)).unwrap();
    assert_eq!(
        out,
        vec![Action::SendToPeer {
            peer_id: n1_at_n2,
            message: Box::new(Message::Response {
                request_id: local_id,
                response: Response::PeerManager(response.clone()),
            }),
        }]
    );

    // N1 sees the response under the id it chose.
    let Action::SendToPeer { message, .. } = out.remove(0) else { unreachable!() };
    let mut up = n1
        .step(Input::Peer { peer_id: n2_at_n1, event: PeerEvent::MessageReceived(*message) })
        .unwrap();
    let Action::Connectivity(event) = up.remove(0) else { panic!("expected an event") };
    assert_eq!(
        conn1.poll_next(Some(event)),
        Ok(service::ConnectivityEvent::Response {
            peer_id: n2_at_n1,
            request_id: local_id,
            response,
        })
    );

    // The ephemeral id is used up.
    let again: Command<Address> =
        conn2.send_response(ephemeral, PeerManagerResponse { payload: Vec::new() });
    assert_eq!(n2.step(Input::Command(again)), Ok(vec![]));
}

#[test]
fn sync_messages_go_to_the_syncing_handle() {
    let mut n1 = node();
    let mut n2 = node();
    let (n2_at_n1, n1_at_n2) = connect(&mut n1, &mut n2);
    let (_, mut sync1) = DefaultNetworkingService::start(vec![N1]);
    let (_, mut sync2) = DefaultNetworkingService::start(vec![N2]);

    let request = SyncRequest { payload: b"headers".to_vec() };
    let (local_id, command): (RequestId, Command<Address>) =
        sync1.send_request(n2_at_n1, request.clone());
    let mut out = n1.step(Input::Command(command)).unwrap();
    let Action::SendToPeer { message, .. } = out.remove(0) else { unreachable!() };
    let mut up = n2
        .step(Input::Peer { peer_id: n1_at_n2, event: PeerEvent::MessageReceived(*message) })
        .unwrap();
    let Action::Syncing(event) = up.remove(0) else { panic!("expected a syncing event") };
    let ephemeral = match sync2.poll_next(Some(event)) {
        Ok(service::SyncingEvent::Request { peer_id, request_id, request: seen }) => {
            assert_eq!(peer_id, n1_at_n2);
            assert_eq!(seen, request);
            request_id
        }
        other => panic!("invalid event received: {:?}", other),
    };

    let response = SyncResponse { payload: b"none".to_vec() };
    let command: Command<Address> = sync2.send_response(ephemeral, response.clone());
    let mut out = n2.step(Input::Command(command)).unwrap();
    let Action::SendToPeer { message, .. } = out.remove(0) else { unreachable!() };
    let up = n1
        .step(Input::Peer { peer_id: n2_at_n1, event: PeerEvent::MessageReceived(*message) })
        .unwrap();
    assert_eq!(
        up,
        vec![Action::Syncing(SyncingEvent::Response {
            peer_id: n2_at_n1,
            request_id: local_id,
            response,
        })]
    );
}

#[test]
fn dial_failure_is_reported() {
    let mut n1 = node();
    assert_eq!(
        n1.step(Input::DialFailed { address: 9, error: DialError::ConnectionRefusedOrTimedOut }),
        Ok(vec![Action::Connectivity(ConnectivityEvent::ConnectionError {
            address: 9,
            error: P2pError::DialError(DialError::ConnectionRefusedOrTimedOut),
        })])
    );
    assert_eq!(n1.peer(PeerId::from_u64(0)), None);
}

#[test]
fn peer_ids_are_given_out_in_order_and_never_again() {
    let mut n1 = node();
    let a = spawned(n1.step(Input::Accepted { address: 10 }).unwrap());
    let b = spawned(n1.step(Input::Dialed { address: 11 }).unwrap());
    assert_eq!(a, PeerId::from_u64(0));
    assert_eq!(b, PeerId::from_u64(1));
    n1.step(Input::Peer { peer_id: a, event: PeerEvent::ConnectionClosed }).unwrap();
    n1.step(Input::Peer { peer_id: b, event: PeerEvent::ConnectionClosed }).unwrap();
    let c = spawned(n1.step(Input::Accepted { address: 10 }).unwrap());
    assert_eq!(c, PeerId::from_u64(2));
    assert_eq!(
        n1.peer(c),
        Some(PeerContext {
            address: 10,
            role: Role::Inbound,
            phase: Phase::Handshaking,
            subscriptions: TopicSet::empty(),
        })
    );
}

#[test]
fn closed_peer_is_reported_once_and_then_ignored() {
    let mut n1 = node();
    let mut n2 = node();
    let (n2_at_n1, _) = connect(&mut n1, &mut n2);
    assert_eq!(
        n1.step(Input::Peer { peer_id: n2_at_n1, event: PeerEvent::ConnectionClosed }),
        Ok(vec![Action::Connectivity(ConnectivityEvent::ConnectionClosed { peer_id: n2_at_n1 })])
    );
    // Whatever still arrives for the peer is dropped.
    assert_eq!(
        n1.step(Input::Peer { peer_id: n2_at_n1, event: PeerEvent::ConnectionClosed }),
        Ok(vec![])
    );
    let stray = Message::Response {
        request_id: RequestId::from_u128(1),
        response: Response::Sync(SyncResponse { payload: vec![] }),
    };
    assert_eq!(
        n1.step(Input::Peer { peer_id: n2_at_n1, event: PeerEvent::MessageReceived(stray) }),
        Ok(vec![])
    );
    assert_eq!(
        n1.step(Input::Peer {
            peer_id: n2_at_n1,
            event: PeerEvent::Misbehaved(P2pError::ProtocolError(ProtocolError::MalformedMessage)),
        }),
        Ok(vec![])
    );
    assert_eq!(
        n1.step(Input::Command(Command::SendRequest {
            peer_id: n2_at_n1,
            request_id: RequestId::from_u128(5),
            message: Request::Sync(SyncRequest { payload: vec![] }),
        })),
        Err(P2pError::PeerError(PeerError::PeerDoesntExist))
    );
}

#[test]
fn closing_a_peer_drops_its_pending_requests() {
    let mut n1 = node();
    let mut n2 = node();
    let (_, n1_at_n2) = connect(&mut n1, &mut n2);
    let inbound = Message::Request {
        request_id: RequestId::from_u128(3),
        request: Request::Sync(SyncRequest { payload: vec![1] }),
    };
    let up = n2
        .step(Input::Peer { peer_id: n1_at_n2, event: PeerEvent::MessageReceived(inbound) })
        .unwrap();
    let ephemeral = match &up[0] {
        Action::Syncing(SyncingEvent::Request { request_id, .. }) => *request_id,
        other => panic!("expected a request, got {:?}", other),
    };
    n2.step(Input::Peer { peer_id: n1_at_n2, event: PeerEvent::ConnectionClosed }).unwrap();
    let answer = Command::SendResponse {
        request_id: ephemeral,
        message: Response::Sync(SyncResponse { payload: vec![2] }),
    };
    assert_eq!(n2.step(Input::Command(answer)), Ok(vec![]));
}

#[test]
fn misbehaving_peer_is_reported_and_closed() {
    let mut n1 = node();
    let mut n2 = node();
    let (n2_at_n1, _) = connect(&mut n1, &mut n2);
    let error = P2pError::ProtocolError(ProtocolError::MessageTooLarge);
    assert_eq!(
        n1.step(Input::Peer { peer_id: n2_at_n1, event: PeerEvent::Misbehaved(error) }),
        Ok(vec![
            Action::Connectivity(ConnectivityEvent::Misbehaved { peer_id: n2_at_n1, error }),
            Action::ClosePeer { peer_id: n2_at_n1 },
        ])
    );
    assert_eq!(n1.peer(n2_at_n1).map(|c| c.phase), Some(Phase::Closing));
    assert_eq!(
        n1.step(Input::Command(Command::SendRequest {
            peer_id: n2_at_n1,
            request_id: RequestId::from_u128(5),
            message: Request::Sync(SyncRequest { payload: vec![] }),
        })),
        Err(P2pError::PeerError(PeerError::PeerUnavailable))
    );
    assert_eq!(
        n1.step(Input::Peer { peer_id: n2_at_n1, event: PeerEvent::ConnectionClosed }),
        Ok(vec![Action::Connectivity(ConnectivityEvent::ConnectionClosed { peer_id: n2_at_n1 })])
    );
}

#[test]
fn bad_inbound_announcements_are_misbehaviour() {
    let mut n1 = node_with_magic([1, 1, 1, 1]);
    let mut n2 = node_with_magic([1, 1, 1, 1]);
    let (n2_at_n1, _) = connect(&mut n1, &mut n2);
    let too_long = Message::Announcement {
        topic: PubSubTopic::Blocks,
        message: vec![0u8; ANNOUNCEMENT_MAX_SIZE + 1],
    };
    assert_eq!(
        n1.step(Input::Peer { peer_id: n2_at_n1, event: PeerEvent::MessageReceived(too_long) }),
        Ok(vec![
            Action::Connectivity(ConnectivityEvent::Misbehaved {
                peer_id: n2_at_n1,
                error: P2pError::ProtocolError(ProtocolError::MessageTooLarge),
            }),
            Action::ClosePeer { peer_id: n2_at_n1 },
        ])
    );

    let mut n3 = node_with_magic([1, 1, 1, 1]);
    let mut n4 = node_with_magic([1, 1, 1, 1]);
    let (n4_at_n3, _) = connect(&mut n3, &mut n4);
    let malformed = Message::Announcement { topic: PubSubTopic::Blocks, message: vec![5, 1, 2] };
    assert_eq!(
        n3.step(Input::Peer { peer_id: n4_at_n3, event: PeerEvent::MessageReceived(malformed) }),
        Ok(vec![
            Action::Connectivity(ConnectivityEvent::Misbehaved {
                peer_id: n4_at_n3,
                error: P2pError::ProtocolError(ProtocolError::MalformedMessage),
            }),
            Action::ClosePeer { peer_id: n4_at_n3 },
        ])
    );
}

#[test]
fn second_handshake_and_early_message_are_unexpected() {
    let mut n1 = node();
    let mut n2 = node();
    let (n2_at_n1, _) = connect(&mut n1, &mut n2);
    let again = handshake_of(&n2);
    assert_eq!(
        n1.step(Input::Peer { peer_id: n2_at_n1, event: again }),
        Ok(vec![
            Action::Connectivity(ConnectivityEvent::Misbehaved {
                peer_id: n2_at_n1,
                error: P2pError::ProtocolError(ProtocolError::UnexpectedMessage),
            }),
            Action::ClosePeer { peer_id: n2_at_n1 },
        ])
    );

    let early = spawned(n1.step(Input::Accepted { address: 40 }).unwrap());
    let request = Message::Request {
        request_id: RequestId::from_u128(1),
        request: Request::Sync(SyncRequest { payload: vec![] }),
    };
    assert_eq!(
        n1.step(Input::Peer { peer_id: early, event: PeerEvent::MessageReceived(request) }),
        Ok(vec![
            Action::Connectivity(ConnectivityEvent::ConnectionError {
                address: 40,
                error: P2pError::ProtocolError(ProtocolError::UnexpectedMessage),
            }),
            Action::ClosePeer { peer_id: early },
        ])
    );
}

#[test]
fn announcements_reach_only_subscribed_established_peers() {
    let mut hub = node();
    let mut ids = Vec::new();
    // Three peers: one takes blocks, one takes transactions only, one takes
    // both. A fourth has not shaken hands, a fifth is closing.
    let wishes = [
        TopicSet::from_topics(&[PubSubTopic::Blocks]),
        TopicSet::from_topics(&[PubSubTopic::Transactions]),
        TopicSet::all(),
    ];
    for (n, subscriptions) in wishes.iter().enumerate() {
        let id = spawned(hub.step(Input::Accepted { address: 100 + n as u32 }).unwrap());
        let hello = HandshakeData { subscriptions: *subscriptions, ..hub.config().handshake(None) };
        hub.step(Input::Peer {
            peer_id: id,
            event: PeerEvent::MessageReceived(Message::Handshake(hello)),
        })
        .unwrap();
        ids.push(id);
    }
    let _silent = spawned(hub.step(Input::Accepted { address: 200 }).unwrap());
    let leaving = spawned(hub.step(Input::Accepted { address: 201 }).unwrap());
    hub.step(Input::Peer { peer_id: leaving, event: handshake_of(&node()) }).unwrap();
    hub.step(Input::Command(Command::Disconnect { peer_id: leaving })).unwrap();

    let blocks = hub
        .step(Input::Command(Command::AnnounceData {
            topic: PubSubTopic::Blocks,
            message: vec![0, 1, 2],
        }))
        .unwrap();
    assert_eq!(sends_to(&blocks), vec![ids[0], ids[2]]);
    for action in &blocks {
        let Action::SendToPeer { message, .. } = action else { unreachable!() };
        assert_eq!(
            **message,
            Message::Announcement { topic: PubSubTopic::Blocks, message: vec![0, 1, 2] }
        );
    }
    let transactions = hub
        .step(Input::Command(Command::AnnounceData {
            topic: PubSubTopic::Transactions,
            message: vec![0],
        }))
        .unwrap();
    assert_eq!(sends_to(&transactions), vec![ids[1], ids[2]]);
    assert_eq!(
        node().step(Input::Command(Command::AnnounceData {
            topic: PubSubTopic::Blocks,
            message: vec![0],
        })),
        Ok(vec![])
    );
}

#[test]
fn messages_to_a_peer_keep_the_order_of_the_commands() {
    let mut n1 = node();
    let mut n2 = node();
    let (n2_at_n1, _) = connect(&mut n1, &mut n2);
    let mut wire = Vec::new();
    for n in 0..20u128 {
        let out = n1
            .step(Input::Command(Command::SendRequest {
                peer_id: n2_at_n1,
                request_id: RequestId::from_u128(n),
                message: Request::Sync(SyncRequest { payload: vec![n as u8] }),
            }))
            .unwrap();
        wire.extend(out);
    }
    assert_eq!(wire.len(), 20);
    for (n, action) in wire.iter().enumerate() {
        assert_eq!(
            *action,
            Action::SendToPeer {
                peer_id: n2_at_n1,
                message: Box::new(Message::Request {
                    request_id: RequestId::from_u128(n as u128),
                    request: Request::Sync(SyncRequest { payload: vec![n as u8] }),
                }),
            }
        );
    }
}

#[test]
fn commands_closed_stops_every_task() {
    let mut hub = node();
    let a = spawned(hub.step(Input::Accepted { address: 1 }).unwrap());
    let b = spawned(hub.step(Input::Accepted { address: 2 }).unwrap());
    let c = spawned(hub.step(Input::Dialed { address: 3 }).unwrap());
    hub.step(Input::Peer { peer_id: a, event: handshake_of(&node()) }).unwrap();
    hub.step(Input::Command(Command::Disconnect { peer_id: b })).unwrap();

    let out = hub.step(Input::CommandsClosed).unwrap();
    let mut stopped: Vec<PeerId> = out
        .iter()
        .map(|action| match action {
            Action::ClosePeer { peer_id } => *peer_id,
            other => panic!("expected a task to be stopped, got {:?}", other),
        })
        .collect();
    stopped.sort();
    assert_eq!(stopped, vec![a, c]);
    for peer in [a, b, c] {
        assert_eq!(hub.peer(peer).map(|context| context.phase), Some(Phase::Closing));
    }
    assert_eq!(hub.step(Input::CommandsClosed), Ok(vec![]));
    for peer in [a, b, c] {
        assert_eq!(
            hub.step(Input::Peer { peer_id: peer, event: PeerEvent::ConnectionClosed }),
            Ok(vec![Action::Connectivity(ConnectivityEvent::ConnectionClosed { peer_id: peer })])
        );
    }
}

#[test]
fn messages_from_a_peer_come_up_in_the_order_of_arrival() {
    let mut n1 = node();
    let mut n2 = node();
    let (n2_at_n1, _) = connect(&mut n1, &mut n2);
    let mut up = Vec::new();
    for n in 0..10u128 {
        let arrived = if n % 2 == 0 {
            Message::Response {
                request_id: RequestId::from_u128(n),
                response: Response::Sync(SyncResponse { payload: vec![n as u8] }),
            }
        } else {
            Message::Announcement { topic: PubSubTopic::Blocks, message: vec![0, n as u8] }
        };
        up.extend(
            n1.step(Input::Peer { peer_id: n2_at_n1, event: PeerEvent::MessageReceived(arrived) })
                .unwrap(),
        );
    }
    assert_eq!(up.len(), 10);
    for (n, action) in up.into_iter().enumerate() {
        let expected = if n % 2 == 0 {
            SyncingEvent::Response {
                peer_id: n2_at_n1,
                request_id: RequestId::from_u128(n as u128),
                response: SyncResponse { payload: vec![n as u8] },
            }
        } else {
            SyncingEvent::Announcement {
                peer_id: n2_at_n1,
                announcement: Box::new(Announcement::Block(vec![n as u8])),
            }
        };
        assert_eq!(action, Action::Syncing(expected));
    }
}

#[test]
fn failed_handshake_of_an_accepted_stream_is_reported_to_its_address() {
    let mut n1 = node();
    let peer = spawned(n1.step(Input::Accepted { address: 31 }).unwrap());
    let error = P2pError::ProtocolError(ProtocolError::MalformedMessage);
    assert_eq!(
        n1.step(Input::Peer { peer_id: peer, event: PeerEvent::Misbehaved(error) }),
        Ok(vec![
            Action::Connectivity(ConnectivityEvent::ConnectionError { address: 31, error }),
            Action::ClosePeer { peer_id: peer },
        ])
    );
    // A closing peer is heard no more, until its task ends.
    assert_eq!(n1.step(Input::Peer { peer_id: peer, event: handshake_of(&node()) }), Ok(vec![]));
    assert_eq!(
        n1.step(Input::Peer { peer_id: peer, event: PeerEvent::ConnectionClosed }),
        Ok(vec![Action::Connectivity(ConnectivityEvent::ConnectionClosed { peer_id: peer })])
    );
}
