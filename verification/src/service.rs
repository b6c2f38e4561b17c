//! The two facades that the upper layers hold: one for connectivity, one for
//! syncing and announcements. A handle turns a call into the command that
//! the backend is to receive, and an event of the backend into the event
//! that the caller sees; carrying either across a channel is left to the
//! caller.

use vstd::prelude::*;
use crate::error::{P2pError, PublishError};
use crate::message::{
    Announcement, PeerManagerRequest, PeerManagerResponse, Request, Response, SyncRequest,
    SyncResponse,
};
use crate::types;
use crate::types::{Command, PeerAddress, PeerId, PeerInfo, PubSubTopic, RequestId};

verus! {

/// The longest serialized announcement that is sent, in bytes.
pub const ANNOUNCEMENT_MAX_SIZE: usize = 2 * 1024 * 1024;

/// What the connectivity handle reports.
#[derive(Debug, Clone, PartialEq, Eq)]
pub enum ConnectivityEvent<A> {
    Request { peer_id: PeerId, request_id: RequestId, request: PeerManagerRequest },
    Response { peer_id: PeerId, request_id: RequestId, response: PeerManagerResponse },
    InboundAccepted { address: A, peer_info: PeerInfo, receiver_address: Option<PeerAddress> },
    OutboundAccepted { address: A, peer_info: PeerInfo, receiver_address: Option<PeerAddress> },
    ConnectionError { address: A, error: P2pError },
    ConnectionClosed { peer_id: PeerId },
    Misbehaved { peer_id: PeerId, error: P2pError },
}

/// What the syncing handle reports.
#[derive(Debug, Clone, PartialEq, Eq)]
pub enum SyncingEvent {
    Request { peer_id: PeerId, request_id: RequestId, request: SyncRequest },
    Response { peer_id: PeerId, request_id: RequestId, response: SyncResponse },
    Announcement { peer_id: PeerId, announcement: Announcement },
}

/// The event that the connectivity handle reports for an event of the
/// backend: the same event.
pub open spec fn connectivity_event<A>(event: types::ConnectivityEvent<A>) -> ConnectivityEvent<A> {
    match event {
        types::ConnectivityEvent::Request { peer_id, request_id, request } => ConnectivityEvent::Request {
            peer_id,
            request_id,
            request,
        },
        types::ConnectivityEvent::Response {
            peer_id,
            request_id,
            response,
        } => ConnectivityEvent::Response { peer_id, request_id, response },
        types::ConnectivityEvent::InboundAccepted {
            address,
            peer_info,
            receiver_address,
        } => ConnectivityEvent::InboundAccepted { address, peer_info, receiver_address },
        types::ConnectivityEvent::OutboundAccepted {
            address,
            peer_info,
            receiver_address,
        } => ConnectivityEvent::OutboundAccepted { address, peer_info, receiver_address },
        types::ConnectivityEvent::ConnectionError {
            address,
            error,
        } => ConnectivityEvent::ConnectionError { address, error },
        types::ConnectivityEvent::ConnectionClosed { peer_id } => ConnectivityEvent::ConnectionClosed {
            peer_id,
        },
        types::ConnectivityEvent::Misbehaved { peer_id, error } => ConnectivityEvent::Misbehaved {
            peer_id,
            error,
        },
    }
}

/// The event that the syncing handle reports for an event of the backend:
/// the same event, the announcement taken out of its box.
pub open spec fn syncing_event(event: types::SyncingEvent) -> SyncingEvent {
    match event {
        types::SyncingEvent::Request { peer_id, request_id, request } => SyncingEvent::Request {
            peer_id,
            request_id,
            request,
        },
        types::SyncingEvent::Response { peer_id, request_id, response } => SyncingEvent::Response {
            peer_id,
            request_id,
            response,
        },
        types::SyncingEvent::Announcement { peer_id, announcement } => SyncingEvent::Announcement {
            peer_id,
            announcement: *announcement,
        },
    }
}

/// The topic that an announcement goes out on.
pub open spec fn announcement_topic(announcement: Announcement) -> PubSubTopic {
    match announcement {
        Announcement::Block(_) => PubSubTopic::Blocks,
    }
}

/// The networking service that runs the default backend.
#[derive(Debug)]
pub struct DefaultNetworkingService;

impl DefaultNetworkingService {
    /// The two handles of a service that listens on `local_addresses`.
    pub fn start<A>(local_addresses: Vec<A>) -> (r: (ConnectivityHandle<A>, SyncingMessagingHandle))
        ensures
            r.0.spec_local_addresses() == local_addresses@,
    {
        (ConnectivityHandle::new(local_addresses), SyncingMessagingHandle {  })
    }
}

/// Handle for opening and closing connections and for the requests of the
/// peer manager.
#[derive(Debug)]
pub struct ConnectivityHandle<A> {
    /// The local addresses of the service.
    local_addresses: Vec<A>,
}

impl<A> ConnectivityHandle<A> {
    /// The addresses that the service listens on.
    pub closed spec fn spec_local_addresses(&self) -> Seq<A> {
        self.local_addresses@
    }

    pub fn new(local_addresses: Vec<A>) -> (r: Self)
        ensures
            r.spec_local_addresses() == local_addresses@,
    {
        ConnectivityHandle { local_addresses }
    }

    /// The command that opens a connection to `address`.
    pub fn connect(&mut self, address: A) -> (r: Command<A>)
        ensures
            *final(self) == *old(self),
            r == (Command::Connect { address }),
    {
        Command::Connect { address }
    }

    /// The command that closes the connection to `peer_id`.
    pub fn disconnect(&mut self, peer_id: PeerId) -> (r: Command<A>)
        ensures
            *final(self) == *old(self),
            r == (Command::<A>::Disconnect { peer_id }),
    {
        Command::Disconnect { peer_id }
    }

    /// Draws an id for `request` and returns it with the command that sends
    /// the request to `peer_id` under it.
    pub fn send_request(&mut self, peer_id: PeerId, request: PeerManagerRequest) -> (r: (
        RequestId,
        Command<A>,
    ))
        ensures
            *final(self) == *old(self),
            r.1 == (Command::<A>::SendRequest {
                peer_id,
                request_id: r.0,
                message: Request::PeerManager(request),
            }),
    {
        let request_id = RequestId::new();
        (
            request_id,
            Command::SendRequest { peer_id, request_id, message: Request::from_peer_manager(request) },
        )
    }

    /// The command that answers the inbound request `request_id`.
    pub fn send_response(&mut self, request_id: RequestId, response: PeerManagerResponse) -> (r:
        Command<A>)
        ensures
            *final(self) == *old(self),
            r == (Command::<A>::SendResponse { request_id, message: Response::PeerManager(response) }),
    {
        Command::SendResponse { request_id, message: Response::from_peer_manager(response) }
    }

    pub fn local_addresses(&self) -> (r: &[A])
        ensures
            r@ == self.spec_local_addresses(),
    {
        self.local_addresses.as_slice()
    }

    /// What the handle reports for what its event channel gave: the event,
    /// or `ChannelClosed` where the channel gave nothing more.
    pub fn poll_next(&mut self, received: Option<types::ConnectivityEvent<A>>) -> (r: Result<
        ConnectivityEvent<A>,
        P2pError,
    >)
        ensures
            *final(self) == *old(self),
            match received {
                Some(event) => r == Ok::<_, P2pError>(connectivity_event(event)),
                None => r == Err::<ConnectivityEvent<A>, _>(P2pError::ChannelClosed),
            },
    {
        let event = match received {
            Some(event) => event,
            None => {
                return Err(P2pError::ChannelClosed);
            },
        };
        match event {
            types::ConnectivityEvent::Request { peer_id, request_id, request } => Ok(
                ConnectivityEvent::Request { peer_id, request_id, request },
            ),
            types::ConnectivityEvent::Response { peer_id, request_id, response } => Ok(
                ConnectivityEvent::Response { peer_id, request_id, response },
            ),
            types::ConnectivityEvent::InboundAccepted { address, peer_info, receiver_address } => Ok(
                ConnectivityEvent::InboundAccepted { address, peer_info, receiver_address },
            ),
            types::ConnectivityEvent::OutboundAccepted { address, peer_info, receiver_address } => Ok(
                ConnectivityEvent::OutboundAccepted { address, peer_info, receiver_address },
            ),
            types::ConnectivityEvent::ConnectionError { address, error } => Ok(
                ConnectivityEvent::ConnectionError { address, error },
            ),
            types::ConnectivityEvent::ConnectionClosed { peer_id } => Ok(
                ConnectivityEvent::ConnectionClosed { peer_id },
            ),
            types::ConnectivityEvent::Misbehaved { peer_id, error } => Ok(
                ConnectivityEvent::Misbehaved { peer_id, error },
            ),
        }
    }
}

/// Handle for the requests of block synchronisation and for announcements.
#[derive(Debug)]
pub struct SyncingMessagingHandle {}

impl SyncingMessagingHandle {
    /// Draws an id for `request` and returns it with the command that sends
    /// the request to `peer_id` under it.
    pub fn send_request<A>(&mut self, peer_id: PeerId, request: SyncRequest) -> (r: (
        RequestId,
        Command<A>,
    ))
        ensures
            r.1 == (Command::<A>::SendRequest {
                peer_id,
                request_id: r.0,
                message: Request::Sync(request),
            }),
    {
        let request_id = RequestId::new();
        (request_id, Command::SendRequest { peer_id, request_id, message: Request::from_sync(request) })
    }

    /// The command that answers the inbound request `request_id`.
    pub fn send_response<A>(&mut self, request_id: RequestId, response: SyncResponse) -> (r: Command<
        A,
    >)
        ensures
            r == (Command::<A>::SendResponse { request_id, message: Response::Sync(response) }),
    {
        Command::SendResponse { request_id, message: Response::from_sync(response) }
    }

    /// The command that publishes `announcement` on its topic. An
    /// announcement whose serialized form is longer than
    /// `ANNOUNCEMENT_MAX_SIZE` is refused, and no command is made for it.
    pub fn make_announcement<A>(&mut self, announcement: Announcement) -> (r: Result<
        Command<A>,
        P2pError,
    >)
        ensures
            match r {
                Ok(command) => {
                    &&& announcement.spec_encode().len() <= ANNOUNCEMENT_MAX_SIZE
                    &&& command matches Command::AnnounceData { topic, message }
                    &&& topic == announcement_topic(announcement)
                    &&& message@ == announcement.spec_encode()
                },
                Err(e) => {
                    &&& announcement.spec_encode().len() > ANNOUNCEMENT_MAX_SIZE
                    &&& e == P2pError::PublishError(
                        PublishError::MessageTooLarge(
                            announcement.spec_encode().len() as usize,
                            ANNOUNCEMENT_MAX_SIZE,
                        ),
                    )
                },
            },
    {
        let message = announcement.encode();
        if message.len() > ANNOUNCEMENT_MAX_SIZE {
            return Err(
                P2pError::PublishError(
                    PublishError::MessageTooLarge(message.len(), ANNOUNCEMENT_MAX_SIZE),
                ),
            );
        }
        let topic = match &announcement {
            Announcement::Block(_) => PubSubTopic::Blocks,
        };
        Ok(Command::AnnounceData { topic, message })
    }

    /// What the handle reports for what its event channel gave: the event,
    /// or `ChannelClosed` where the channel gave nothing more.
    pub fn poll_next(&mut self, received: Option<types::SyncingEvent>) -> (r: Result<
        SyncingEvent,
        P2pError,
    >)
        ensures
            match received {
                Some(event) => r == Ok::<_, P2pError>(syncing_event(event)),
                None => r == Err::<SyncingEvent, _>(P2pError::ChannelClosed),
            },
    {
        let event = match received {
            Some(event) => event,
            None => {
                return Err(P2pError::ChannelClosed);
            },
        };
        match event {
            types::SyncingEvent::Request { peer_id, request_id, request } => Ok(
                SyncingEvent::Request { peer_id, request_id, request },
            ),
            types::SyncingEvent::Response { peer_id, request_id, response } => Ok(
                SyncingEvent::Response { peer_id, request_id, response },
            ),
            types::SyncingEvent::Announcement { peer_id, announcement } => Ok(
                SyncingEvent::Announcement { peer_id, announcement: *announcement },
            ),
        }
    }
}

} // verus!
