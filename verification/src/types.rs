//! Identifiers, wire messages, commands and events of the backend.

use vstd::prelude::*;
use crate::error::P2pError;
use crate::message::{
    Announcement, BodyView, PeerManagerRequest, PeerManagerResponse, Request, Response,
    SyncRequest, SyncResponse,
};
use crate::primitives::SemVer;

verus! {

/// Identifier of a connected peer, given out by the backend when the
/// handshake with the peer has succeeded.
#[derive(Debug, Clone, Copy, PartialEq, Eq, Structural, PartialOrd, Ord, Hash)]
pub struct PeerId(pub u64);

impl PeerId {
    pub fn from_u64(id: u64) -> (r: Self)
        ensures
            r == PeerId(id),
    {
        PeerId(id)
    }

    pub fn as_u64(&self) -> (r: u64)
        ensures
            r == self.0,
    {
        self.0
    }
}

/// Identifier of a request: 128 bits, drawn at random by whoever needs one.
#[derive(Debug, Clone, Copy, PartialEq, Eq, Structural, PartialOrd, Ord, Hash)]
pub struct RequestId(pub u128);

impl RequestId {
    /// A request id drawn at random.
    pub fn new() -> Self {
        RequestId(random_u128())
    }

    pub fn from_u128(id: u128) -> (r: Self)
        ensures
            r == RequestId(id),
    {
        RequestId(id)
    }

    pub fn as_u128(&self) -> (r: u128)
        ensures
            r == self.0,
    {
        self.0
    }
}

/// What an announcement is about; a peer receives the topics it subscribed
/// to.
#[derive(Debug, Clone, Copy, PartialEq, Eq, Structural, PartialOrd, Ord, Hash)]
pub enum PubSubTopic {
    Blocks,
    Transactions,
}

/// A set of topics.
#[derive(Debug, Clone, Copy, PartialEq, Eq, Structural, Hash)]
pub struct TopicSet {
    pub blocks: bool,
    pub transactions: bool,
}

impl View for TopicSet {
    type V = Set<PubSubTopic>;

    open spec fn view(&self) -> Set<PubSubTopic> {
        Set::new(
            |t: PubSubTopic|
                match t {
                    PubSubTopic::Blocks => self.blocks,
                    PubSubTopic::Transactions => self.transactions,
                },
        )
    }
}

impl TopicSet {
    pub fn empty() -> (r: Self)
        ensures
            r@ == Set::<PubSubTopic>::empty(),
    {
        let r = TopicSet { blocks: false, transactions: false };
        assert(r@ =~= Set::empty());
        r
    }

    /// Every topic there is.
    pub fn all() -> (r: Self)
        ensures
            r@ == Set::<PubSubTopic>::full(),
    {
        let r = TopicSet { blocks: true, transactions: true };
        assert(r@ =~= Set::full());
        r
    }

    pub fn insert(&mut self, topic: PubSubTopic)
        ensures
            final(self)@ == old(self)@.insert(topic),
    {
        match topic {
            PubSubTopic::Blocks => {
                self.blocks = true;
            },
            PubSubTopic::Transactions => {
                self.transactions = true;
            },
        }
        assert(self@ =~= old(self)@.insert(topic));
    }

    pub fn contains(&self, topic: PubSubTopic) -> (r: bool)
        ensures
            r == self@.contains(topic),
    {
        match topic {
            PubSubTopic::Blocks => self.blocks,
            PubSubTopic::Transactions => self.transactions,
        }
    }

    /// The set of the topics listed.
    pub fn from_topics(topics: &[PubSubTopic]) -> (r: Self)
        ensures
            r@ == topics@.to_set(),
    {
        let mut r = TopicSet::empty();
        let mut i: usize = 0;
        while i < topics.len()
            invariant
                i <= topics.len(),
                r@ == topics@.take(i as int).to_set(),
            decreases topics.len() - i,
        {
            r.insert(topics[i]);
            proof {
                assert(topics@.take(i + 1) == topics@.take(i as int).push(topics@[i as int]));
                topics@.take(i as int).lemma_push_to_set_commute(topics@[i as int]);
            }
            i = i + 1;
        }
        assert(topics@.take(topics.len() as int) == topics@);
        r
    }
}

/// Where a peer can be reached.
#[derive(Debug, Clone, Copy, PartialEq, Eq, Structural, PartialOrd, Ord, Hash)]
#[allow(inconsistent_fields)]
pub enum PeerAddress {
    Ip4 { ip: u32, port: u16 },
    Ip6 { ip: u128, port: u16 },
}

/// What a peer says of itself when a connection opens.
#[derive(Debug, Clone, PartialEq, Eq)]
pub struct HandshakeData {
    /// The magic bytes of the network that the peer is on.
    pub network: [u8; 4],
    pub version: SemVer,
    pub agent: Option<String>,
    pub subscriptions: TopicSet,
    /// The address at which the peer sees the receiver of the handshake.
    pub receiver_address: Option<PeerAddress>,
}

/// What a handshake holds.
pub struct HandshakeView {
    pub network: Seq<u8>,
    pub version: SemVer,
    pub agent: Option<Seq<char>>,
    pub subscriptions: TopicSet,
    pub receiver_address: Option<PeerAddress>,
}

impl View for HandshakeData {
    type V = HandshakeView;

    open spec fn view(&self) -> HandshakeView {
        HandshakeView {
            network: self.network@,
            version: self.version,
            agent: match self.agent {
                Some(agent) => Some(agent@),
                None => None,
            },
            subscriptions: self.subscriptions,
            receiver_address: self.receiver_address,
        }
    }
}

/// What is known of a peer once the handshake with it has succeeded.
#[derive(Debug, Clone, PartialEq, Eq)]
pub struct PeerInfo {
    pub peer_id: PeerId,
    pub network: [u8; 4],
    pub version: SemVer,
    pub agent: Option<String>,
    pub subscriptions: TopicSet,
}

/// A message between two peers.
#[derive(Debug, Clone, PartialEq, Eq)]
pub enum Message {
    /// The first message on a connection, in both directions.
    Handshake(HandshakeData),
    /// A request, under the id that its sender chose for it.
    Request { request_id: RequestId, request: Request },
    /// The response to the request that the receiver sent under this id.
    Response { request_id: RequestId, response: Response },
    /// A serialized announcement on a topic.
    Announcement { topic: PubSubTopic, message: Vec<u8> },
}

/// What a message holds.
pub enum MessageView {
    Handshake(HandshakeView),
    Request { request_id: RequestId, body: BodyView },
    Response { request_id: RequestId, body: BodyView },
    Announcement { topic: PubSubTopic, message: Seq<u8> },
}

impl View for Message {
    type V = MessageView;

    open spec fn view(&self) -> MessageView {
        match self {
            Message::Handshake(data) => MessageView::Handshake(data@),
            Message::Request { request_id, request } => MessageView::Request {
                request_id: *request_id,
                body: request@,
            },
            Message::Response { request_id, response } => MessageView::Response {
                request_id: *request_id,
                body: response@,
            },
            Message::Announcement { topic, message } => MessageView::Announcement {
                topic: *topic,
                message: message@,
            },
        }
    }
}

/// What a frontend handle asks of the backend.
#[derive(Debug, Clone, PartialEq, Eq)]
#[allow(inconsistent_fields)]
pub enum Command<A> {
    Connect { address: A },
    Disconnect { peer_id: PeerId },
    SendRequest { peer_id: PeerId, request_id: RequestId, message: Request },
    SendResponse { request_id: RequestId, message: Response },
    AnnounceData { topic: PubSubTopic, message: Vec<u8> },
}

/// What the backend tells the connectivity handle.
#[derive(Debug, Clone, PartialEq, Eq)]
pub enum ConnectivityEvent<A> {
    Request { peer_id: PeerId, request_id: RequestId, request: PeerManagerRequest },
    Response { peer_id: PeerId, request_id: RequestId, response: PeerManagerResponse },
    InboundAccepted { address: A, peer_info: PeerInfo, receiver_address: Option<PeerAddress> },
    OutboundAccepted { address: A, peer_info: PeerInfo, receiver_address: Option<PeerAddress> },
    ConnectionError { address: A, error: P2pError },
    ConnectionClosed { peer_id: PeerId },
    Misbehaved { peer_id: PeerId, error: P2pError },
}

/// What the backend tells the syncing handle.
#[derive(Debug, Clone, PartialEq, Eq)]
pub enum SyncingEvent {
    Request { peer_id: PeerId, request_id: RequestId, request: SyncRequest },
    Response { peer_id: PeerId, request_id: RequestId, response: SyncResponse },
    Announcement { peer_id: PeerId, announcement: Box<Announcement> },
}

/// `rand::random`, for 128 bits. The generator is seeded by the operating
/// system, so nothing is claimed of the number that comes back.
#[verifier::external_body]
fn random_u128() -> u128 {
    rand::random::<u128>()
}

} // verus!
