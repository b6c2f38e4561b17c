//! Application messages as the backend sees them: a category, which decides
//! who the message is for, and a body that only the upper layers read.

use vstd::prelude::*;

verus! {

/// A request of the peer manager. The body is opaque to the backend.
#[derive(Debug, Clone, PartialEq, Eq)]
pub struct PeerManagerRequest {
    pub payload: Vec<u8>,
}

/// A request of block synchronisation. The body is opaque to the backend.
#[derive(Debug, Clone, PartialEq, Eq)]
pub struct SyncRequest {
    pub payload: Vec<u8>,
}

/// A response to a request of the peer manager.
#[derive(Debug, Clone, PartialEq, Eq)]
pub struct PeerManagerResponse {
    pub payload: Vec<u8>,
}

/// A response to a request of block synchronisation.
#[derive(Debug, Clone, PartialEq, Eq)]
pub struct SyncResponse {
    pub payload: Vec<u8>,
}

/// A request of either category.
#[derive(Debug, Clone, PartialEq, Eq)]
pub enum Request {
    PeerManager(PeerManagerRequest),
    Sync(SyncRequest),
}

/// A response of either category.
#[derive(Debug, Clone, PartialEq, Eq)]
pub enum Response {
    PeerManager(PeerManagerResponse),
    Sync(SyncResponse),
}

/// Something announced to every subscribed peer.
#[derive(Debug, Clone, PartialEq, Eq)]
pub enum Announcement {
    /// A new block, in its serialized form.
    Block(Vec<u8>),
}

/// Who a request or a response is for.
#[derive(Debug, Clone, Copy, PartialEq, Eq, Structural)]
pub enum Category {
    PeerManager,
    Sync,
}

/// What a request or a response holds: its category and its body.
pub struct BodyView {
    pub category: Category,
    pub payload: Seq<u8>,
}

impl View for Request {
    type V = BodyView;

    open spec fn view(&self) -> BodyView {
        match self {
            Request::PeerManager(request) => BodyView {
                category: Category::PeerManager,
                payload: request.payload@,
            },
            Request::Sync(request) => BodyView { category: Category::Sync, payload: request.payload@ },
        }
    }
}

impl View for Response {
    type V = BodyView;

    open spec fn view(&self) -> BodyView {
        match self {
            Response::PeerManager(response) => BodyView {
                category: Category::PeerManager,
                payload: response.payload@,
            },
            Response::Sync(response) => BodyView {
                category: Category::Sync,
                payload: response.payload@,
            },
        }
    }
}

impl Announcement {
    /// The serialized form: one byte that tells the kind, then the body.
    pub open spec fn spec_encode(self) -> Seq<u8> {
        match self {
            Announcement::Block(block) => seq![0u8] + block@,
        }
    }

    pub fn encode(&self) -> (r: Vec<u8>)
        ensures
            r@ == self.spec_encode(),
    {
        match self {
            Announcement::Block(block) => {
                let mut r: Vec<u8> = Vec::new();
                r.push(0u8);
                let mut i: usize = 0;
                while i < block.len()
                    invariant
                        i <= block.len(),
                        r@ == seq![0u8] + block@.take(i as int),
                    decreases block.len() - i,
                {
                    r.push(block[i]);
                    assert(block@.take(i + 1) == block@.take(i as int).push(block@[i as int]));
                    i = i + 1;
                }
                assert(block@.take(block.len() as int) == block@);
                r
            },
        }
    }

    /// Reads a serialized announcement; `None` where the bytes are not the
    /// serialized form of any.
    pub fn decode(bytes: &[u8]) -> (r: Option<Announcement>)
        ensures
            match r {
                Some(announcement) => announcement.spec_encode() == bytes@,
                None => forall|announcement: Announcement| announcement.spec_encode() != bytes@,
            },
    {
        if bytes.len() == 0 || bytes[0] != 0u8 {
            assert forall|announcement: Announcement| announcement.spec_encode() != bytes@ by {
                assert(announcement.spec_encode().len() > 0);
                assert(announcement.spec_encode()[0] == 0u8);
            }
            return None;
        }
        let mut block: Vec<u8> = Vec::new();
        let mut i: usize = 1;
        while i < bytes.len()
            invariant
                1 <= i <= bytes.len(),
                block@ == bytes@.subrange(1, i as int),
            decreases bytes.len() - i,
        {
            block.push(bytes[i]);
            assert(bytes@.subrange(1, i + 1) == bytes@.subrange(1, i as int).push(bytes@[i as int]));
            i = i + 1;
        }
        assert(seq![0u8] + bytes@.subrange(1, bytes.len() as int) == bytes@);
        Some(Announcement::Block(block))
    }
}

impl Request {
    pub fn from_peer_manager(request: PeerManagerRequest) -> (r: Self)
        ensures
            r == Request::PeerManager(request),
    {
        Request::PeerManager(request)
    }

    pub fn from_sync(request: SyncRequest) -> (r: Self)
        ensures
            r == Request::Sync(request),
    {
        Request::Sync(request)
    }
}

impl Response {
    pub fn from_peer_manager(response: PeerManagerResponse) -> (r: Self)
        ensures
            r == Response::PeerManager(response),
    {
        Response::PeerManager(response)
    }

    pub fn from_sync(response: SyncResponse) -> (r: Self)
        ensures
            r == Response::Sync(response),
    {
        Response::Sync(response)
    }
}

} // verus!
