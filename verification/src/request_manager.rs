//! Request-response manager.
//!
//! A remote peer numbers its requests as it likes. Before an inbound request
//! goes up to the frontend, the manager gives it an ephemeral id of its own
//! and remembers which peer sent it and under which id. When the frontend
//! answers under the ephemeral id, the manager hands back the peer and the
//! id that the peer expects. Outbound requests keep the id that the caller
//! chose; the manager does not track them.

use std::collections::hash_map::Entry;
use std::collections::{HashMap, HashSet};
use vstd::prelude::*;
use vstd::std_specs::iter::IteratorSpec;
use crate::error::{P2pError, PeerError};
use crate::message::{Request, Response};
use crate::types::{Message, PeerId, RequestId};

verus! {

/// What a request manager holds.
pub struct RequestManagerView {
    /// For each registered peer, the ephemeral ids of its pending requests.
    pub by_peer: Map<PeerId, Set<RequestId>>,
    /// For each pending ephemeral id, the peer that sent the request and the
    /// id that the peer gave it.
    pub to_remote: Map<RequestId, (PeerId, RequestId)>,
}

impl RequestManagerView {
    /// No peer, no pending request.
    pub open spec fn empty() -> Self {
        RequestManagerView { by_peer: Map::empty(), to_remote: Map::empty() }
    }

    /// The two maps agree: an ephemeral id is pending if and only if it is
    /// listed under the peer that its entry names, and under no other.
    pub open spec fn consistent(self) -> bool {
        &&& forall|e: RequestId| #[trigger]
            self.to_remote.contains_key(e) ==> self.by_peer.contains_key(self.to_remote[e].0)
                && self.by_peer[self.to_remote[e].0].contains(e)
        &&& forall|p: PeerId, e: RequestId|
            self.by_peer.contains_key(p) && #[trigger] self.by_peer[p].contains(e)
                ==> self.to_remote.contains_key(e) && self.to_remote[e].0 == p
    }

    /// After `peer` has been registered; nothing changes where it already was.
    pub open spec fn register_peer(self, peer: PeerId) -> Self {
        if self.by_peer.contains_key(peer) {
            self
        } else {
            RequestManagerView { by_peer: self.by_peer.insert(peer, Set::empty()), ..self }
        }
    }

    /// After `peer` has left: it is no longer registered, and none of its
    /// requests is pending.
    pub open spec fn unregister_peer(self, peer: PeerId) -> Self {
        if self.by_peer.contains_key(peer) {
            RequestManagerView {
                by_peer: self.by_peer.remove(peer),
                to_remote: self.to_remote.remove_keys(self.by_peer[peer]),
            }
        } else {
            self
        }
    }

    /// After the request that `peer` sent under `remote` has been given the
    /// ephemeral id `ephemeral`.
    pub open spec fn register_request(self, peer: PeerId, remote: RequestId, ephemeral: RequestId) -> Self {
        RequestManagerView {
            by_peer: self.by_peer.insert(peer, self.by_peer[peer].insert(ephemeral)),
            to_remote: self.to_remote.insert(ephemeral, (peer, remote)),
        }
    }

    /// After the pending request `ephemeral` has been answered; nothing
    /// changes where no such request is pending.
    pub open spec fn make_response(self, ephemeral: RequestId) -> Self {
        if self.to_remote.contains_key(ephemeral) {
            let peer = self.to_remote[ephemeral].0;
            RequestManagerView {
                by_peer: self.by_peer.insert(peer, self.by_peer[peer].remove(ephemeral)),
                to_remote: self.to_remote.remove(ephemeral),
            }
        } else {
            self
        }
    }
}

/// One call on a request manager, with what the call gave out.
pub enum RequestOp {
    RegisterPeer(PeerId),
    UnregisterPeer(PeerId),
    /// A request of `peer` was registered and given the id `ephemeral`.
    RegisterRequest { peer: PeerId, remote: RequestId, ephemeral: RequestId },
    MakeResponse(RequestId),
}

impl RequestManagerView {
    /// Whether a manager in this state can make the call `op`: a request is
    /// only ever registered for a registered peer, under an id that is not
    /// pending.
    pub open spec fn allows(self, op: RequestOp) -> bool {
        match op {
            RequestOp::RegisterRequest { peer, remote, ephemeral } => self.by_peer.contains_key(peer)
                && !self.to_remote.contains_key(ephemeral),
            _ => true,
        }
    }

    /// The state after the call `op`.
    pub open spec fn apply(self, op: RequestOp) -> Self {
        match op {
            RequestOp::RegisterPeer(peer) => self.register_peer(peer),
            RequestOp::UnregisterPeer(peer) => self.unregister_peer(peer),
            RequestOp::RegisterRequest { peer, remote, ephemeral } => self.register_request(
                peer,
                remote,
                ephemeral,
            ),
            RequestOp::MakeResponse(ephemeral) => self.make_response(ephemeral),
        }
    }

    /// The state after the calls `ops`, made in order.
    pub open spec fn run(self, ops: Seq<RequestOp>) -> Self
        decreases ops.len(),
    {
        if ops.len() == 0 {
            self
        } else {
            self.run(ops.drop_last()).apply(ops.last())
        }
    }

    /// Whether a manager in this state can make the calls `ops` in order.
    pub open spec fn admits(self, ops: Seq<RequestOp>) -> bool
        decreases ops.len(),
    {
        ops.len() > 0 ==> self.admits(ops.drop_last()) && self.run(ops.drop_last()).allows(
            ops.last(),
        )
    }

    /// Every call keeps the two maps consistent.
    pub proof fn lemma_apply_consistent(self, op: RequestOp)
        requires
            self.consistent(),
            self.allows(op),
        ensures
            self.apply(op).consistent(),
    {
    }

    /// Whatever calls are made on a consistent manager, its two maps stay
    /// consistent.
    pub proof fn lemma_run_consistent(self, ops: Seq<RequestOp>)
        requires
            self.consistent(),
            self.admits(ops),
        ensures
            self.run(ops).consistent(),
        decreases ops.len(),
    {
        if ops.len() > 0 {
            self.lemma_run_consistent(ops.drop_last());
            self.run(ops.drop_last()).lemma_apply_consistent(ops.last());
        }
    }

    /// Unregistering a peer takes its requests out of both maps at once and
    /// leaves the requests of every other peer as they were.
    pub proof fn lemma_unregister_clears(self, peer: PeerId)
        requires
            self.consistent(),
        ensures
            !self.unregister_peer(peer).by_peer.contains_key(peer),
            forall|e: RequestId| #[trigger]
                self.unregister_peer(peer).to_remote.contains_key(e) <==> self.to_remote.contains_key(
                    e,
                ) && self.to_remote[e].0 != peer,
            forall|e: RequestId| #[trigger]
                self.unregister_peer(peer).to_remote.contains_key(e) ==> self.unregister_peer(
                    peer,
                ).to_remote[e] == self.to_remote[e],
            forall|p: PeerId|
                p != peer ==> (#[trigger] self.unregister_peer(peer).by_peer.contains_key(p)
                    <==> self.by_peer.contains_key(p)),
            forall|p: PeerId|
                p != peer && self.by_peer.contains_key(p) ==> #[trigger] self.unregister_peer(
                    peer,
                ).by_peer[p] == self.by_peer[p],
            self.unregister_peer(peer).unregister_peer(peer) == self.unregister_peer(peer),
    {
    }
}

/// Whether none of the calls `ops` ends the pending request `ephemeral` of
/// `peer`: none answers it, and none unregisters the peer.
pub open spec fn outstanding_through(ops: Seq<RequestOp>, peer: PeerId, ephemeral: RequestId) -> bool {
    forall|i: int|
        0 <= i < ops.len() ==> #[trigger] ops[i] != RequestOp::MakeResponse(ephemeral) && ops[i]
            != RequestOp::UnregisterPeer(peer)
}

/// Whether none of the calls `ops` gives out the id `ephemeral`.
pub open spec fn never_issued(ops: Seq<RequestOp>, ephemeral: RequestId) -> bool {
    forall|i: int|
        0 <= i < ops.len() ==> !(#[trigger] ops[i] matches RequestOp::RegisterRequest {
            ephemeral: e,
            ..
        } && e == ephemeral)
}

/// A pending request stays pending, with the peer and the remote id it was
/// registered with, until it is answered or its peer is unregistered; from
/// then on nothing is pending under its id, unless the id is given out
/// again. So a response finds no request exactly where the request was
/// consumed or its peer has left.
pub proof fn lemma_ephemeral_isolation(
    start: RequestManagerView,
    ops: Seq<RequestOp>,
    ephemeral: RequestId,
)
    requires
        start.consistent(),
        start.admits(ops),
        start.to_remote.contains_key(ephemeral),
        never_issued(ops, ephemeral),
    ensures
        start.run(ops).to_remote.contains_key(ephemeral) <==> outstanding_through(
            ops,
            start.to_remote[ephemeral].0,
            ephemeral,
        ),
        start.run(ops).to_remote.contains_key(ephemeral) ==> start.run(ops).to_remote[ephemeral]
            == start.to_remote[ephemeral],
    decreases ops.len(),
{
    let peer = start.to_remote[ephemeral].0;
    if ops.len() > 0 {
        let before = ops.drop_last();
        let op = ops.last();
        assert(never_issued(before, ephemeral)) by {
            assert forall|i: int| 0 <= i < before.len() implies !(#[trigger] before[i] matches RequestOp::RegisterRequest {
                ephemeral: e,
                ..
            } && e == ephemeral) by {
                assert(before[i] == ops[i]);
            }
        }
        lemma_ephemeral_isolation(start, before, ephemeral);
        start.lemma_run_consistent(before);
        let mid = start.run(before);
        assert(op == ops[ops.len() - 1]);
        if outstanding_through(ops, peer, ephemeral) {
            assert(outstanding_through(before, peer, ephemeral)) by {
                assert forall|i: int| 0 <= i < before.len() implies #[trigger] before[i]
                    != RequestOp::MakeResponse(ephemeral) && before[i] != RequestOp::UnregisterPeer(
                    peer,
                ) by {
                    assert(before[i] == ops[i]);
                }
            }
        } else {
            if outstanding_through(before, peer, ephemeral) {
                assert(op == RequestOp::MakeResponse(ephemeral) || op == RequestOp::UnregisterPeer(
                    peer,
                )) by {
                    let i = choose|i: int|
                        0 <= i < ops.len() && !(#[trigger] ops[i] != RequestOp::MakeResponse(
                            ephemeral,
                        ) && ops[i] != RequestOp::UnregisterPeer(peer));
                    if i < before.len() {
                        assert(before[i] == ops[i]);
                    }
                }
            }
        }
    }
}

/// The id that is `steps` after `start`, going round from the largest id to
/// zero.
pub open spec fn probe(start: RequestId, steps: nat) -> RequestId {
    RequestId(((start.0 + steps) % (u128::MAX + 1)) as u128)
}

/// Whether `id` is the first id at or after `start` that is not in `taken`.
pub open spec fn first_free(taken: Set<RequestId>, start: RequestId, id: RequestId) -> bool {
    exists|steps: nat|
        {
            &&& id == #[trigger] probe(start, steps)
            &&& !taken.contains(id)
            &&& forall|earlier: nat| earlier < steps ==> taken.contains(#[trigger] probe(start, earlier))
        }
}

/// The books of pending inbound requests.
#[derive(Debug)]
pub struct RequestManager {
    /// Active ephemeral ids of each peer, by the number of the peer.
    ephemerals: HashMap<u64, HashSet<u128>>,
    /// The peer and the remote request id of each ephemeral id.
    ephemeral: HashMap<u128, (u64, u128)>,
}

impl View for RequestManager {
    type V = RequestManagerView;

    closed spec fn view(&self) -> RequestManagerView {
        RequestManagerView {
            by_peer: Map::new(
                |p: PeerId| self.ephemerals@.contains_key(p.0),
                |p: PeerId| Set::new(|e: RequestId| self.ephemerals@[p.0]@.contains(e.0)),
            ),
            to_remote: Map::new(
                |e: RequestId| self.ephemeral@.contains_key(e.0),
                |e: RequestId| (PeerId(self.ephemeral@[e.0].0), RequestId(self.ephemeral@[e.0].1)),
            ),
        }
    }
}

impl Default for RequestManager {
    fn default() -> (r: Self)
        ensures
            r@ == RequestManagerView::empty(),
            r.wf(),
    {
        RequestManager::new()
    }
}

impl RequestManager {
    /// The invariant of the manager: its two maps are consistent.
    pub open spec fn wf(&self) -> bool {
        self@.consistent()
    }

    pub fn new() -> (r: Self)
        ensures
            r@ == RequestManagerView::empty(),
            r.wf(),
    {
        let r = RequestManager { ephemerals: HashMap::new(), ephemeral: HashMap::new() };
        assert(r@.by_peer =~= Map::empty());
        assert(r@.to_remote =~= Map::empty());
        r
    }

    /// Registers a peer, with no pending request.
    pub fn register_peer(&mut self, peer_id: PeerId) -> (r: Result<(), P2pError>)
        requires
            old(self).wf(),
        ensures
            final(self).wf(),
            final(self)@ == old(self)@.register_peer(peer_id),
            r is Ok <==> !old(self)@.by_peer.contains_key(peer_id),
            r is Err ==> r == Err::<(), _>(P2pError::PeerError(PeerError::PeerAlreadyExists)),
    {
        broadcast use vstd::std_specs::hash::group_hash_axioms;
        let r = match self.ephemerals.entry(peer_id.0) {
            Entry::Occupied(_) => Err(P2pError::PeerError(PeerError::PeerAlreadyExists)),
            Entry::Vacant(entry) => {
                entry.insert(HashSet::new());
                Ok(())
            },
        };
        proof {
            if r is Ok {
                assert(self@.by_peer =~~= old(self)@.by_peer.insert(peer_id, Set::empty()));
            } else {
                assert(self.ephemerals@ =~= old(self).ephemerals@);
                assert(self@.by_peer =~~= old(self)@.by_peer);
            }
            assert(self@.to_remote =~= old(self)@.to_remote);
        }
        r
    }

    /// Forgets a peer and every request of it that is still pending. A peer
    /// that is not registered is left so.
    pub fn unregister_peer(&mut self, peer_id: &PeerId)
        requires
            old(self).wf(),
        ensures
            final(self).wf(),
            final(self)@ == old(self)@.unregister_peer(*peer_id),
    {
        broadcast use vstd::std_specs::hash::group_hash_axioms;
        if let Some(ephemerals) = self.ephemerals.remove(&peer_id.0) {
            let ghost before = self.ephemeral@;
            let ghost walk = vstd::std_specs::hash::spec_hash_keys_iter(&ephemerals).remaining();
            for id in it: ephemerals.iter()
                invariant
                    it.seq() == walk,
                    self.ephemerals@ == old(self).ephemerals@.remove(peer_id.0),
                    forall|k: u128|
                        self.ephemeral@.contains_key(k) <==> before.contains_key(k) && !walked(
                            walk,
                            it.index(),
                            k,
                        ),
                    forall|k: u128| self.ephemeral@.contains_key(k) ==> self.ephemeral@[k] == before[k],
            {
                self.ephemeral.remove(id);
                proof {
                    let n = it.index();
                    assert forall|k: u128| walked(walk, n + 1, k) <==> (walked(walk, n, k) || k
                        == *walk[n]) by {
                        if walked(walk, n + 1, k) {
                            let i = choose|i: int| 0 <= i < n + 1 && *walk[i] == k;
                            if i < n {
                                assert(walked(walk, n, k));
                            }
                        }
                        if walked(walk, n, k) {
                            let i = choose|i: int| 0 <= i < n && *walk[i] == k;
                            assert(0 <= i < n + 1 && *walk[i] == k);
                        }
                        if k == *walk[n] {
                            assert(0 <= n < n + 1 && *walk[n] == k);
                        }
                    }
                }
            }
            proof {
                let gone = old(self)@.by_peer[*peer_id];
                assert forall|k: u128| walked(walk, walk.len() as int, k) <==> ephemerals@.contains(
                    k,
                ) by {
                    if walked(walk, walk.len() as int, k) {
                        let i = choose|i: int| 0 <= i < walk.len() && *walk[i] == k;
                        assert(walk.unref()[i] == k);
                        assert(walk.unref().to_set().contains(k));
                    }
                    if ephemerals@.contains(k) {
                        assert(walk.unref().to_set().contains(k));
                        let i = choose|i: int| 0 <= i < walk.unref().len() && walk.unref()[i] == k;
                        assert(*walk[i] == k);
                    }
                }
                assert(self@.to_remote =~= old(self)@.to_remote.remove_keys(gone));
                assert(self@.by_peer =~~= old(self)@.by_peer.remove(*peer_id));
            }
        } else {
            proof {
                assert(self.ephemerals@ =~= old(self).ephemerals@);
                assert(self@.by_peer =~~= old(self)@.by_peer);
                assert(self@.to_remote =~= old(self)@.to_remote);
            }
        }
    }

    /// Wraps up an outgoing request under the id that the caller chose for
    /// it. The manager keeps no record of it.
    pub fn make_request(&mut self, request_id: RequestId, request: Request) -> (r: Result<
        Box<Message>,
        P2pError,
    >)
        ensures
            *final(self) == *old(self),
            r == Ok::<_, P2pError>(Box::new(Message::Request { request_id, request })),
    {
        Ok(Box::new(Message::Request { request_id, request }))
    }

    /// Wraps up the response to a pending inbound request: returns the peer
    /// that sent the request and a response under the id that the peer gave
    /// to it, and forgets the request. `None` where no request is pending
    /// under `request_id`.
    pub fn make_response(&mut self, request_id: &RequestId, response: Response) -> (r: Option<
        (PeerId, Box<Message>),
    >)
        requires
            old(self).wf(),
        ensures
            final(self).wf(),
            final(self)@ == old(self)@.make_response(*request_id),
            r is Some <==> old(self)@.to_remote.contains_key(*request_id),
            r is Some ==> r == Some(
                (
                    old(self)@.to_remote[*request_id].0,
                    Box::new(
                        Message::Response {
                            request_id: old(self)@.to_remote[*request_id].1,
                            response,
                        },
                    ),
                ),
            ),
    {
        broadcast use vstd::std_specs::hash::group_hash_axioms;
        if let Some((peer, remote)) = self.ephemeral.remove(&request_id.0) {
            match self.ephemerals.entry(peer) {
                Entry::Occupied(mut entry) => {
                    entry.get_mut().remove(&request_id.0);
                },
                Entry::Vacant(_) => {},
            }
            proof {
                let p = PeerId(peer);
                assert(old(self)@.to_remote.contains_key(*request_id));
                assert(old(self)@.to_remote[*request_id].0 == p);
                assert(old(self)@.by_peer.contains_key(p));
                assert(self@.to_remote =~= old(self)@.to_remote.remove(*request_id));
                assert(self@.by_peer =~~= old(self)@.by_peer.insert(
                    p,
                    old(self)@.by_peer[p].remove(*request_id),
                ));
            }
            return Some(
                (PeerId(peer), Box::new(Message::Response { request_id: RequestId(remote), response })),
            );
        }
        proof {
            assert(self@.to_remote =~= old(self)@.to_remote);
            assert(self@.by_peer =~~= old(self)@.by_peer);
        }
        None
    }

    /// Records an inbound request: gives the request that `peer_id` sent
    /// under `request_id` a fresh ephemeral id, drawn at random, and returns
    /// that id, which is what the frontend sees.
    pub fn register_request(&mut self, peer_id: &PeerId, request_id: &RequestId) -> (r: Result<
        RequestId,
        P2pError,
    >)
        requires
            old(self).wf(),
        ensures
            final(self).wf(),
            r is Ok <==> old(self)@.by_peer.contains_key(*peer_id),
            match r {
                Ok(ephemeral) => {
                    &&& !old(self)@.to_remote.contains_key(ephemeral)
                    &&& final(self)@ == old(self)@.register_request(*peer_id, *request_id, ephemeral)
                },
                Err(e) => {
                    &&& e == P2pError::PeerError(PeerError::PeerDoesntExist)
                    &&& final(self)@ == old(self)@
                },
            },
    {
        broadcast use vstd::std_specs::hash::group_hash_axioms;
        if !self.ephemerals.contains_key(&peer_id.0) {
            return Err(P2pError::PeerError(PeerError::PeerDoesntExist));
        }
        let candidate = RequestId::new();
        self.register_request_with(peer_id, request_id, candidate)
    }

    /// Records an inbound request as `register_request` does, with the
    /// ephemeral id found from `candidate`: the candidate itself where no
    /// request is pending under it, else the first id after it that is free.
    pub fn register_request_with(
        &mut self,
        peer_id: &PeerId,
        request_id: &RequestId,
        candidate: RequestId,
    ) -> (r: Result<RequestId, P2pError>)
        requires
            old(self).wf(),
        ensures
            final(self).wf(),
            r is Ok <==> old(self)@.by_peer.contains_key(*peer_id),
            match r {
                Ok(ephemeral) => {
                    &&& first_free(old(self)@.to_remote.dom(), candidate, ephemeral)
                    &&& !old(self)@.to_remote.contains_key(ephemeral)
                    &&& final(self)@ == old(self)@.register_request(*peer_id, *request_id, ephemeral)
                },
                Err(e) => {
                    &&& e == P2pError::PeerError(PeerError::PeerDoesntExist)
                    &&& final(self)@ == old(self)@
                },
            },
    {
        broadcast use vstd::std_specs::hash::group_hash_axioms;
        if !self.ephemerals.contains_key(&peer_id.0) {
            return Err(P2pError::PeerError(PeerError::PeerDoesntExist));
        }
        let ephemeral_id = self.free_id_from(candidate);
        match self.ephemerals.entry(peer_id.0) {
            Entry::Occupied(mut entry) => {
                entry.get_mut().insert(ephemeral_id.0);
            },
            Entry::Vacant(_) => {},
        }
        self.ephemeral.insert(ephemeral_id.0, (peer_id.0, request_id.0));
        proof {
            assert(self@.to_remote =~= old(self)@.to_remote.insert(
                ephemeral_id,
                (*peer_id, *request_id),
            ));
            assert(self@.by_peer =~~= old(self)@.by_peer.insert(
                *peer_id,
                old(self)@.by_peer[*peer_id].insert(ephemeral_id),
            ));
        }
        Ok(ephemeral_id)
    }

    /// The first id at or after `candidate` under which nothing is pending.
    fn free_id_from(&self, candidate: RequestId) -> (id: RequestId)
        ensures
            first_free(self@.to_remote.dom(), candidate, id),
            !self@.to_remote.contains_key(id),
    {
        broadcast use vstd::std_specs::hash::group_hash_axioms;
        let ghost taken = self@.to_remote.dom();
        let mut id: u128 = candidate.0;
        let mut steps: usize = 0;
        proof {
            lemma_taken_len(self.ephemeral@.dom(), taken);
            assert(self.ephemeral@.dom().len() == self.ephemeral.len());
        }
        while self.ephemeral.contains_key(&id)
            invariant
                taken == self@.to_remote.dom(),
                taken.finite(),
                taken.len() <= usize::MAX,
                RequestId(id) == probe(candidate, steps as nat),
                forall|earlier: nat| earlier < steps ==> taken.contains(#[trigger] probe(candidate, earlier)),
            decreases taken.len() - steps,
        {
            proof {
                assert(taken.contains(probe(candidate, steps as nat)));
                lemma_probes_fit(taken, candidate, (steps + 1) as nat);
            }
            id = if id == u128::MAX {
                0
            } else {
                id + 1
            };
            steps = steps + 1;
        }
        RequestId(id)
    }
}

/// The pending ids are as many as the keys that hold them.
proof fn lemma_taken_len(keys: Set<u128>, taken: Set<RequestId>)
    requires
        keys.finite(),
        forall|e: RequestId| taken.contains(e) <==> keys.contains(e.0),
    ensures
        taken.finite(),
        taken.len() == keys.len(),
    decreases keys.len(),
{
    if keys.is_empty() {
        assert(taken =~= Set::empty());
    } else {
        let k = keys.choose();
        lemma_taken_len(keys.remove(k), taken.remove(RequestId(k)));
        assert(taken =~= taken.remove(RequestId(k)).insert(RequestId(k)));
    }
}

/// Ids that are fewer than 2^128 steps apart differ.
proof fn lemma_probe_distinct(start: RequestId, a: nat, b: nat)
    requires
        a < b <= u128::MAX,
    ensures
        probe(start, a) != probe(start, b),
{
}

/// Where the `n` ids from `start` on are all taken, at least `n` ids are.
proof fn lemma_probes_fit(taken: Set<RequestId>, start: RequestId, n: nat)
    requires
        taken.finite(),
        n <= u128::MAX,
        forall|k: nat| k < n ==> taken.contains(#[trigger] probe(start, k)),
    ensures
        n <= taken.len(),
    decreases n,
{
    if n > 0 {
        let last = probe(start, (n - 1) as nat);
        let rest = taken.remove(last);
        assert forall|k: nat| k < n - 1 implies rest.contains(#[trigger] probe(start, k)) by {
            lemma_probe_distinct(start, k, (n - 1) as nat);
        }
        lemma_probes_fit(rest, start, (n - 1) as nat);
    }
}

/// Whether `k` is among the first `n` ids of `walk`.
spec fn walked(walk: Seq<&u128>, n: int, k: u128) -> bool {
    exists|i: int| 0 <= i < n && *walk[i] == k
}

} // verus!
