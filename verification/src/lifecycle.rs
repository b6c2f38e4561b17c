//! The life of a peer, as the steps of the backend show it: a peer is
//! accepted at most once, is heard of only while it is known, and is reported
//! closed exactly once, after which nothing more is said of it.

use vstd::prelude::*;
use crate::backend::{
    accepted_event, connection_error, transition, Action, BackendView, Input, PeerEvent, Phase, Role,
};
use crate::error::{DialError, P2pError, ProtocolError};
use crate::types::{Command, ConnectivityEvent, Message, PeerAddress, PeerId, SyncingEvent};

verus! {

/// How far a peer has come in the books of a backend.
pub enum Stage {
    /// The id has not been given out yet.
    Unknown,
    Handshaking,
    Established,
    Closing,
    /// The id has been given out, and the peer is gone.
    Closed,
}

impl Stage {
    /// The place of a stage in the order in which a peer passes through them.
    pub open spec fn rank(self) -> int {
        match self {
            Stage::Unknown => 0,
            Stage::Handshaking => 1,
            Stage::Established => 2,
            Stage::Closing => 3,
            Stage::Closed => 4,
        }
    }

    /// Whether a peer at this stage has a task running.
    pub open spec fn alive(self) -> bool {
        self is Handshaking || self is Established || self is Closing
    }
}

/// The stage of `peer` in the books `state`.
pub open spec fn stage_of<A>(state: BackendView<A>, peer: PeerId) -> Stage {
    if state.peers.contains_key(peer) {
        match state.peers[peer].phase {
            Phase::Handshaking => Stage::Handshaking,
            Phase::Established => Stage::Established,
            Phase::Closing => Stage::Closing,
        }
    } else if peer.0 < state.next_peer_id {
        Stage::Closed
    } else {
        Stage::Unknown
    }
}

/// The peer that an event passed up to a handle is about, if it is about
/// one.
pub open spec fn subject<A>(action: Action<A>) -> Option<PeerId> {
    match action {
        Action::Connectivity(ConnectivityEvent::Request { peer_id, .. }) => Some(peer_id),
        Action::Connectivity(ConnectivityEvent::Response { peer_id, .. }) => Some(peer_id),
        Action::Connectivity(ConnectivityEvent::InboundAccepted { peer_info, .. }) => Some(
            peer_info.peer_id,
        ),
        Action::Connectivity(ConnectivityEvent::OutboundAccepted { peer_info, .. }) => Some(
            peer_info.peer_id,
        ),
        Action::Connectivity(ConnectivityEvent::ConnectionClosed { peer_id }) => Some(peer_id),
        Action::Connectivity(ConnectivityEvent::Misbehaved { peer_id, .. }) => Some(peer_id),
        Action::Syncing(SyncingEvent::Request { peer_id, .. }) => Some(peer_id),
        Action::Syncing(SyncingEvent::Response { peer_id, .. }) => Some(peer_id),
        Action::Syncing(SyncingEvent::Announcement { peer_id, .. }) => Some(peer_id),
        _ => None,
    }
}

/// Whether `action` reports `peer` as accepted.
pub open spec fn is_accepted<A>(action: Action<A>, peer: PeerId) -> bool {
    match action {
        Action::Connectivity(ConnectivityEvent::InboundAccepted { peer_info, .. }) => peer_info.peer_id
            == peer,
        Action::Connectivity(ConnectivityEvent::OutboundAccepted { peer_info, .. }) => peer_info.peer_id
            == peer,
        _ => false,
    }
}

/// Whether `action` reports the connection to `peer` as closed.
pub open spec fn is_closed<A>(action: Action<A>, peer: PeerId) -> bool {
    action == Action::<A>::Connectivity(ConnectivityEvent::ConnectionClosed { peer_id: peer })
}

/// Whether `action` passes up something that `peer` has sent: a request, a
/// response or an announcement.
pub open spec fn is_data<A>(action: Action<A>, peer: PeerId) -> bool {
    match action {
        Action::Connectivity(ConnectivityEvent::Request { peer_id, .. }) => peer_id == peer,
        Action::Connectivity(ConnectivityEvent::Response { peer_id, .. }) => peer_id == peer,
        Action::Syncing(SyncingEvent::Request { peer_id, .. }) => peer_id == peer,
        Action::Syncing(SyncingEvent::Response { peer_id, .. }) => peer_id == peer,
        Action::Syncing(SyncingEvent::Announcement { peer_id, .. }) => peer_id == peer,
        _ => false,
    }
}

/// The actions of a step; none where the step failed.
pub open spec fn actions<A>(out: Result<Seq<Action<A>>, P2pError>) -> Seq<Action<A>> {
    match out {
        Ok(actions) => actions,
        Err(_) => Seq::empty(),
    }
}

/// Every step keeps the books of the backend well-formed.
pub proof fn lemma_step_wf<A>(
    pre: BackendView<A>,
    input: Input<A>,
    post: BackendView<A>,
    out: Result<Seq<Action<A>>, P2pError>,
)
    requires
        pre.wf(),
        transition(pre, input, post, out),
    ensures
        post.wf(),
{
}

/// What one step does to one peer. The peer moves on through its stages
/// and never back. A step speaks of the peer only while the peer is alive;
/// it reports the peer as accepted exactly where the peer becomes
/// established, passes its data up only while it is established, and
/// reports it closed exactly where it leaves the books.
pub proof fn lemma_step_lifecycle<A>(
    pre: BackendView<A>,
    input: Input<A>,
    post: BackendView<A>,
    out: Result<Seq<Action<A>>, P2pError>,
    peer: PeerId,
)
    requires
        pre.wf(),
        transition(pre, input, post, out),
    ensures
        stage_of(pre, peer).rank() <= stage_of(post, peer).rank(),
        forall|i: int|
            0 <= i < actions(out).len() && subject(#[trigger] actions(out)[i]) == Some(peer)
                ==> stage_of(pre, peer).alive(),
        forall|i: int|
            0 <= i < actions(out).len() && is_accepted(#[trigger] actions(out)[i], peer)
                ==> stage_of(pre, peer) is Handshaking && stage_of(post, peer) is Established,
        forall|i: int|
            0 <= i < actions(out).len() && is_data(#[trigger] actions(out)[i], peer) ==> stage_of(
                pre,
                peer,
            ) is Established,
        forall|i: int|
            0 <= i < actions(out).len() && is_closed(#[trigger] actions(out)[i], peer) ==> stage_of(
                pre,
                peer,
            ).alive() && stage_of(post, peer) is Closed,
        stage_of(pre, peer) is Handshaking && stage_of(post, peer) is Established ==> exists|i: int|
            0 <= i < actions(out).len() && is_accepted(#[trigger] actions(out)[i], peer),
        stage_of(pre, peer).alive() && stage_of(post, peer) is Closed ==> exists|i: int|
            0 <= i < actions(out).len() && is_closed(#[trigger] actions(out)[i], peer),
        forall|i: int, j: int|
            0 <= i < j < actions(out).len() ==> !(is_closed(#[trigger] actions(out)[i], peer)
                && is_closed(#[trigger] actions(out)[j], peer)),
        forall|i: int, j: int|
            0 <= i < j < actions(out).len() ==> !(is_accepted(#[trigger] actions(out)[i], peer)
                && is_accepted(#[trigger] actions(out)[j], peer)),
        stage_of(pre, peer) is Unknown ==> stage_of(post, peer) is Unknown || stage_of(
            post,
            peer,
        ) is Handshaking,
{
    lemma_step_wf(pre, input, post, out);
}

/// Two nodes on one network that speak one version accept each other. The
/// node `dialer` has dialed the node `listener`; each has the other as a
/// peer that has not shaken hands yet. When the handshake of each reaches
/// the other, the dialer reports one outbound connection as accepted and
/// the listener one inbound connection, and both peers are established.
pub proof fn lemma_connection_symmetry<A>(
    dialer: BackendView<A>,
    listener: BackendView<A>,
    at_dialer: PeerId,
    at_listener: PeerId,
    seen_by_dialer: Option<PeerAddress>,
    seen_by_listener: Option<PeerAddress>,
    dialer_after: BackendView<A>,
    listener_after: BackendView<A>,
    dialer_out: Result<Seq<Action<A>>, P2pError>,
    listener_out: Result<Seq<Action<A>>, P2pError>,
)
    requires
        dialer.wf(),
        listener.wf(),
        dialer.config.network == listener.config.network,
        dialer.config.version == listener.config.version,
        stage_of(dialer, at_dialer) is Handshaking,
        stage_of(listener, at_listener) is Handshaking,
        dialer.peers[at_dialer].role == Role::Outbound,
        listener.peers[at_listener].role == Role::Inbound,
        transition(
            dialer,
            Input::Peer {
                peer_id: at_dialer,
                event: PeerEvent::MessageReceived(
                    Message::Handshake(listener.config.hello(seen_by_listener)),
                ),
            },
            dialer_after,
            dialer_out,
        ),
        transition(
            listener,
            Input::Peer {
                peer_id: at_listener,
                event: PeerEvent::MessageReceived(
                    Message::Handshake(dialer.config.hello(seen_by_dialer)),
                ),
            },
            listener_after,
            listener_out,
        ),
    ensures
        dialer_out == Ok::<_, P2pError>(
            seq![
                accepted_event(
                    at_dialer,
                    dialer.peers[at_dialer],
                    listener.config.hello(seen_by_listener),
                ),
            ],
        ),
        listener_out == Ok::<_, P2pError>(
            seq![
                accepted_event(
                    at_listener,
                    listener.peers[at_listener],
                    dialer.config.hello(seen_by_dialer),
                ),
            ],
        ),
        actions(dialer_out)[0] is Connectivity,
        actions(dialer_out)[0]->Connectivity_0 is OutboundAccepted,
        actions(listener_out)[0]->Connectivity_0 is InboundAccepted,
        is_accepted(actions(dialer_out)[0], at_dialer),
        is_accepted(actions(listener_out)[0], at_listener),
        stage_of(dialer_after, at_dialer) is Established,
        stage_of(listener_after, at_listener) is Established,
{
}

/// A node turns away a peer of another network. When the handshake of a
/// peer with other magic bytes arrives, the node reports the connection as
/// failed with `DifferentNetwork`, naming its own magic bytes first and the
/// peer's second, and has the peer's task stopped; the peer is closing and
/// is never reported as accepted.
pub proof fn lemma_network_magic_rejection<A>(
    node: BackendView<A>,
    peer: PeerId,
    remote: BackendView<A>,
    seen: Option<PeerAddress>,
    after: BackendView<A>,
    out: Result<Seq<Action<A>>, P2pError>,
)
    requires
        node.wf(),
        stage_of(node, peer) is Handshaking,
        remote.config.network != node.config.network,
        transition(
            node,
            Input::Peer {
                peer_id: peer,
                event: PeerEvent::MessageReceived(Message::Handshake(remote.config.hello(seen))),
            },
            after,
            out,
        ),
    ensures
        out == Ok::<_, P2pError>(
            seq![
                connection_error(
                    node.peers[peer].address,
                    P2pError::ProtocolError(
                        ProtocolError::DifferentNetwork(node.config.network, remote.config.network),
                    ),
                ),
                Action::ClosePeer { peer_id: peer },
            ],
        ),
        stage_of(after, peer) is Closing,
{
}

/// One step of a backend: what came in, the books after it, and what the
/// backend answered.
pub struct Step<A> {
    pub input: Input<A>,
    pub post: BackendView<A>,
    pub out: Result<Seq<Action<A>>, P2pError>,
}

/// A run of a backend: the books it starts from, and its steps in order.
pub struct Run<A> {
    pub start: BackendView<A>,
    pub steps: Seq<Step<A>>,
}

impl<A> Run<A> {
    /// The books before step `k`; for `k` the number of steps, the books at
    /// the end.
    pub open spec fn state(self, k: int) -> BackendView<A> {
        if k <= 0 {
            self.start
        } else {
            self.steps[k - 1].post
        }
    }

    /// The actions that step `k` asks for.
    pub open spec fn actions(self, k: int) -> Seq<Action<A>> {
        actions(self.steps[k].out)
    }

    /// Whether the run is one that a backend can make: it starts from
    /// well-formed books, and every step is a transition of the backend.
    pub open spec fn valid(self) -> bool {
        &&& self.start.wf()
        &&& forall|k: int|
            0 <= k < self.steps.len() ==> transition(
                self.state(k),
                (#[trigger] self.steps[k]).input,
                self.steps[k].post,
                self.steps[k].out,
            )
    }

    /// Whether action `i` of step `k` reports `peer` as closed.
    pub open spec fn closes(self, k: int, i: int, peer: PeerId) -> bool {
        0 <= k < self.steps.len() && 0 <= i < self.actions(k).len() && is_closed(
            self.actions(k)[i],
            peer,
        )
    }

    /// Whether action `i` of step `k` reports `peer` as accepted.
    pub open spec fn accepts(self, k: int, i: int, peer: PeerId) -> bool {
        0 <= k < self.steps.len() && 0 <= i < self.actions(k).len() && is_accepted(
            self.actions(k)[i],
            peer,
        )
    }

    /// Whether action `i` of step `k` is an event about `peer`.
    pub open spec fn mentions(self, k: int, i: int, peer: PeerId) -> bool {
        0 <= k < self.steps.len() && 0 <= i < self.actions(k).len() && subject(self.actions(k)[i])
            == Some(peer)
    }

    /// Whether action `i` of step `k` passes up data of `peer`.
    pub open spec fn delivers(self, k: int, i: int, peer: PeerId) -> bool {
        0 <= k < self.steps.len() && 0 <= i < self.actions(k).len() && is_data(
            self.actions(k)[i],
            peer,
        )
    }

    /// The books are well-formed all along a run.
    pub proof fn lemma_wf(self, k: int)
        requires
            self.valid(),
            0 <= k <= self.steps.len(),
        ensures
            self.state(k).wf(),
        decreases k,
    {
        if k > 0 {
            self.lemma_wf(k - 1);
            let step = self.steps[k - 1];
            lemma_step_wf(self.state(k - 1), step.input, step.post, step.out);
        }
    }

    /// What `lemma_step_lifecycle` says of a step, for step `k` of a run.
    pub proof fn lemma_step(self, k: int, peer: PeerId)
        requires
            self.valid(),
            0 <= k < self.steps.len(),
        ensures
            stage_of(self.state(k), peer).rank() <= stage_of(self.state(k + 1), peer).rank(),
            forall|i: int| #[trigger]
                self.mentions(k, i, peer) ==> stage_of(self.state(k), peer).alive(),
            forall|i: int| #[trigger]
                self.accepts(k, i, peer) ==> stage_of(self.state(k), peer) is Handshaking
                    && stage_of(self.state(k + 1), peer) is Established,
            forall|i: int| #[trigger]
                self.delivers(k, i, peer) ==> stage_of(self.state(k), peer) is Established,
            forall|i: int| #[trigger]
                self.closes(k, i, peer) ==> stage_of(self.state(k), peer).alive() && stage_of(
                    self.state(k + 1),
                    peer,
                ) is Closed,
            stage_of(self.state(k), peer) is Handshaking && stage_of(
                self.state(k + 1),
                peer,
            ) is Established ==> exists|i: int| self.accepts(k, i, peer),
            stage_of(self.state(k), peer).alive() && stage_of(self.state(k + 1), peer) is Closed
                ==> exists|i: int| self.closes(k, i, peer),
            forall|i: int, j: int|
                #[trigger] self.closes(k, i, peer) && #[trigger] self.closes(k, j, peer) ==> i == j,
            forall|i: int, j: int|
                #[trigger] self.accepts(k, i, peer) && #[trigger] self.accepts(k, j, peer) ==> i
                    == j,
            stage_of(self.state(k), peer) is Unknown ==> stage_of(self.state(k + 1), peer) is Unknown
                || stage_of(self.state(k + 1), peer) is Handshaking,
    {
        self.lemma_wf(k);
        let step = self.steps[k];
        lemma_step_lifecycle(self.state(k), step.input, step.post, step.out, peer);
        if stage_of(self.state(k), peer) is Handshaking && stage_of(
            self.state(k + 1),
            peer,
        ) is Established {
            let i = choose|i: int|
                0 <= i < actions(step.out).len() && is_accepted(#[trigger] actions(step.out)[i], peer);
            assert(self.accepts(k, i, peer));
        }
        if stage_of(self.state(k), peer).alive() && stage_of(self.state(k + 1), peer) is Closed {
            let i = choose|i: int|
                0 <= i < actions(step.out).len() && is_closed(#[trigger] actions(step.out)[i], peer);
            assert(self.closes(k, i, peer));
        }
        assert forall|i: int, j: int| #[trigger]
            self.closes(k, i, peer) && #[trigger] self.closes(k, j, peer) implies i == j by {
            if i < j {
                assert(!(is_closed(actions(step.out)[i], peer) && is_closed(
                    actions(step.out)[j],
                    peer,
                )));
            }
            if j < i {
                assert(!(is_closed(actions(step.out)[j], peer) && is_closed(
                    actions(step.out)[i],
                    peer,
                )));
            }
        }
        assert forall|i: int, j: int| #[trigger]
            self.accepts(k, i, peer) && #[trigger] self.accepts(k, j, peer) implies i == j by {
            if i < j {
                assert(!(is_accepted(actions(step.out)[i], peer) && is_accepted(
                    actions(step.out)[j],
                    peer,
                )));
            }
            if j < i {
                assert(!(is_accepted(actions(step.out)[j], peer) && is_accepted(
                    actions(step.out)[i],
                    peer,
                )));
            }
        }
    }

    /// A peer moves through its stages in order and never back.
    pub proof fn lemma_stages_in_order(self, k: int, j: int, peer: PeerId)
        requires
            self.valid(),
            0 <= k <= j <= self.steps.len(),
        ensures
            stage_of(self.state(k), peer).rank() <= stage_of(self.state(j), peer).rank(),
        decreases j - k,
    {
        if k < j {
            self.lemma_stages_in_order(k, j - 1, peer);
            self.lemma_step(j - 1, peer);
        }
    }

    /// Once a peer has been reported closed, no event is about it any more.
    pub proof fn lemma_silent_after_close(self, k: int, i: int, j: int, n: int, peer: PeerId)
        requires
            self.valid(),
            self.closes(k, i, peer),
            k < j,
        ensures
            !self.mentions(j, n, peer),
    {
        if self.mentions(j, n, peer) {
            self.lemma_step(k, peer);
            self.lemma_stages_in_order(k + 1, j, peer);
            self.lemma_step(j, peer);
        }
    }

    /// A peer is reported closed at most once.
    pub proof fn lemma_closed_once(self, k: int, i: int, j: int, n: int, peer: PeerId)
        requires
            self.valid(),
            self.closes(k, i, peer),
            self.closes(j, n, peer),
        ensures
            k == j,
            i == n,
    {
        if k < j {
            assert(self.mentions(j, n, peer));
            self.lemma_silent_after_close(k, i, j, n, peer);
        }
        if j < k {
            assert(self.mentions(k, i, peer));
            self.lemma_silent_after_close(j, n, k, i, peer);
        }
        self.lemma_step(k, peer);
    }

    /// A peer that has come and gone in the course of a run has been
    /// reported closed.
    pub proof fn lemma_closed_when_gone(self, peer: PeerId)
        requires
            self.valid(),
            !(stage_of(self.start, peer) is Closed),
            stage_of(self.state(self.steps.len() as int), peer) is Closed,
        ensures
            exists|k: int, i: int| self.closes(k, i, peer),
    {
        self.lemma_closed_within(self.steps.len() as int, peer);
    }

    /// A peer that has come and gone by step `n` has been reported closed
    /// by then.
    proof fn lemma_closed_within(self, n: int, peer: PeerId)
        requires
            self.valid(),
            0 <= n <= self.steps.len(),
            !(stage_of(self.start, peer) is Closed),
            stage_of(self.state(n), peer) is Closed,
        ensures
            exists|k: int, i: int| k < n && self.closes(k, i, peer),
        decreases n,
    {
        if n > 0 {
            let last = n - 1;
            self.lemma_step(last, peer);
            if stage_of(self.state(last), peer) is Closed {
                self.lemma_closed_within(last, peer);
                let (k, i) = choose|k: int, i: int| k < last && self.closes(k, i, peer);
                assert(k < n && self.closes(k, i, peer));
            } else {
                let i = choose|i: int| self.closes(last, i, peer);
                assert(last < n && self.closes(last, i, peer));
            }
        }
    }

    /// A peer is reported accepted at most once.
    pub proof fn lemma_accepted_once(self, k: int, i: int, j: int, n: int, peer: PeerId)
        requires
            self.valid(),
            self.accepts(k, i, peer),
            self.accepts(j, n, peer),
        ensures
            k == j,
            i == n,
    {
        self.lemma_step(k, peer);
        self.lemma_step(j, peer);
        if k < j {
            self.lemma_stages_in_order(k + 1, j, peer);
        }
        if j < k {
            self.lemma_stages_in_order(j + 1, k, peer);
        }
    }

    /// Data of a peer that was not established when the run began is passed
    /// up only after the peer has been reported accepted.
    pub proof fn lemma_accepted_before_data(self, j: int, n: int, peer: PeerId)
        requires
            self.valid(),
            stage_of(self.start, peer).rank() < Stage::Established.rank(),
            self.delivers(j, n, peer),
        ensures
            exists|k: int, i: int| k < j && self.accepts(k, i, peer),
    {
        self.lemma_step(j, peer);
        self.lemma_accepted_within(j, peer);
    }

    /// A peer that is established before step `n`, and was not when the run
    /// began, has been reported accepted by then.
    proof fn lemma_accepted_within(self, n: int, peer: PeerId)
        requires
            self.valid(),
            0 <= n <= self.steps.len(),
            stage_of(self.start, peer).rank() < Stage::Established.rank(),
            stage_of(self.state(n), peer) is Established,
        ensures
            exists|k: int, i: int| k < n && self.accepts(k, i, peer),
        decreases n,
    {
        if n > 0 {
            let last = n - 1;
            self.lemma_step(last, peer);
            if stage_of(self.state(last), peer) is Established {
                self.lemma_accepted_within(last, peer);
                let (k, i) = choose|k: int, i: int| k < last && self.accepts(k, i, peer);
                assert(k < n && self.accepts(k, i, peer));
            } else {
                let i = choose|i: int| self.accepts(last, i, peer);
                assert(last < n && self.accepts(last, i, peer));
            }
        }
    }
}

/// What comes in when a node dials itself. The dial of `address` succeeds,
/// so the node holds both ends of one stream: the end that dialed, which
/// gets the peer id `dialer`, and the end that accepted, from `seen_from`,
/// which gets the next. The handshake of the dialing end fails because the
/// node has met itself, and both tasks end. Then a stranger connects from
/// `next`.
pub open spec fn self_dial_inputs<A>(dialer: PeerId, address: A, seen_from: A, next: A) -> Seq<
    Input<A>,
> {
    let listener = PeerId((dialer.0 + 1) as u64);
    seq![
        Input::Command(Command::Connect { address }),
        Input::Dialed { address },
        Input::Accepted { address: seen_from },
        Input::Peer {
            peer_id: dialer,
            event: PeerEvent::HandshakeFailed(P2pError::DialError(DialError::AttemptToDialSelf)),
        },
        Input::Peer { peer_id: dialer, event: PeerEvent::ConnectionClosed },
        Input::Peer { peer_id: listener, event: PeerEvent::ConnectionClosed },
        Input::Accepted { address: next },
    ]
}

/// What the backend answers when a node dials itself: it has the address
/// dialed and a task started for each end, reports the failed dial once,
/// then each end as closed, and takes the stranger's connection.
pub open spec fn self_dial_actions<A>(dialer: PeerId, address: A, seen_from: A, next: A) -> Seq<
    Seq<Action<A>>,
> {
    let listener = PeerId((dialer.0 + 1) as u64);
    let stranger = PeerId((dialer.0 + 2) as u64);
    seq![
        seq![Action::Dial { address }],
        seq![Action::SpawnPeer { peer_id: dialer, address, role: Role::Outbound }],
        seq![Action::SpawnPeer { peer_id: listener, address: seen_from, role: Role::Inbound }],
        seq![
            Action::Connectivity(
                ConnectivityEvent::ConnectionError {
                    address,
                    error: P2pError::DialError(DialError::AttemptToDialSelf),
                },
            ),
            Action::ClosePeer { peer_id: dialer },
        ],
        seq![Action::Connectivity(ConnectivityEvent::ConnectionClosed { peer_id: dialer })],
        seq![Action::Connectivity(ConnectivityEvent::ConnectionClosed { peer_id: listener })],
        seq![Action::SpawnPeer { peer_id: stranger, address: next, role: Role::Inbound }],
    ]
}

/// A node that dials itself reports `AttemptToDialSelf` once, then two
/// closed connections, and goes on taking connections as before.
pub proof fn lemma_self_dial<A>(run: Run<A>, address: A, seen_from: A, next: A)
    requires
        run.valid(),
        run.start.next_peer_id + 2 < u64::MAX,
        run.steps.len() == 7,
        forall|k: int|
            0 <= k < 7 ==> (#[trigger] run.steps[k]).input == self_dial_inputs(
                PeerId(run.start.next_peer_id),
                address,
                seen_from,
                next,
            )[k],
    ensures
        forall|k: int|
            0 <= k < 7 ==> run.steps[k].out == Ok::<_, P2pError>(
                #[trigger] self_dial_actions(
                    PeerId(run.start.next_peer_id),
                    address,
                    seen_from,
                    next,
                )[k],
            ),
{
    let dialer = PeerId(run.start.next_peer_id);
    let inputs = self_dial_inputs(dialer, address, seen_from, next);
    let expected = self_dial_actions(dialer, address, seen_from, next);
    assert(run.steps[0].input == inputs[0]);
    assert(run.steps[1].input == inputs[1]);
    assert(run.steps[2].input == inputs[2]);
    assert(run.steps[3].input == inputs[3]);
    assert(run.steps[4].input == inputs[4]);
    assert(run.steps[5].input == inputs[5]);
    assert(run.steps[6].input == inputs[6]);
    assert(run.steps[0].post == run.state(1));
    assert(run.steps[1].post == run.state(2));
    assert(run.steps[2].post == run.state(3));
    assert(run.steps[3].post == run.state(4));
    assert(run.steps[4].post == run.state(5));
    assert(run.steps[5].post == run.state(6));
    assert(run.steps[0].out == Ok::<_, P2pError>(expected[0]));
    assert(run.steps[1].out == Ok::<_, P2pError>(expected[1]));
    assert(run.steps[2].out == Ok::<_, P2pError>(expected[2]));
    assert(run.steps[3].out == Ok::<_, P2pError>(expected[3]));
    assert(run.steps[4].out == Ok::<_, P2pError>(expected[4]));
    assert(run.steps[5].out == Ok::<_, P2pError>(expected[5]));
    assert(run.steps[6].out == Ok::<_, P2pError>(expected[6]));
}

} // verus!
