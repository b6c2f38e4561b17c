//! What goes down to a peer and what comes up from it, in order. The backend
//! puts on the wire to a peer exactly what the commands ask it to send
//! there, one message for each command and in the order of the commands;
//! and it passes up what the peer has sent, one event for each message and
//! in the order in which the messages arrived.

use vstd::prelude::*;
use crate::backend::{
    is_broadcast, misbehaviour, sent_to, transition, Action, BackendView, Input, PeerEvent,
};
use crate::lifecycle::{actions, lemma_step_wf, Run};
use crate::message::{Request, Response};
use crate::types::{Command, ConnectivityEvent, Message, PeerId, RequestId, SyncingEvent};

verus! {

/// What a message carries, whichever way it goes.
pub enum Parcel {
    /// A request, under the id that its sender gave it.
    Request { request_id: RequestId, request: Request },
    /// A response, under the id of the request it answers.
    Response { request_id: RequestId, response: Response },
    /// A serialized announcement.
    Announcement { bytes: Seq<u8> },
}

/// What a message on the wire carries; nothing for a handshake.
pub open spec fn parcel_of(message: Message) -> Option<Parcel> {
    match message {
        Message::Handshake(_) => None,
        Message::Request { request_id, request } => Some(Parcel::Request { request_id, request }),
        Message::Response { request_id, response } => Some(
            Parcel::Response { request_id, response },
        ),
        Message::Announcement { topic, message } => Some(Parcel::Announcement { bytes: message@ }),
    }
}

/// The sequence of what is there, if anything is.
pub open spec fn seq_of(parcel: Option<Parcel>) -> Seq<Parcel> {
    match parcel {
        Some(parcel) => seq![parcel],
        None => Seq::empty(),
    }
}

/// What `action` puts on the wire to `peer`.
pub open spec fn sent_parcel<A>(action: Action<A>, peer: PeerId) -> Option<Parcel> {
    match action {
        Action::SendToPeer { peer_id, message } => if peer_id == peer {
            parcel_of(*message)
        } else {
            None
        },
        _ => None,
    }
}

/// What `actions` put on the wire to `peer`, in order.
pub open spec fn sent_parcels<A>(actions: Seq<Action<A>>, peer: PeerId) -> Seq<Parcel>
    decreases actions.len(),
{
    if actions.len() == 0 {
        Seq::empty()
    } else {
        sent_parcels(actions.drop_last(), peer) + seq_of(sent_parcel(actions.last(), peer))
    }
}

/// What the backend is asked to send to `peer` by `input`, with its books
/// as `pre`: the request of a command that names the peer, where the peer
/// is established; the response to a pending request of the peer, under the
/// id that the peer gave to the request; an announcement that is not too
/// long, where the peer is established and subscribed to the topic.
pub open spec fn asked_parcel<A>(pre: BackendView<A>, input: Input<A>, peer: PeerId) -> Option<
    Parcel,
> {
    match input {
        Input::Command(Command::SendRequest { peer_id, request_id, message }) => if peer_id == peer
            && pre.established(peer) {
            Some(Parcel::Request { request_id, request: message })
        } else {
            None
        },
        Input::Command(Command::SendResponse { request_id, message }) => if pre.requests.to_remote.contains_key(
            request_id,
        ) && pre.requests.to_remote[request_id].0 == peer {
            Some(
                Parcel::Response {
                    request_id: pre.requests.to_remote[request_id].1,
                    response: message,
                },
            )
        } else {
            None
        },
        Input::Command(Command::AnnounceData { topic, message }) => if message@.len()
            <= pre.config.announcement_max_size && pre.recipients(topic).contains(peer) {
            Some(Parcel::Announcement { bytes: message@ })
        } else {
            None
        },
        _ => None,
    }
}

/// What `action` passes up of what `peer` has sent, with the books as
/// `post` after the step: a request is passed up under an ephemeral id, and
/// the books say which id the peer gave it.
pub open spec fn delivered_parcel<A>(post: BackendView<A>, action: Action<A>, peer: PeerId) -> Option<
    Parcel,
> {
    match action {
        Action::Connectivity(ConnectivityEvent::Request { peer_id, request_id, request }) => if peer_id
            == peer {
            Some(
                Parcel::Request {
                    request_id: post.requests.to_remote[request_id].1,
                    request: Request::PeerManager(request),
                },
            )
        } else {
            None
        },
        Action::Syncing(SyncingEvent::Request { peer_id, request_id, request }) => if peer_id
            == peer {
            Some(
                Parcel::Request {
                    request_id: post.requests.to_remote[request_id].1,
                    request: Request::Sync(request),
                },
            )
        } else {
            None
        },
        Action::Connectivity(ConnectivityEvent::Response { peer_id, request_id, response }) => if peer_id
            == peer {
            Some(Parcel::Response { request_id, response: Response::PeerManager(response) })
        } else {
            None
        },
        Action::Syncing(SyncingEvent::Response { peer_id, request_id, response }) => if peer_id
            == peer {
            Some(Parcel::Response { request_id, response: Response::Sync(response) })
        } else {
            None
        },
        Action::Syncing(SyncingEvent::Announcement { peer_id, announcement }) => if peer_id
            == peer {
            Some(Parcel::Announcement { bytes: announcement.spec_encode() })
        } else {
            None
        },
        _ => None,
    }
}

/// What `actions` pass up of what `peer` has sent, in order.
pub open spec fn delivered_parcels<A>(post: BackendView<A>, actions: Seq<Action<A>>, peer: PeerId) -> Seq<
    Parcel,
>
    decreases actions.len(),
{
    if actions.len() == 0 {
        Seq::empty()
    } else {
        delivered_parcels(post, actions.drop_last(), peer) + seq_of(
            delivered_parcel(post, actions.last(), peer),
        )
    }
}

/// What arrives from `peer` with `input` and is to be passed up, with the
/// books as `pre`: the message of an established peer, unless the message
/// shows the peer to misbehave.
pub open spec fn arrived_parcel<A>(pre: BackendView<A>, input: Input<A>, peer: PeerId) -> Option<
    Parcel,
> {
    match input {
        Input::Peer { peer_id, event: PeerEvent::MessageReceived(message) } => if peer_id == peer
            && pre.established(peer) && misbehaviour(
            pre.config,
            PeerEvent::MessageReceived(message),
        ) is None {
            parcel_of(message)
        } else {
            None
        },
        _ => None,
    }
}

/// Actions that send nothing to `peer` put nothing on its wire.
proof fn lemma_nothing_sent<A>(actions: Seq<Action<A>>, peer: PeerId)
    requires
        forall|i: int| 0 <= i < actions.len() ==> sent_to(#[trigger] actions[i]) != Some(peer),
    ensures
        sent_parcels(actions, peer) == Seq::<Parcel>::empty(),
    decreases actions.len(),
{
    if actions.len() > 0 {
        assert(sent_to(actions[actions.len() - 1]) != Some(peer));
        assert forall|i: int| 0 <= i < actions.drop_last().len() implies sent_to(
            #[trigger] actions.drop_last()[i],
        ) != Some(peer) by {
            assert(actions.drop_last()[i] == actions[i]);
        }
        lemma_nothing_sent(actions.drop_last(), peer);
    }
}

/// Actions of which only the one at `at` sends to `peer` put on its wire
/// what that one sends.
proof fn lemma_one_sent<A>(actions: Seq<Action<A>>, peer: PeerId, at: int)
    requires
        0 <= at < actions.len(),
        forall|i: int|
            0 <= i < actions.len() && i != at ==> sent_to(#[trigger] actions[i]) != Some(peer),
    ensures
        sent_parcels(actions, peer) == seq_of(sent_parcel(actions[at], peer)),
    decreases actions.len(),
{
    let rest = actions.drop_last();
    assert forall|i: int| 0 <= i < rest.len() && i != at implies sent_to(#[trigger] rest[i])
        != Some(peer) by {
        assert(rest[i] == actions[i]);
    }
    if at == actions.len() - 1 {
        assert forall|i: int| 0 <= i < rest.len() implies sent_to(#[trigger] rest[i]) != Some(
            peer,
        ) by {
            assert(rest[i] == actions[i]);
        }
        lemma_nothing_sent(rest, peer);
        assert(Seq::<Parcel>::empty() + seq_of(sent_parcel(actions[at], peer)) =~= seq_of(
            sent_parcel(actions[at], peer),
        ));
    } else {
        assert(sent_to(actions[actions.len() - 1]) != Some(peer));
        assert(rest[at] == actions[at]);
        lemma_one_sent(rest, peer, at);
        assert(seq_of(sent_parcel(actions[at], peer)) + Seq::<Parcel>::empty() =~= seq_of(
            sent_parcel(actions[at], peer),
        ));
    }
}

/// One step puts on the wire to a peer what its input asks to be sent
/// there, and nothing else.
pub proof fn lemma_step_sends<A>(
    pre: BackendView<A>,
    input: Input<A>,
    post: BackendView<A>,
    out: Result<Seq<Action<A>>, crate::error::P2pError>,
    peer: PeerId,
)
    requires
        pre.wf(),
        transition(pre, input, post, out),
    ensures
        sent_parcels(actions(out), peer) == seq_of(asked_parcel(pre, input, peer)),
{
    let acts = actions(out);
    match input {
        Input::Command(Command::AnnounceData { topic, message }) => {
            if message@.len() <= pre.config.announcement_max_size {
                assert(is_broadcast(acts, pre.recipients(topic), topic, message@));
                if pre.recipients(topic).contains(peer) {
                    let at = choose|i: int| 0 <= i < acts.len() && sent_to(#[trigger] acts[i]) == Some(peer);
                    assert forall|i: int| 0 <= i < acts.len() && i != at implies sent_to(
                        #[trigger] acts[i],
                    ) != Some(peer) by {
                        if i < at {
                            assert(sent_to(acts[i]) != sent_to(acts[at]));
                        } else {
                            assert(sent_to(acts[at]) != sent_to(acts[i]));
                        }
                    }
                    lemma_one_sent(acts, peer, at);
                } else {
                    lemma_nothing_sent(acts, peer);
                }
            } else {
                lemma_nothing_sent(acts, peer);
            }
        },
        Input::CommandsClosed => {
            lemma_nothing_sent(acts, peer);
        },
        _ => {
            if acts.len() == 0 {
                lemma_nothing_sent(acts, peer);
            } else if acts.len() == 1 {
                lemma_one_sent(acts, peer, 0);
            } else {
                assert(acts.len() == 2);
                lemma_nothing_sent(acts, peer);
            }
        },
    }
}

/// Actions that pass nothing up of `peer`.
proof fn lemma_nothing_delivered<A>(post: BackendView<A>, actions: Seq<Action<A>>, peer: PeerId)
    requires
        forall|i: int|
            0 <= i < actions.len() ==> delivered_parcel(post, #[trigger] actions[i], peer) is None,
    ensures
        delivered_parcels(post, actions, peer) == Seq::<Parcel>::empty(),
    decreases actions.len(),
{
    if actions.len() > 0 {
        assert(delivered_parcel(post, actions[actions.len() - 1], peer) is None);
        assert forall|i: int| 0 <= i < actions.drop_last().len() implies delivered_parcel(
            post,
            #[trigger] actions.drop_last()[i],
            peer,
        ) is None by {
            assert(actions.drop_last()[i] == actions[i]);
        }
        lemma_nothing_delivered(post, actions.drop_last(), peer);
    }
}

/// One step passes up of a peer what has arrived from it with the input,
/// and nothing else.
pub proof fn lemma_step_delivers<A>(
    pre: BackendView<A>,
    input: Input<A>,
    post: BackendView<A>,
    out: Result<Seq<Action<A>>, crate::error::P2pError>,
    peer: PeerId,
)
    requires
        pre.wf(),
        transition(pre, input, post, out),
    ensures
        delivered_parcels(post, actions(out), peer) == seq_of(arrived_parcel(pre, input, peer)),
{
    let acts = actions(out);
    if arrived_parcel(pre, input, peer) is Some {
        assert(acts.len() == 1);
        assert(acts.drop_last() =~= Seq::<Action<A>>::empty());
        assert(delivered_parcels(post, acts.drop_last(), peer) == Seq::<Parcel>::empty());
        assert(Seq::<Parcel>::empty() + seq_of(delivered_parcel(post, acts[0], peer)) =~= seq_of(
            delivered_parcel(post, acts[0], peer),
        ));
    } else {
        match input {
            Input::Command(Command::AnnounceData { topic, message }) => {
                lemma_nothing_delivered(post, acts, peer);
            },
            _ => {
                lemma_nothing_delivered(post, acts, peer);
            },
        }
    }
}

/// No step puts an announcement on the wire that is longer than the
/// configured limit, and no step changes the limit.
pub proof fn lemma_announcements_fit<A>(
    pre: BackendView<A>,
    input: Input<A>,
    post: BackendView<A>,
    out: Result<Seq<Action<A>>, crate::error::P2pError>,
)
    requires
        pre.wf(),
        transition(pre, input, post, out),
    ensures
        post.config == pre.config,
        forall|i: int|
            0 <= i < actions(out).len() ==> (#[trigger] actions(out)[i] matches Action::SendToPeer {
                message,
                ..
            } ==> (*message matches Message::Announcement { message: bytes, .. } ==> bytes@.len()
                <= pre.config.announcement_max_size)),
{
}

impl<A> Run<A> {
    /// What the first `n` steps put on the wire to `peer`, in order.
    pub open spec fn sent(self, peer: PeerId, n: int) -> Seq<Parcel>
        decreases n,
    {
        if n <= 0 {
            Seq::empty()
        } else {
            self.sent(peer, n - 1) + sent_parcels(self.actions(n - 1), peer)
        }
    }

    /// What the inputs of the first `n` steps ask to be sent to `peer`, in
    /// order.
    pub open spec fn asked(self, peer: PeerId, n: int) -> Seq<Parcel>
        decreases n,
    {
        if n <= 0 {
            Seq::empty()
        } else {
            self.asked(peer, n - 1) + seq_of(
                asked_parcel(self.state(n - 1), self.steps[n - 1].input, peer),
            )
        }
    }

    /// What the first `n` steps pass up of what `peer` has sent, in order.
    pub open spec fn delivered(self, peer: PeerId, n: int) -> Seq<Parcel>
        decreases n,
    {
        if n <= 0 {
            Seq::empty()
        } else {
            self.delivered(peer, n - 1) + delivered_parcels(
                self.state(n),
                self.actions(n - 1),
                peer,
            )
        }
    }

    /// What arrives from `peer` with the inputs of the first `n` steps and
    /// is to be passed up, in order.
    pub open spec fn arrived(self, peer: PeerId, n: int) -> Seq<Parcel>
        decreases n,
    {
        if n <= 0 {
            Seq::empty()
        } else {
            self.arrived(peer, n - 1) + seq_of(
                arrived_parcel(self.state(n - 1), self.steps[n - 1].input, peer),
            )
        }
    }

    /// A peer is sent what the commands ask for, in the order of the
    /// commands.
    pub proof fn lemma_sent_in_order(self, peer: PeerId, n: int)
        requires
            self.valid(),
            0 <= n <= self.steps.len(),
        ensures
            self.sent(peer, n) == self.asked(peer, n),
        decreases n,
    {
        if n > 0 {
            self.lemma_sent_in_order(peer, n - 1);
            self.lemma_wf(n - 1);
            let step = self.steps[n - 1];
            lemma_step_sends(self.state(n - 1), step.input, step.post, step.out, peer);
        }
    }

    /// What a peer has sent is passed up in the order in which it arrived.
    pub proof fn lemma_delivered_in_order(self, peer: PeerId, n: int)
        requires
            self.valid(),
            0 <= n <= self.steps.len(),
        ensures
            self.delivered(peer, n) == self.arrived(peer, n),
        decreases n,
    {
        if n > 0 {
            self.lemma_delivered_in_order(peer, n - 1);
            self.lemma_wf(n - 1);
            let step = self.steps[n - 1];
            lemma_step_delivers(self.state(n - 1), step.input, step.post, step.out, peer);
        }
    }
}

} // verus!
