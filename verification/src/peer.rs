//! One connection, as its task sees it: which bytes to put on the stream
//! for a message, and what to report to the backend for the bytes that
//! arrive.

use vstd::prelude::*;
use crate::backend::PeerEvent;
use crate::error::{P2pError, ProtocolError};
use crate::framing::{contents, frame_of, split_frames, FrameBuffer, FrameCodec};
use crate::types::{Message, MessageView};
use crate::wire::{decode_message, encodable, encode_message, encoded, parsed};

verus! {

/// What a task reports of what has arrived.
pub enum Report {
    /// A message.
    Message(MessageView),
    /// A break of the protocol; the task reports nothing after it.
    Misbehaved(ProtocolError),
}

/// What is reported for the payloads of the frames that have arrived, in
/// order: each message, up to the first payload that is not a message; and
/// behind the messages, where all payloads are messages, that the next
/// frame is too long, if it is.
pub open spec fn reports(payloads: Seq<Seq<u8>>, too_large: bool) -> Seq<Report> {
    reports_from(payloads, 0, too_large)
}

/// What is reported for the payloads from place `from` on.
pub open spec fn reports_from(payloads: Seq<Seq<u8>>, from: int, too_large: bool) -> Seq<Report>
    decreases payloads.len() - from,
{
    if from < 0 || from >= payloads.len() {
        if too_large {
            seq![Report::Misbehaved(ProtocolError::MessageTooLarge)]
        } else {
            Seq::empty()
        }
    } else {
        match parsed(payloads[from]) {
            Some(message) => seq![Report::Message(message)] + reports_from(
                payloads,
                from + 1,
                too_large,
            ),
            None => seq![Report::Misbehaved(ProtocolError::MalformedMessage)],
        }
    }
}

/// Whether `event` is the event that reports `report` to the backend.
pub open spec fn reported(event: PeerEvent, report: Report) -> bool {
    match report {
        Report::Message(message) => event matches PeerEvent::MessageReceived(found) && found@
            == message,
        Report::Misbehaved(error) => event == PeerEvent::Misbehaved(P2pError::ProtocolError(error)),
    }
}

/// Whether `events` are the events that report `reports`, one for one.
pub open spec fn all_reported(events: Seq<PeerEvent>, reports: Seq<Report>) -> bool {
    &&& events.len() == reports.len()
    &&& forall|i: int| 0 <= i < events.len() ==> reported(#[trigger] events[i], reports[i])
}

/// The two directions of one connection.
#[derive(Debug)]
pub struct PeerConnection {
    codec: FrameCodec,
    inbound: FrameBuffer,
}

impl PeerConnection {
    /// The bytes that have arrived behind the last whole frame.
    pub closed spec fn pending(&self) -> Seq<u8> {
        self.inbound.pending()
    }

    /// The longest payload of a frame that is sent or taken.
    pub closed spec fn max_payload(&self) -> nat {
        self.codec.max_payload as nat
    }

    /// What holds of a connection at all times: both directions keep to the
    /// same limit.
    pub closed spec fn wf(&self) -> bool {
        self.inbound.max_payload() == self.codec.max_payload
    }

    /// A connection on which nothing has arrived.
    pub fn new(codec: FrameCodec) -> (r: Self)
        ensures
            r.wf(),
            r.pending() == Seq::<u8>::empty(),
            r.max_payload() == codec.max_payload,
    {
        PeerConnection { codec, inbound: FrameBuffer::new(codec) }
    }

    /// The bytes to put on the stream for `message`: its frame.
    /// `MessageTooLarge` where the message cannot be written or is longer
    /// than a frame may hold.
    pub fn outgoing(&self, message: &Message) -> (r: Result<Vec<u8>, ProtocolError>)
        ensures
            match r {
                Ok(bytes) => {
                    &&& encodable(message@)
                    &&& encoded(message@).len() <= self.max_payload()
                    &&& bytes@ == frame_of(encoded(message@))
                },
                Err(e) => {
                    &&& e == ProtocolError::MessageTooLarge
                    &&& !encodable(message@) || encoded(message@).len() > self.max_payload()
                },
            },
    {
        let payload = encode_message(message)?;
        self.codec.encode(payload.as_slice())
    }

    /// Takes the bytes that have arrived and returns what is to be reported
    /// for them to the backend, in order. Where the last event reports a
    /// break of the protocol, the task is to stop.
    pub fn incoming(&mut self, chunk: &[u8]) -> (events: Vec<PeerEvent>)
        requires
            old(self).wf(),
        ensures
            final(self).wf(),
            final(self).max_payload() == old(self).max_payload(),
            ({
                let frames = split_frames(old(self).pending() + chunk@, old(self).max_payload());
                &&& final(self).pending() == frames.rest
                &&& all_reported(events@, reports(frames.payloads, frames.too_large))
            }),
    {
        let (payloads, too_large) = self.inbound.feed(chunk);
        report_all(payloads, too_large)
    }
}

/// The events that report the payloads of the frames that have arrived,
/// and behind them the frame that is too long, if there is one.
fn report_all(payloads: Vec<Vec<u8>>, too_large: Option<ProtocolError>) -> (events: Vec<PeerEvent>)
    requires
        too_large matches Some(error) ==> error == ProtocolError::MessageTooLarge,
    ensures
        all_reported(events@, reports(contents(payloads@), too_large is Some)),
{
    let ghost all = contents(payloads@);
    let ghost last = too_large is Some;
    let mut events: Vec<PeerEvent> = Vec::new();
    let ghost mut done: Seq<Report> = Seq::empty();
    let mut i: usize = 0;
    assert(done + reports_from(all, 0, last) =~= reports_from(all, 0, last));
    while i < payloads.len()
        invariant
            i <= payloads.len(),
            all == contents(payloads@),
            last == too_large is Some,
            all_reported(events@, done),
            reports_from(all, 0, last) == done + reports_from(all, i as int, last),
        decreases payloads.len() - i,
    {
        let ghost behind = reports_from(all, i + 1, last);
        assert(all[i as int] == payloads@[i as int]@);
        match decode_message(payloads[i].as_slice()) {
            Ok(message) => {
                events.push(PeerEvent::MessageReceived(message));
                proof {
                    let report = Report::Message(message@);
                    assert(done + (seq![report] + behind) =~= done.push(report) + behind);
                    done = done.push(report);
                }
            },
            Err(error) => {
                events.push(PeerEvent::Misbehaved(P2pError::ProtocolError(error)));
                proof {
                    let report = Report::Misbehaved(ProtocolError::MalformedMessage);
                    assert(done + seq![report] =~= done.push(report));
                    done = done.push(report);
                }
                return events;
            },
        }
        i = i + 1;
    }
    match too_large {
        Some(error) => {
            events.push(PeerEvent::Misbehaved(P2pError::ProtocolError(error)));
            proof {
                let report = Report::Misbehaved(ProtocolError::MessageTooLarge);
                assert(done + seq![report] =~= done.push(report));
                done = done.push(report);
            }
        },
        None => {
            assert(done + Seq::<Report>::empty() =~= done);
        },
    }
    events
}

} // verus!
