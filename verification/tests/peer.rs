use p2p::backend::PeerEvent;
use p2p::error::{P2pError, ProtocolError};
use p2p::framing::FrameCodec;
use p2p::message::{Request, Response, SyncRequest, SyncResponse};
use p2p::peer::PeerConnection;
use p2p::types::{Message, PubSubTopic, RequestId};

fn request(n: u8) -> Message {
    Message::Request {
        request_id: RequestId::from_u128(n as u128),
        request: Request::Sync(SyncRequest { payload: vec![n; n as usize] }),
    }
}

fn misbehaved(error: ProtocolError) -> PeerEvent {
    PeerEvent::Misbehaved(P2pError::ProtocolError(error))
}

#[test]
fn what_one_end_sends_the_other_reports() {
    let sender = PeerConnection::new(FrameCodec::new(64));
    let mut receiver = PeerConnection::new(FrameCodec::new(64));
    let messages = vec![
        request(3),
        Message::Announcement { topic: PubSubTopic::Blocks, message: vec![0, 1] },
        Message::Response {
            request_id: RequestId::from_u128(u128::MAX),
            response: Response::Sync(SyncResponse { payload: vec![] }),
        },
    ];
    let mut stream = Vec::new();
    for message in &messages {
        stream.extend(sender.outgoing(message).unwrap());
    }
    let expected: Vec<PeerEvent> =
        messages.iter().cloned().map(PeerEvent::MessageReceived).collect();
    assert_eq!(receiver.incoming(&stream), expected);

    // In pieces of three bytes.
    let mut receiver = PeerConnection::new(FrameCodec::new(64));
    let mut events = Vec::new();
    for piece in stream.chunks(3) {
        events.extend(receiver.incoming(piece));
    }
    assert_eq!(events, expected);
}

#[test]
fn outgoing_frame_is_length_then_message() {
    let connection = PeerConnection::new(FrameCodec::new(64));
    let frame = connection
        .outgoing(&Message::Announcement { topic: PubSubTopic::Transactions, message: vec![7] })
        .unwrap();
    assert_eq!(frame, vec![4, 0, 0, 0, 3, 1, 4, 7]);
}

#[test]
fn message_longer_than_a_frame_is_not_sent() {
    let connection = PeerConnection::new(FrameCodec::new(20));
    // One byte for the kind, sixteen for the id, one for the category, one
    // for the length: nineteen bytes around the body.
    assert!(connection.outgoing(&request(1)).is_ok());
    assert_eq!(connection.outgoing(&request(2)), Err(ProtocolError::MessageTooLarge));
}

#[test]
fn frame_that_is_too_long_is_reported_after_the_messages_before_it() {
    let sender = PeerConnection::new(FrameCodec::new(64));
    let mut receiver = PeerConnection::new(FrameCodec::new(20));
    let mut stream = sender.outgoing(&request(1)).unwrap();
    stream.extend(sender.outgoing(&request(9)).unwrap());
    stream.extend(sender.outgoing(&request(1)).unwrap());
    assert_eq!(
        receiver.incoming(&stream),
        vec![PeerEvent::MessageReceived(request(1)), misbehaved(ProtocolError::MessageTooLarge)]
    );
}

#[test]
fn payload_that_is_no_message_ends_the_reports() {
    let codec = FrameCodec::new(64);
    let sender = PeerConnection::new(codec);
    let mut receiver = PeerConnection::new(codec);
    let mut stream = sender.outgoing(&request(2)).unwrap();
    stream.extend(codec.encode(&[9, 9, 9]).unwrap());
    stream.extend(sender.outgoing(&request(3)).unwrap());
    assert_eq!(
        receiver.incoming(&stream),
        vec![PeerEvent::MessageReceived(request(2)), misbehaved(ProtocolError::MalformedMessage)]
    );
}
