use p2p::error::ProtocolError;
use p2p::message::{
    PeerManagerRequest, PeerManagerResponse, Request, Response, SyncRequest, SyncResponse,
};
use p2p::primitives::SemVer;
use p2p::types::{HandshakeData, Message, PeerAddress, PubSubTopic, RequestId, TopicSet};
use p2p::wire::{decode_message, encode_message};
use parity_scale_codec::Encode;

fn round_trip(message: Message) -> Vec<u8> {
    let bytes = encode_message(&message).unwrap();
    assert_eq!(decode_message(&bytes), Ok(message));
    bytes
}

fn handshake(agent: Option<&str>, subscriptions: TopicSet, seen: Option<PeerAddress>) -> Message {
    Message::Handshake(HandshakeData {
        network: [0x1a, 0x2b, 0x3c, 0x4d],
        version: SemVer::new(0, 1, 0),
        agent: agent.map(str::to_owned),
        subscriptions,
        receiver_address: seen,
    })
}

#[test]
fn request_on_the_wire() {
    let message = Message::Request {
        request_id: RequestId::from_u128(0x0102_0304_0506_0708_090a_0b0c_0d0e_0f10),
        request: Request::Sync(SyncRequest { payload: vec![0xaa, 0xbb] }),
    };
    assert_eq!(
        round_trip(message),
        vec![
            1, // a request
            0x10, 0x0f, 0x0e, 0x0d, 0x0c, 0x0b, 0x0a, 0x09, 0x08, 0x07, 0x06, 0x05, 0x04, 0x03,
            0x02, 0x01, // its id, least significant byte first
            1,    // of synchronisation
            8,    // two bytes follow
            0xaa, 0xbb,
        ]
    );
}

#[test]
fn response_and_announcement_on_the_wire() {
    let response = Message::Response {
        request_id: RequestId::from_u128(1),
        response: Response::PeerManager(PeerManagerResponse { payload: vec![] }),
    };
    let mut expected = vec![2u8, 1];
    expected.extend_from_slice(&[0u8; 15]);
    expected.extend_from_slice(&[0, 0]);
    assert_eq!(round_trip(response), expected);

    let announcement =
        Message::Announcement { topic: PubSubTopic::Transactions, message: vec![9, 9, 9] };
    assert_eq!(round_trip(announcement), vec![3, 1, 12, 9, 9, 9]);
}

#[test]
fn handshake_on_the_wire() {
    let plain = handshake(None, TopicSet::all(), None);
    assert_eq!(
        round_trip(plain),
        vec![0, 0x1a, 0x2b, 0x3c, 0x4d, 0, 1, 0, 0, 0, 0, 8, 0, 1, 0]
    );
    let full = handshake(
        Some("nöde"),
        TopicSet::from_topics(&[PubSubTopic::Transactions]),
        Some(PeerAddress::Ip4 { ip: 0x7f00_0001, port: 3031 }),
    );
    assert_eq!(
        round_trip(full),
        vec![
            0, 0x1a, 0x2b, 0x3c, 0x4d, 0, 1, 0, 0, 0, // network and version
            1, 20, b'n', 0xc3, 0xb6, b'd', b'e', // the agent
            4, 1, // one topic
            1, 0, 0x01, 0x00, 0x00, 0x7f, 0xd7, 0x0b, // seen at 127.0.0.1:3031
        ]
    );
    round_trip(handshake(
        Some(""),
        TopicSet::empty(),
        Some(PeerAddress::Ip6 { ip: 1, port: u16::MAX }),
    ));
    round_trip(handshake(None, TopicSet::from_topics(&[PubSubTopic::Blocks]), None));
}

#[test]
fn lengths_take_one_two_four_or_five_bytes() {
    for length in [0usize, 1, 63, 64, 65, 16383, 16384, 16385, 70_000] {
        let payload = vec![7u8; length];
        let message = Message::Announcement { topic: PubSubTopic::Blocks, message: payload.clone() };
        let bytes = round_trip(message);
        // The same bytes as the SCALE codec writes.
        let mut expected = vec![3u8, 0];
        expected.extend(payload.encode());
        assert_eq!(bytes, expected);
    }
    // A length in five bytes is read, though the bytes it speaks of are not there.
    assert_eq!(decode_message(&[3, 0, 3, 0, 0, 0, 0x40]), Err(ProtocolError::MalformedMessage));
}

#[test]
fn same_bytes_as_the_scale_codec() {
    let id = 0xdead_beef_0000_0000_1234_5678_9abc_def0u128;
    let payload = vec![5u8; 300];
    let message = Message::Request {
        request_id: RequestId::from_u128(id),
        request: Request::PeerManager(PeerManagerRequest { payload: payload.clone() }),
    };
    assert_eq!(encode_message(&message).unwrap(), (1u8, id, 0u8, payload).encode());

    let agent = Some(String::from("agent/1.0"));
    let topics: std::collections::BTreeSet<u8> = [0u8, 1u8].into_iter().collect();
    let seen = Some((1u8, 77u128, 9u16));
    let expected =
        (0u8, [1u8, 2, 3, 4], 2u8, 3u16, 4u16, agent.clone(), topics, seen).encode();
    let message = Message::Handshake(HandshakeData {
        network: [1, 2, 3, 4],
        version: SemVer::new(2, 3, 4),
        agent,
        subscriptions: TopicSet::all(),
        receiver_address: Some(PeerAddress::Ip6 { ip: 77, port: 9 }),
    });
    assert_eq!(encode_message(&message).unwrap(), expected);
}

#[test]
fn malformed_messages_are_refused() {
    let malformed: &[&[u8]] = &[
        &[],                          // nothing
        &[4],                         // no such kind
        &[3, 2, 0],                   // no such topic
        &[3, 0],                      // no length
        &[3, 0, 8, 1],                // shorter than its length
        &[3, 0, 4, 1, 1],             // a byte too many
        &[3, 0, 1, 0],                // zero in two bytes
        &[3, 0, 2, 0, 0, 0],          // zero in four bytes
        &[3, 0, 3, 0, 0, 0, 0],       // zero in five bytes
        &[3, 0, 7, 0, 0, 0, 0],       // a length of more than four bytes
        &[1, 0, 0, 0],                // an id cut short
        &[0, 1, 2, 3, 4, 0, 1, 0, 0, 0, 2, 8, 0, 1, 0],    // agent neither there nor missing
        &[0, 1, 2, 3, 4, 0, 1, 0, 0, 0, 1, 4, 0xff, 0, 0], // agent not UTF-8
        &[0, 1, 2, 3, 4, 0, 1, 0, 0, 0, 0, 8, 1, 0, 0],    // topics out of order
        &[0, 1, 2, 3, 4, 0, 1, 0, 0, 0, 0, 8, 0, 0, 0],    // a topic twice
        &[0, 1, 2, 3, 4, 0, 1, 0, 0, 0, 0, 12, 0, 1, 1, 0], // three topics
        &[0, 1, 2, 3, 4, 0, 1, 0, 0, 0, 0, 0, 1, 2],       // no such kind of address
        &[0, 1, 2, 3, 4, 0, 1, 0, 0, 0, 0, 0],             // address neither there nor missing
    ];
    for bytes in malformed {
        assert_eq!(decode_message(bytes), Err(ProtocolError::MalformedMessage), "{:?}", bytes);
    }
    let mut request = vec![1u8];
    request.extend_from_slice(&[0u8; 16]);
    request.extend_from_slice(&[2, 0]); // no such category
    assert_eq!(decode_message(&request), Err(ProtocolError::MalformedMessage));
}
