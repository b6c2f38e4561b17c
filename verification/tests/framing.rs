use p2p::error::ProtocolError;
use p2p::framing::{FrameBuffer, FrameCodec, FRAME_HEADER_SIZE};
use p2p::message::Announcement;
use p2p::types::{PubSubTopic, TopicSet};

#[test]
fn frame_is_length_then_payload() {
    let codec = FrameCodec::new(1024);
    assert_eq!(codec.encode(&[]), Ok(vec![0, 0, 0, 0]));
    assert_eq!(codec.encode(&[0xaa, 0xbb, 0xcc]), Ok(vec![3, 0, 0, 0, 0xaa, 0xbb, 0xcc]));
    let frame = codec.encode(&vec![7u8; 0x0102]).unwrap();
    assert_eq!(&frame[..4], &[0x02, 0x01, 0, 0]);
    assert_eq!(frame.len(), FRAME_HEADER_SIZE + 0x0102);
}

#[test]
fn length_is_little_endian_in_all_four_bytes() {
    let codec = FrameCodec::new(u32::MAX);
    let frame = codec.encode(&vec![0u8; 0x01_02_03]).unwrap();
    assert_eq!(&frame[..4], &[0x03, 0x02, 0x01, 0x00]);
    // Only a header: a frame of 0x04030201 bytes is announced, not there yet.
    assert_eq!(codec.decode(&[0x01, 0x02, 0x03, 0x04]), Ok(None));
    assert_eq!(
        FrameCodec::new(0x04030200).decode(&[0x01, 0x02, 0x03, 0x04]),
        Err(ProtocolError::MessageTooLarge)
    );
    assert_eq!(FrameCodec::new(0x04030201).decode(&[0x01, 0x02, 0x03, 0x04]), Ok(None));
}

#[test]
fn oversize_payload_is_refused() {
    let codec = FrameCodec::new(4);
    assert_eq!(codec.encode(&[1, 2, 3, 4]), Ok(vec![4, 0, 0, 0, 1, 2, 3, 4]));
    assert_eq!(codec.encode(&[1, 2, 3, 4, 5]), Err(ProtocolError::MessageTooLarge));
    assert_eq!(codec.decode(&[5, 0, 0, 0, 1, 2, 3, 4, 5]), Err(ProtocolError::MessageTooLarge));
    assert_eq!(codec.decode(&[5, 0, 0, 0]), Err(ProtocolError::MessageTooLarge));
    assert_eq!(codec.decode(&[0, 0, 0, 1]), Err(ProtocolError::MessageTooLarge));
}

#[test]
fn decode_waits_for_a_whole_frame() {
    let codec = FrameCodec::new(16);
    let frame = codec.encode(&[9, 8, 7]).unwrap();
    for n in 0..frame.len() {
        assert_eq!(codec.decode(&frame[..n]), Ok(None));
    }
    assert_eq!(codec.decode(&frame), Ok(Some((vec![9, 8, 7], 7))));
}

#[test]
fn decode_leaves_what_follows() {
    let codec = FrameCodec::new(16);
    let mut buffer = codec.encode(&[1]).unwrap();
    buffer.extend(codec.encode(&[2, 3]).unwrap());
    buffer.extend(codec.encode(&[]).unwrap());
    let (first, used) = codec.decode(&buffer).unwrap().unwrap();
    assert_eq!((first, used), (vec![1], 5));
    let rest = &buffer[used..];
    let (second, used) = codec.decode(rest).unwrap().unwrap();
    assert_eq!((second, used), (vec![2, 3], 6));
    let rest = &rest[used..];
    assert_eq!(codec.decode(rest), Ok(Some((vec![], 4))));
    assert_eq!(codec.decode(&rest[4..]), Ok(None));
}

#[test]
fn announcement_round_trip() {
    let announcement = Announcement::Block(vec![1, 2, 3]);
    assert_eq!(announcement.encode(), vec![0, 1, 2, 3]);
    assert_eq!(Announcement::decode(&[0, 1, 2, 3]), Some(announcement));
    assert_eq!(Announcement::decode(&[0]), Some(Announcement::Block(vec![])));
    assert_eq!(Announcement::Block(vec![]).encode(), vec![0]);
    assert_eq!(Announcement::decode(&[]), None);
    assert_eq!(Announcement::decode(&[1, 2, 3]), None);
}

#[test]
fn topic_sets() {
    let mut set = TopicSet::empty();
    assert!(!set.contains(PubSubTopic::Blocks));
    assert!(!set.contains(PubSubTopic::Transactions));
    set.insert(PubSubTopic::Transactions);
    assert!(set.contains(PubSubTopic::Transactions));
    assert!(!set.contains(PubSubTopic::Blocks));
    set.insert(PubSubTopic::Transactions);
    assert_eq!(set, TopicSet::from_topics(&[PubSubTopic::Transactions]));
    set.insert(PubSubTopic::Blocks);
    assert_eq!(set, TopicSet::all());
    assert_eq!(
        TopicSet::from_topics(&[
            PubSubTopic::Blocks,
            PubSubTopic::Transactions,
            PubSubTopic::Blocks
        ]),
        TopicSet::all()
    );
    assert_eq!(TopicSet::from_topics(&[]), TopicSet::empty());
}

#[test]
fn frame_buffer_puts_pieces_together() {
    let codec = FrameCodec::new(16);
    let mut stream = codec.encode(&[1, 2, 3]).unwrap();
    stream.extend(codec.encode(&[]).unwrap());
    stream.extend(codec.encode(&[4]).unwrap());

    // All at once.
    let mut buffer = FrameBuffer::new(codec);
    assert_eq!(buffer.feed(&stream), (vec![vec![1, 2, 3], vec![], vec![4]], None));
    assert_eq!(buffer.feed(&[]), (vec![], None));

    // Byte by byte.
    let mut buffer = FrameBuffer::new(codec);
    let mut frames = Vec::new();
    for byte in &stream {
        let (whole, error) = buffer.feed(&[*byte]);
        assert_eq!(error, None);
        frames.extend(whole);
    }
    assert_eq!(frames, vec![vec![1, 2, 3], vec![], vec![4]]);

    // Cut at every place.
    for cut in 0..=stream.len() {
        let mut buffer = FrameBuffer::new(codec);
        let (mut frames, error) = buffer.feed(&stream[..cut]);
        assert_eq!(error, None);
        let (late, error) = buffer.feed(&stream[cut..]);
        assert_eq!(error, None);
        frames.extend(late);
        assert_eq!(frames, vec![vec![1, 2, 3], vec![], vec![4]]);
    }
}

#[test]
fn frame_buffer_reports_a_frame_that_is_too_long() {
    let codec = FrameCodec::new(2);
    let mut buffer = FrameBuffer::new(codec);
    let mut stream = codec.encode(&[1, 2]).unwrap();
    stream.extend_from_slice(&[3, 0, 0, 0, 9, 9, 9]);
    assert_eq!(buffer.feed(&stream), (vec![vec![1, 2]], Some(ProtocolError::MessageTooLarge)));
    // The stream is of no use any more.
    assert_eq!(
        buffer.feed(&codec.encode(&[5]).unwrap()),
        (vec![], Some(ProtocolError::MessageTooLarge))
    );
}
