//! Frames on a stream: the length of the payload as four bytes, least
//! significant first, then the payload.

use vstd::prelude::*;
use crate::error::ProtocolError;

verus! {

/// Length of the header of a frame, in bytes.
pub const FRAME_HEADER_SIZE: usize = 4;

/// The four bytes of `n`, least significant first.
pub open spec fn le_bytes(n: u32) -> Seq<u8> {
    seq![
        (n % 256) as u8,
        (n / 256 % 256) as u8,
        (n / 65536 % 256) as u8,
        (n / 16777216 % 256) as u8,
    ]
}

/// The number that the first four bytes of `bytes` stand for, least
/// significant first.
pub open spec fn le_value(bytes: Seq<u8>) -> int {
    bytes[0] + 256 * bytes[1] + 65536 * bytes[2] + 16777216 * bytes[3]
}

/// The frame that carries `payload`.
pub open spec fn frame_of(payload: Seq<u8>) -> Seq<u8> {
    le_bytes(payload.len() as u32) + payload
}

/// What the front of a buffer of received bytes holds.
pub enum Decoded {
    /// Less than a whole frame; more bytes are needed.
    Incomplete,
    /// A whole frame with this payload, which takes up `consumed` bytes of
    /// the buffer.
    Frame { payload: Seq<u8>, consumed: nat },
    /// The header of a frame whose payload would be longer than allowed.
    TooLarge,
}

/// What the front of `buffer` holds, where payloads of up to `max_payload`
/// bytes are allowed.
pub open spec fn decoded(buffer: Seq<u8>, max_payload: nat) -> Decoded {
    if buffer.len() < FRAME_HEADER_SIZE {
        Decoded::Incomplete
    } else if le_value(buffer) > max_payload {
        Decoded::TooLarge
    } else if buffer.len() < FRAME_HEADER_SIZE + le_value(buffer) {
        Decoded::Incomplete
    } else {
        Decoded::Frame {
            payload: buffer.subrange(
                FRAME_HEADER_SIZE as int,
                FRAME_HEADER_SIZE + le_value(buffer),
            ),
            consumed: (FRAME_HEADER_SIZE + le_value(buffer)) as nat,
        }
    }
}

/// Writes and reads frames whose payload is at most `max_payload` bytes
/// long.
#[derive(Debug, Clone, Copy, PartialEq, Eq, Structural)]
pub struct FrameCodec {
    pub max_payload: u32,
}

impl FrameCodec {
    pub fn new(max_payload: u32) -> (r: Self)
        ensures
            r.max_payload == max_payload,
    {
        FrameCodec { max_payload }
    }

    /// The frame that carries `payload`; `MessageTooLarge` where the payload
    /// is longer than allowed.
    pub fn encode(&self, payload: &[u8]) -> (r: Result<Vec<u8>, ProtocolError>)
        ensures
            match r {
                Ok(frame) => payload@.len() <= self.max_payload && frame@ == frame_of(payload@),
                Err(e) => payload@.len() > self.max_payload && e == ProtocolError::MessageTooLarge,
            },
    {
        if payload.len() > self.max_payload as usize {
            return Err(ProtocolError::MessageTooLarge);
        }
        let n: u32 = payload.len() as u32;
        let mut frame: Vec<u8> = Vec::new();
        frame.push((n % 256) as u8);
        frame.push((n / 256 % 256) as u8);
        frame.push((n / 65536 % 256) as u8);
        frame.push((n / 16777216 % 256) as u8);
        assert(frame@ =~= le_bytes(n));
        let mut i: usize = 0;
        while i < payload.len()
            invariant
                i <= payload.len(),
                frame@ == le_bytes(n) + payload@.take(i as int),
            decreases payload.len() - i,
        {
            frame.push(payload[i]);
            assert(payload@.take(i + 1) == payload@.take(i as int).push(payload@[i as int]));
            i = i + 1;
        }
        assert(payload@.take(payload.len() as int) == payload@);
        Ok(frame)
    }

    /// Reads the frame at the front of `buffer`: its payload and the number
    /// of bytes it takes up; `None` while the frame is not whole;
    /// `MessageTooLarge` where the header announces a payload longer than
    /// allowed.
    pub fn decode(&self, buffer: &[u8]) -> (r: Result<Option<(Vec<u8>, usize)>, ProtocolError>)
        ensures
            match decoded(buffer@, self.max_payload as nat) {
                Decoded::Incomplete => r matches Ok(None),
                Decoded::Frame { payload, consumed } => r matches Ok(Some(found)) && found.0@
                    == payload && found.1 == consumed,
                Decoded::TooLarge => r matches Err(e) && e == ProtocolError::MessageTooLarge,
            },
    {
        if buffer.len() < FRAME_HEADER_SIZE {
            return Ok(None);
        }
        let n: u32 = buffer[0] as u32 + 256 * (buffer[1] as u32) + 65536 * (buffer[2] as u32)
            + 16777216 * (buffer[3] as u32);
        if n > self.max_payload {
            return Err(ProtocolError::MessageTooLarge);
        }
        if buffer.len() - FRAME_HEADER_SIZE < n as usize {
            return Ok(None);
        }
        let end: usize = FRAME_HEADER_SIZE + n as usize;
        let mut payload: Vec<u8> = Vec::new();
        let mut i: usize = FRAME_HEADER_SIZE;
        while i < end
            invariant
                FRAME_HEADER_SIZE <= i <= end <= buffer.len(),
                payload@ == buffer@.subrange(FRAME_HEADER_SIZE as int, i as int),
            decreases end - i,
        {
            payload.push(buffer[i]);
            assert(buffer@.subrange(FRAME_HEADER_SIZE as int, i + 1) == buffer@.subrange(
                FRAME_HEADER_SIZE as int,
                i as int,
            ).push(buffer@[i as int]));
            i = i + 1;
        }
        Ok(Some((payload, end)))
    }

    /// A frame that was written is read back as it was, whatever follows it
    /// in the buffer.
    pub proof fn lemma_decode_encode(self, payload: Seq<u8>, rest: Seq<u8>)
        requires
            payload.len() <= self.max_payload,
        ensures
            decoded(frame_of(payload) + rest, self.max_payload as nat) == (Decoded::Frame {
                payload,
                consumed: frame_of(payload).len(),
            }),
    {
        let n = payload.len() as u32;
        let buffer = frame_of(payload) + rest;
        lemma_le_value(n);
        assert(buffer[0] == le_bytes(n)[0]);
        assert(buffer[1] == le_bytes(n)[1]);
        assert(buffer[2] == le_bytes(n)[2]);
        assert(buffer[3] == le_bytes(n)[3]);
        assert(le_value(buffer) == n);
        assert(buffer.subrange(FRAME_HEADER_SIZE as int, FRAME_HEADER_SIZE + n) =~= payload);
    }

    /// While only a part of a frame has arrived, nothing is read.
    pub proof fn lemma_decode_part(self, payload: Seq<u8>, n: int)
        requires
            payload.len() <= self.max_payload,
            0 <= n < frame_of(payload).len(),
        ensures
            decoded(frame_of(payload).take(n), self.max_payload as nat) == Decoded::Incomplete,
    {
        let len = payload.len() as u32;
        let part = frame_of(payload).take(n);
        lemma_le_value(len);
        if n >= FRAME_HEADER_SIZE {
            assert(part[0] == le_bytes(len)[0]);
            assert(part[1] == le_bytes(len)[1]);
            assert(part[2] == le_bytes(len)[2]);
            assert(part[3] == le_bytes(len)[3]);
            assert(le_value(part) == len);
        }
    }
}

/// What a buffer of received bytes holds: the payloads of the whole frames
/// at its front, in order, and what is left behind them.
pub struct Frames {
    pub payloads: Seq<Seq<u8>>,
    /// The bytes behind the last whole frame.
    pub rest: Seq<u8>,
    /// Whether the rest begins with the header of a frame that is too long.
    pub too_large: bool,
}

/// What `buffer` holds, where payloads of up to `max_payload` bytes are
/// allowed.
pub open spec fn split_frames(buffer: Seq<u8>, max_payload: nat) -> Frames
    decreases buffer.len(),
{
    match decoded(buffer, max_payload) {
        Decoded::Incomplete => Frames { payloads: Seq::empty(), rest: buffer, too_large: false },
        Decoded::TooLarge => Frames { payloads: Seq::empty(), rest: buffer, too_large: true },
        Decoded::Frame { payload, consumed } => {
            let behind = split_frames(buffer.skip(consumed as int), max_payload);
            Frames { payloads: seq![payload] + behind.payloads, ..behind }
        },
    }
}

/// The contents of the byte strings `frames`.
pub open spec fn contents(frames: Seq<Vec<u8>>) -> Seq<Seq<u8>> {
    Seq::new(frames.len(), |i: int| frames[i]@)
}

/// Puts frames together from the pieces in which a stream delivers them.
#[derive(Debug)]
pub struct FrameBuffer {
    codec: FrameCodec,
    /// What has arrived and is not yet part of a whole frame.
    pending: Vec<u8>,
}

impl FrameBuffer {
    /// The bytes that have arrived behind the last whole frame.
    pub closed spec fn pending(&self) -> Seq<u8> {
        self.pending@
    }

    /// The longest payload that is allowed.
    pub closed spec fn max_payload(&self) -> nat {
        self.codec.max_payload as nat
    }

    /// A buffer that nothing has arrived in.
    pub fn new(codec: FrameCodec) -> (r: Self)
        ensures
            r.pending() == Seq::<u8>::empty(),
            r.max_payload() == codec.max_payload,
    {
        FrameBuffer { codec, pending: Vec::new() }
    }

    /// Takes the bytes that have arrived and returns the payloads of the
    /// frames that are whole now, in order; with them `MessageTooLarge`
    /// where what follows them is a frame that is too long. What is left is
    /// kept for the next call.
    pub fn feed(&mut self, chunk: &[u8]) -> (r: (Vec<Vec<u8>>, Option<ProtocolError>))
        ensures
            final(self).max_payload() == old(self).max_payload(),
            ({
                let frames = split_frames(old(self).pending() + chunk@, old(self).max_payload());
                &&& contents(r.0@) == frames.payloads
                &&& final(self).pending() == frames.rest
                &&& r.1 == (if frames.too_large {
                    Some(ProtocolError::MessageTooLarge)
                } else {
                    None
                })
            }),
    {
        let ghost total = self.pending@ + chunk@;
        let ghost max = self.codec.max_payload as nat;
        self.pending.extend_from_slice(chunk);
        assert(self.pending@ =~= total);
        let mut out: Vec<Vec<u8>> = Vec::new();
        assert(contents(out@) =~= Seq::<Seq<u8>>::empty());
        assert(split_frames(total, max).payloads =~= contents(out@) + split_frames(
            self.pending@,
            max,
        ).payloads);
        loop
            invariant
                max == self.codec.max_payload,
                self.codec == old(self).codec,
                total == old(self).pending@ + chunk@,
                split_frames(total, max).payloads == contents(out@) + split_frames(
                    self.pending@,
                    max,
                ).payloads,
                split_frames(total, max).rest == split_frames(self.pending@, max).rest,
                split_frames(total, max).too_large == split_frames(self.pending@, max).too_large,
            decreases self.pending@.len(),
        {
            let ghost before = self.pending@;
            let ghost sofar = contents(out@);
            match self.codec.decode(self.pending.as_slice()) {
                Ok(None) => {
                    assert(split_frames(before, max).payloads == Seq::<Seq<u8>>::empty());
                    assert(split_frames(before, max).rest == before);
                    assert(contents(out@) + Seq::<Seq<u8>>::empty() =~= contents(out@));
                    return (out, None);
                },
                Err(_) => {
                    assert(split_frames(before, max).payloads == Seq::<Seq<u8>>::empty());
                    assert(split_frames(before, max).rest == before);
                    assert(contents(out@) + Seq::<Seq<u8>>::empty() =~= contents(out@));
                    return (out, Some(ProtocolError::MessageTooLarge));
                },
                Ok(Some((payload, consumed))) => {
                    let rest = self.pending.split_off(consumed);
                    self.pending = rest;
                    out.push(payload);
                    proof {
                        assert(self.pending@ =~= before.skip(consumed as int));
                        assert(contents(out@) =~= sofar + seq![payload@]);
                        assert(sofar + (seq![payload@] + split_frames(self.pending@, max).payloads)
                            =~= (sofar + seq![payload@]) + split_frames(self.pending@, max).payloads);
                    }
                },
            }
        }
    }
}

/// However a stream is cut into pieces, the same frames come out of it:
/// what `first` and `second` hold together is what `first` holds, followed
/// by what its rest and `second` hold together.
pub proof fn lemma_split_in_pieces(first: Seq<u8>, second: Seq<u8>, max_payload: nat)
    requires
        !split_frames(first, max_payload).too_large,
    ensures
        ({
            let whole = split_frames(first + second, max_payload);
            let early = split_frames(first, max_payload);
            let late = split_frames(early.rest + second, max_payload);
            &&& whole.payloads == early.payloads + late.payloads
            &&& whole.rest == late.rest
            &&& whole.too_large == late.too_large
        }),
    decreases first.len(),
{
    let early = split_frames(first, max_payload);
    let late = split_frames(early.rest + second, max_payload);
    match decoded(first, max_payload) {
        Decoded::Incomplete => {
            assert(Seq::<Seq<u8>>::empty() + late.payloads =~= late.payloads);
        },
        Decoded::TooLarge => {},
        Decoded::Frame { payload, consumed } => {
            let joined = first + second;
            assert(joined[0] == first[0] && joined[1] == first[1] && joined[2] == first[2]
                && joined[3] == first[3]);
            assert(le_value(joined) == le_value(first));
            assert(joined.subrange(FRAME_HEADER_SIZE as int, consumed as int) =~= payload);
            assert(joined.skip(consumed as int) =~= first.skip(consumed as int) + second);
            lemma_split_in_pieces(first.skip(consumed as int), second, max_payload);
            let behind = split_frames(first.skip(consumed as int), max_payload);
            assert(seq![payload] + (behind.payloads + late.payloads) =~= (seq![payload]
                + behind.payloads) + late.payloads);
        },
    }
}

/// The four bytes of a number stand for that number.
pub proof fn lemma_le_value(n: u32)
    ensures
        le_value(le_bytes(n)) == n,
        le_bytes(n).len() == 4,
{
}

} // verus!
