//! The encoding of messages on the wire. An enum goes out as one byte that
//! tells the variant, then its fields in order. Integers are little-endian;
//! a byte string or a set carries its length in front, in the compact form
//! that takes one, two, four or five bytes.

use vstd::prelude::*;
use vstd::string::StringSliceAdditionalSpecFns;
use vstd::utf8::{decode_utf8, encode_utf8, valid_utf8};
use crate::error::ProtocolError;
use crate::framing::{le_bytes, le_value};
use crate::message::{
    BodyView, Category, PeerManagerRequest, PeerManagerResponse, Request, Response, SyncRequest,
    SyncResponse,
};
use crate::primitives::SemVer;
use crate::types::{
    HandshakeData, HandshakeView, Message, MessageView, PeerAddress, PubSubTopic, RequestId,
    TopicSet,
};

verus! {

/// The two bytes of `n`, least significant first.
pub open spec fn le16(n: u16) -> Seq<u8> {
    seq![(n % 256) as u8, (n / 256) as u8]
}

/// The number that the first two bytes of `bytes` stand for.
pub open spec fn le16_value(bytes: Seq<u8>) -> int {
    bytes[0] + 256 * bytes[1]
}

/// The 32-bit word of `n` at place `i`, counted from the least significant.
pub open spec fn word(n: u128, i: int) -> u32
    decreases i,
{
    if i <= 0 {
        (n % 0x1_0000_0000) as u32
    } else {
        word(n / 0x1_0000_0000, i - 1)
    }
}

/// The sixteen bytes of `n`, least significant first.
pub open spec fn le128(n: u128) -> Seq<u8> {
    le_bytes(word(n, 0)) + le_bytes(word(n, 1)) + le_bytes(word(n, 2)) + le_bytes(word(n, 3))
}

/// The number that the first sixteen bytes of `bytes` stand for.
pub open spec fn le128_value(bytes: Seq<u8>) -> int {
    le_value(bytes) + 0x1_0000_0000 * (le_value(bytes.skip(4)) + 0x1_0000_0000 * (le_value(
        bytes.skip(8),
    ) + 0x1_0000_0000 * le_value(bytes.skip(12))))
}

/// The compact form of a length: one byte for lengths below 64, two below
/// 16384, four below 2^30, five from there on. The two lowest bits of the
/// first byte tell which.
pub open spec fn compact(n: u32) -> Seq<u8> {
    if n < 64 {
        seq![(n * 4) as u8]
    } else if n < 16384 {
        le16((n * 4 + 1) as u16)
    } else if n < 0x4000_0000 {
        le_bytes((n * 4 + 2) as u32)
    } else {
        seq![3u8] + le_bytes(n)
    }
}

/// What is read from the front of `bytes`, and what is left behind it.
pub struct Read<T> {
    pub value: T,
    pub rest: Seq<u8>,
}

/// Reads one byte.
pub open spec fn read_u8(bytes: Seq<u8>) -> Option<Read<u8>> {
    if bytes.len() >= 1 {
        Some(Read { value: bytes[0], rest: bytes.skip(1) })
    } else {
        None
    }
}

/// Reads a number of two bytes.
pub open spec fn read_le16(bytes: Seq<u8>) -> Option<Read<u16>> {
    if bytes.len() >= 2 {
        Some(Read { value: le16_value(bytes) as u16, rest: bytes.skip(2) })
    } else {
        None
    }
}

/// Reads a number of four bytes.
pub open spec fn read_le32(bytes: Seq<u8>) -> Option<Read<u32>> {
    if bytes.len() >= 4 {
        Some(Read { value: le_value(bytes) as u32, rest: bytes.skip(4) })
    } else {
        None
    }
}

/// Reads a number of sixteen bytes.
pub open spec fn read_le128(bytes: Seq<u8>) -> Option<Read<u128>> {
    if bytes.len() >= 16 {
        Some(Read { value: le128_value(bytes) as u128, rest: bytes.skip(16) })
    } else {
        None
    }
}

/// Reads a length in its compact form; a length written in more bytes than
/// it needs is not taken.
pub open spec fn read_compact(bytes: Seq<u8>) -> Option<Read<u32>> {
    if bytes.len() == 0 {
        None
    } else if bytes[0] % 4 == 0 {
        Some(Read { value: (bytes[0] / 4) as u32, rest: bytes.skip(1) })
    } else if bytes[0] % 4 == 1 {
        match read_le16(bytes) {
            Some(read) => if read.value / 4 >= 64 {
                Some(Read { value: (read.value / 4) as u32, rest: read.rest })
            } else {
                None
            },
            None => None,
        }
    } else if bytes[0] % 4 == 2 {
        match read_le32(bytes) {
            Some(read) => if read.value / 4 >= 16384 {
                Some(Read { value: (read.value / 4) as u32, rest: read.rest })
            } else {
                None
            },
            None => None,
        }
    } else if bytes[0] == 3 {
        match read_le32(bytes.skip(1)) {
            Some(read) => if read.value >= 0x4000_0000 {
                Some(read)
            } else {
                None
            },
            None => None,
        }
    } else {
        None
    }
}

/// The number that four bytes stand for is below 2^32.
proof fn lemma_le_value_bound(bytes: Seq<u8>)
    ensures
        0 <= le_value(bytes) < 0x1_0000_0000,
{
    lemma_digits(bytes[0], bytes[1], bytes[2], bytes[3]);
}

/// Bytes that begin with the four bytes of `n` stand for `n`.
proof fn lemma_le_value_of(bytes: Seq<u8>, n: u32)
    requires
        bytes.len() >= 4,
        bytes.take(4) == le_bytes(n),
    ensures
        le_value(bytes) == n,
{
    assert(bytes[0] == bytes.take(4)[0]);
    assert(bytes[1] == bytes.take(4)[1]);
    assert(bytes[2] == bytes.take(4)[2]);
    assert(bytes[3] == bytes.take(4)[3]);
    crate::framing::lemma_le_value(n);
}

/// The four words of a number make up the number.
proof fn lemma_words(n: u128)
    ensures
        n == word(n, 0) + 0x1_0000_0000 * (word(n, 1) + 0x1_0000_0000 * (word(n, 2) + 0x1_0000_0000
            * word(n, 3))),
{
    reveal_with_fuel(word, 4);
    let q1 = n / 0x1_0000_0000;
    let q2 = q1 / 0x1_0000_0000;
    let q3 = q2 / 0x1_0000_0000;
    assert(n == (n % 0x1_0000_0000) + 0x1_0000_0000 * q1);
    assert(q1 == (q1 % 0x1_0000_0000) + 0x1_0000_0000 * q2);
    assert(q2 == (q2 % 0x1_0000_0000) + 0x1_0000_0000 * q3);
    assert(q3 < 0x1_0000_0000);
    assert(q3 % 0x1_0000_0000 == q3);
}

/// Four words make up a number whose words they are.
proof fn lemma_words_of(w0: u32, w1: u32, w2: u32, w3: u32)
    ensures
        ({
            let n = w0 + 0x1_0000_0000 * (w1 + 0x1_0000_0000 * (w2 + 0x1_0000_0000 * w3));
            &&& 0 <= n <= u128::MAX
            &&& word(n as u128, 0) == w0
            &&& word(n as u128, 1) == w1
            &&& word(n as u128, 2) == w2
            &&& word(n as u128, 3) == w3
        }),
{
    reveal_with_fuel(word, 4);
    let h2 = w2 + 0x1_0000_0000 * w3;
    let h1 = w1 + 0x1_0000_0000 * h2;
    let n = w0 + 0x1_0000_0000 * h1;
    assert(h2 / 0x1_0000_0000 == w3 && h2 % 0x1_0000_0000 == w2);
    assert(h1 / 0x1_0000_0000 == h2 && h1 % 0x1_0000_0000 == w1);
    assert(n / 0x1_0000_0000 == h1 && n % 0x1_0000_0000 == w0);
}

/// A number of two bytes is read back as it was written.
proof fn lemma_read_le16(n: u16, behind: Seq<u8>)
    ensures
        read_le16(le16(n) + behind) == Some(Read { value: n, rest: behind }),
{
    assert((le16(n) + behind).skip(2) =~= behind);
}

/// A number of four bytes is read back as it was written.
proof fn lemma_read_le32(n: u32, behind: Seq<u8>)
    ensures
        read_le32(le_bytes(n) + behind) == Some(Read { value: n, rest: behind }),
{
    let bytes = le_bytes(n) + behind;
    assert(bytes.skip(4) =~= behind);
    assert(bytes.take(4) =~= le_bytes(n));
    lemma_le_value_of(bytes, n);
}

/// A number of sixteen bytes is read back as it was written.
proof fn lemma_read_le128(n: u128, behind: Seq<u8>)
    ensures
        read_le128(le128(n) + behind) == Some(Read { value: n, rest: behind }),
{
    let bytes = le128(n) + behind;
    assert(bytes.len() >= 16);
    assert(bytes.skip(16) =~= behind);
    assert(bytes.take(4) =~= le_bytes(word(n, 0)));
    assert(bytes.skip(4).take(4) =~= le_bytes(word(n, 1)));
    assert(bytes.skip(8).take(4) =~= le_bytes(word(n, 2)));
    assert(bytes.skip(12).take(4) =~= le_bytes(word(n, 3)));
    lemma_le_value_of(bytes, word(n, 0));
    lemma_le_value_of(bytes.skip(4), word(n, 1));
    lemma_le_value_of(bytes.skip(8), word(n, 2));
    lemma_le_value_of(bytes.skip(12), word(n, 3));
    lemma_words(n);
}

/// What the first byte of a length in two or four bytes tells.
proof fn lemma_mode(v: u32)
    ensures
        (v % 256) % 4 == v % 4,
{
    assert((v % 256) % 4 == v % 4) by (bit_vector);
}

/// A length is read back as it was written.
proof fn lemma_read_compact(n: u32, behind: Seq<u8>)
    ensures
        read_compact(compact(n) + behind) == Some(Read { value: n, rest: behind }),
{
    let bytes = compact(n) + behind;
    if n < 64 {
        assert(bytes.skip(1) =~= behind);
        assert(bytes[0] == (n * 4) as u8);
    } else if n < 16384 {
        let v = (n * 4 + 1) as u16;
        lemma_read_le16(v, behind);
        assert(bytes[0] == (v % 256) as u8);
        lemma_mode(v as u32);
        assert(v / 4 == n);
    } else if n < 0x4000_0000 {
        let v = (n * 4 + 2) as u32;
        lemma_read_le32(v, behind);
        assert(bytes[0] == (v % 256) as u8);
        lemma_mode(v);
        assert(v / 4 == n);
    } else {
        lemma_read_le32(n, behind);
        assert(bytes[0] == 3u8);
        assert(bytes.skip(1) =~= le_bytes(n) + behind);
    }
}

/// What was read as a number of two bytes was written as one.
proof fn lemma_le16_read(bytes: Seq<u8>)
    requires
        read_le16(bytes) is Some,
    ensures
        bytes == le16(read_le16(bytes)->0.value) + read_le16(bytes)->0.rest,
{
    assert(bytes =~= le16(read_le16(bytes)->0.value) + bytes.skip(2));
}

/// The four bytes of the number that four bytes stand for are those bytes.
proof fn lemma_digits(b0: u8, b1: u8, b2: u8, b3: u8)
    ensures
        ({
            let n = b0 + 256 * b1 + 65536 * b2 + 16777216 * b3;
            &&& 0 <= n < 0x1_0000_0000
            &&& n % 256 == b0
            &&& n / 256 % 256 == b1
            &&& n / 65536 % 256 == b2
            &&& n / 16777216 % 256 == b3
        }),
{
    let n = b0 + 256 * b1 + 65536 * b2 + 16777216 * b3;
    let h1 = b1 + 256 * b2 + 65536 * b3;
    let h2 = b2 + 256 * b3;
    assert(n == b0 + 256 * h1);
    assert(n / 256 == h1 && n % 256 == b0);
    assert(h1 == b1 + 256 * h2);
    assert(h1 / 256 == h2 && h1 % 256 == b1);
    assert(h2 / 256 == b3 && h2 % 256 == b2);
    assert(n / 65536 == h2) by {
        assert(n == (b0 + 256 * b1) + 65536 * h2);
    }
    assert(n / 16777216 == b3) by {
        assert(n == (b0 + 256 * b1 + 65536 * b2) + 16777216 * b3);
    }
    assert((b3 as int) % 256 == b3);
}

/// What was read as a number of four bytes was written as one.
proof fn lemma_le32_read(bytes: Seq<u8>)
    requires
        read_le32(bytes) is Some,
    ensures
        bytes == le_bytes(read_le32(bytes)->0.value) + read_le32(bytes)->0.rest,
{
    lemma_digits(bytes[0], bytes[1], bytes[2], bytes[3]);
    let n = le_value(bytes) as u32;
    assert(le_bytes(n) =~= seq![bytes[0], bytes[1], bytes[2], bytes[3]]);
    assert(bytes =~= seq![bytes[0], bytes[1], bytes[2], bytes[3]] + bytes.skip(4));
}

/// What was read as a number of sixteen bytes was written as one.
proof fn lemma_le128_read(bytes: Seq<u8>)
    requires
        read_le128(bytes) is Some,
    ensures
        bytes == le128(read_le128(bytes)->0.value) + read_le128(bytes)->0.rest,
{
    let w0 = le_value(bytes) as u32;
    let w1 = le_value(bytes.skip(4)) as u32;
    let w2 = le_value(bytes.skip(8)) as u32;
    let w3 = le_value(bytes.skip(12)) as u32;
    lemma_le_value_bound(bytes);
    lemma_le_value_bound(bytes.skip(4));
    lemma_le_value_bound(bytes.skip(8));
    lemma_le_value_bound(bytes.skip(12));
    lemma_words_of(w0, w1, w2, w3);
    let n = read_le128(bytes)->0.value;
    lemma_le32_read(bytes);
    lemma_le32_read(bytes.skip(4));
    lemma_le32_read(bytes.skip(8));
    lemma_le32_read(bytes.skip(12));
    assert(bytes.skip(4).skip(4) =~= bytes.skip(8));
    assert(bytes.skip(8).skip(4) =~= bytes.skip(12));
    assert(bytes.skip(12).skip(4) =~= bytes.skip(16));
    assert(bytes =~= le128(n) + bytes.skip(16));
}

/// What was read as a length was written as one.
proof fn lemma_compact_read(bytes: Seq<u8>)
    requires
        read_compact(bytes) is Some,
    ensures
        bytes == compact(read_compact(bytes)->0.value) + read_compact(bytes)->0.rest,
{
    let n = read_compact(bytes)->0.value;
    if bytes[0] % 4 == 0 {
        assert(bytes =~= compact(n) + bytes.skip(1));
    } else if bytes[0] % 4 == 1 {
        lemma_le16_read(bytes);
        let v = read_le16(bytes)->0.value;
        assert(v % 256 == bytes[0]);
        lemma_mode(v as u32);
        assert(n * 4 + 1 == v);
    } else if bytes[0] % 4 == 2 {
        lemma_le32_read(bytes);
        lemma_le_value_bound(bytes);
        let v = read_le32(bytes)->0.value;
        assert(v % 256 == bytes[0]);
        lemma_mode(v);
        assert(n * 4 + 2 == v);
    } else {
        lemma_le32_read(bytes.skip(1));
        assert(bytes =~= seq![3u8] + bytes.skip(1));
        assert(seq![3u8] + (le_bytes(n) + bytes.skip(1).skip(4)) =~= (seq![3u8] + le_bytes(n))
            + bytes.skip(1).skip(4));
    }
}

/// A byte string on the wire: its length, then its bytes.
pub open spec fn enc_bytes(bytes: Seq<u8>) -> Seq<u8> {
    compact(bytes.len() as u32) + bytes
}

/// Reads a byte string.
pub open spec fn read_bytes(bytes: Seq<u8>) -> Option<Read<Seq<u8>>> {
    match read_compact(bytes) {
        Some(length) => if length.rest.len() >= length.value {
            Some(
                Read {
                    value: length.rest.take(length.value as int),
                    rest: length.rest.skip(length.value as int),
                },
            )
        } else {
            None
        },
        None => None,
    }
}

/// The byte that stands for a topic.
pub open spec fn topic_tag(topic: PubSubTopic) -> u8 {
    match topic {
        PubSubTopic::Blocks => 0,
        PubSubTopic::Transactions => 1,
    }
}

/// Reads a topic.
pub open spec fn read_topic(bytes: Seq<u8>) -> Option<Read<PubSubTopic>> {
    if bytes.len() == 0 {
        None
    } else if bytes[0] == 0 {
        Some(Read { value: PubSubTopic::Blocks, rest: bytes.skip(1) })
    } else if bytes[0] == 1 {
        Some(Read { value: PubSubTopic::Transactions, rest: bytes.skip(1) })
    } else {
        None
    }
}

/// The byte that stands for a category.
pub open spec fn category_tag(category: Category) -> u8 {
    match category {
        Category::PeerManager => 0,
        Category::Sync => 1,
    }
}

/// A request or a response on the wire: its category, then its body.
pub open spec fn enc_body(body: BodyView) -> Seq<u8> {
    seq![category_tag(body.category)] + enc_bytes(body.payload)
}

/// Reads a request or a response.
pub open spec fn read_body(bytes: Seq<u8>) -> Option<Read<BodyView>> {
    if bytes.len() == 0 || bytes[0] > 1 {
        None
    } else {
        match read_bytes(bytes.skip(1)) {
            Some(payload) => Some(
                Read {
                    value: BodyView {
                        category: if bytes[0] == 0 {
                            Category::PeerManager
                        } else {
                            Category::Sync
                        },
                        payload: payload.value,
                    },
                    rest: payload.rest,
                },
            ),
            None => None,
        }
    }
}

/// A byte string is read back as it was written.
proof fn lemma_read_bytes(bytes: Seq<u8>, behind: Seq<u8>)
    requires
        bytes.len() <= u32::MAX,
    ensures
        read_bytes(enc_bytes(bytes) + behind) == Some(Read { value: bytes, rest: behind }),
{
    assert(enc_bytes(bytes) + behind =~= compact(bytes.len() as u32) + (bytes + behind));
    lemma_read_compact(bytes.len() as u32, bytes + behind);
    assert((bytes + behind).take(bytes.len() as int) =~= bytes);
    assert((bytes + behind).skip(bytes.len() as int) =~= behind);
}

/// What was read as a byte string was written as one.
proof fn lemma_bytes_read(bytes: Seq<u8>)
    requires
        read_bytes(bytes) is Some,
    ensures
        bytes == enc_bytes(read_bytes(bytes)->0.value) + read_bytes(bytes)->0.rest,
        read_bytes(bytes)->0.value.len() <= u32::MAX,
{
    lemma_compact_read(bytes);
    let length = read_compact(bytes)->0;
    let value = read_bytes(bytes)->0.value;
    assert(length.rest =~= value + read_bytes(bytes)->0.rest);
    assert(compact(length.value) + (value + read_bytes(bytes)->0.rest) =~= (compact(length.value)
        + value) + read_bytes(bytes)->0.rest);
}

/// A request or a response is read back as it was written.
proof fn lemma_read_body(body: BodyView, behind: Seq<u8>)
    requires
        body.payload.len() <= u32::MAX,
    ensures
        read_body(enc_body(body) + behind) == Some(Read { value: body, rest: behind }),
{
    let bytes = enc_body(body) + behind;
    assert(bytes.skip(1) =~= enc_bytes(body.payload) + behind);
    lemma_read_bytes(body.payload, behind);
    assert(bytes[0] == category_tag(body.category));
}

/// What was read as a request or a response was written as one.
proof fn lemma_body_read(bytes: Seq<u8>)
    requires
        read_body(bytes) is Some,
    ensures
        bytes == enc_body(read_body(bytes)->0.value) + read_body(bytes)->0.rest,
        read_body(bytes)->0.value.payload.len() <= u32::MAX,
{
    lemma_bytes_read(bytes.skip(1));
    let read = read_body(bytes)->0;
    assert(bytes =~= seq![bytes[0]] + bytes.skip(1));
    assert(seq![bytes[0]] + (enc_bytes(read.value.payload) + read.rest) =~= (seq![bytes[0]]
        + enc_bytes(read.value.payload)) + read.rest);
}

/// Whether `found` is what `read` says is at the place `at` of `bytes`:
/// the same value, and the place behind it.
spec fn found_at<T>(bytes: Seq<u8>, read: Option<Read<T>>, found: Option<(T, usize)>) -> bool {
    match read {
        Some(read) => {
            &&& found matches Some(found)
            &&& found.0 == read.value
            &&& found.1 <= bytes.len()
            &&& bytes.skip(found.1 as int) == read.rest
        },
        None => found is None,
    }
}

/// Reads one byte at `at`.
fn take_u8(bytes: &[u8], at: usize) -> (r: Option<(u8, usize)>)
    requires
        at <= bytes.len(),
    ensures
        found_at(bytes@, read_u8(bytes@.skip(at as int)), r),
{
    if bytes.len() - at < 1 {
        return None;
    }
    assert(bytes@.skip(at as int).skip(1) =~= bytes@.skip(at + 1));
    Some((bytes[at], at + 1))
}

/// Reads a number of two bytes at `at`.
fn take_le16(bytes: &[u8], at: usize) -> (r: Option<(u16, usize)>)
    requires
        at <= bytes.len(),
    ensures
        found_at(bytes@, read_le16(bytes@.skip(at as int)), r),
{
    if bytes.len() - at < 2 {
        return None;
    }
    assert(bytes@.skip(at as int).skip(2) =~= bytes@.skip(at + 2));
    let n: u16 = bytes[at] as u16 + 256 * (bytes[at + 1] as u16);
    Some((n, at + 2))
}

/// Reads a number of four bytes at `at`.
fn take_le32(bytes: &[u8], at: usize) -> (r: Option<(u32, usize)>)
    requires
        at <= bytes.len(),
    ensures
        found_at(bytes@, read_le32(bytes@.skip(at as int)), r),
{
    if bytes.len() - at < 4 {
        return None;
    }
    assert(bytes@.skip(at as int).skip(4) =~= bytes@.skip(at + 4));
    let n: u32 = bytes[at] as u32 + 256 * (bytes[at + 1] as u32) + 65536 * (bytes[at + 2] as u32)
        + 16777216 * (bytes[at + 3] as u32);
    Some((n, at + 4))
}

/// Reads a number of sixteen bytes at `at`.
fn take_le128(bytes: &[u8], at: usize) -> (r: Option<(u128, usize)>)
    requires
        at <= bytes.len(),
    ensures
        found_at(bytes@, read_le128(bytes@.skip(at as int)), r),
{
    if bytes.len() - at < 16 {
        return None;
    }
    let ghost here = bytes@.skip(at as int);
    let (w0, _) = take_le32(bytes, at).unwrap();
    let (w1, _) = take_le32(bytes, at + 4).unwrap();
    let (w2, _) = take_le32(bytes, at + 8).unwrap();
    let (w3, _) = take_le32(bytes, at + 12).unwrap();
    proof {
        assert(here.skip(4) =~= bytes@.skip(at + 4));
        assert(here.skip(8) =~= bytes@.skip(at + 8));
        assert(here.skip(12) =~= bytes@.skip(at + 12));
        assert(here.skip(16) =~= bytes@.skip(at + 16));
        lemma_words_of(w0, w1, w2, w3);
    }
    let n: u128 = w0 as u128 + 0x1_0000_0000 * (w1 as u128 + 0x1_0000_0000 * (w2 as u128
        + 0x1_0000_0000 * (w3 as u128)));
    Some((n, at + 16))
}

/// Reads a length at `at`.
fn take_compact(bytes: &[u8], at: usize) -> (r: Option<(u32, usize)>)
    requires
        at <= bytes.len(),
    ensures
        found_at(bytes@, read_compact(bytes@.skip(at as int)), r),
{
    if bytes.len() - at < 1 {
        return None;
    }
    let ghost here = bytes@.skip(at as int);
    let first = bytes[at];
    let mode = first % 4;
    if mode == 0 {
        assert(here.skip(1) =~= bytes@.skip(at + 1));
        Some(((first / 4) as u32, at + 1))
    } else if mode == 1 {
        match take_le16(bytes, at) {
            Some((v, next)) => if v / 4 >= 64 {
                Some(((v / 4) as u32, next))
            } else {
                None
            },
            None => None,
        }
    } else if mode == 2 {
        match take_le32(bytes, at) {
            Some((v, next)) => if v / 4 >= 16384 {
                Some((v / 4, next))
            } else {
                None
            },
            None => None,
        }
    } else if first == 3 {
        assert(here.skip(1) =~= bytes@.skip(at + 1));
        match take_le32(bytes, at + 1) {
            Some((v, next)) => if v >= 0x4000_0000 {
                Some((v, next))
            } else {
                None
            },
            None => None,
        }
    } else {
        None
    }
}

/// Reads a byte string at `at`.
fn take_bytes(bytes: &[u8], at: usize) -> (r: Option<(Vec<u8>, usize)>)
    requires
        at <= bytes.len(),
    ensures
        match read_bytes(bytes@.skip(at as int)) {
            Some(read) => {
                &&& r matches Some(found)
                &&& found.0@ == read.value
                &&& found.1 <= bytes.len()
                &&& bytes@.skip(found.1 as int) == read.rest
            },
            None => r is None,
        },
{
    let (length, from) = match take_compact(bytes, at) {
        Some(found) => found,
        None => {
            return None;
        },
    };
    if bytes.len() - from < length as usize {
        return None;
    }
    let to: usize = from + length as usize;
    let mut value: Vec<u8> = Vec::new();
    let mut i: usize = from;
    while i < to
        invariant
            from <= i <= to <= bytes.len(),
            value@ == bytes@.subrange(from as int, i as int),
        decreases to - i,
    {
        value.push(bytes[i]);
        assert(bytes@.subrange(from as int, i + 1) == bytes@.subrange(from as int, i as int).push(
            bytes@[i as int],
        ));
        i = i + 1;
    }
    proof {
        assert(bytes@.skip(from as int).take(length as int) =~= bytes@.subrange(
            from as int,
            to as int,
        ));
        assert(bytes@.skip(from as int).skip(length as int) =~= bytes@.skip(to as int));
    }
    Some((value, to))
}

/// Writes a number of two bytes.
fn put_le16(out: &mut Vec<u8>, n: u16)
    ensures
        final(out)@ == old(out)@ + le16(n),
{
    out.push((n % 256) as u8);
    out.push((n / 256) as u8);
    assert(out@ =~= old(out)@ + le16(n));
}

/// Writes a number of four bytes.
fn put_le32(out: &mut Vec<u8>, n: u32)
    ensures
        final(out)@ == old(out)@ + le_bytes(n),
{
    out.push((n % 256) as u8);
    out.push((n / 256 % 256) as u8);
    out.push((n / 65536 % 256) as u8);
    out.push((n / 16777216 % 256) as u8);
    assert(out@ =~= old(out)@ + le_bytes(n));
}

/// Writes a number of sixteen bytes.
fn put_le128(out: &mut Vec<u8>, n: u128)
    ensures
        final(out)@ == old(out)@ + le128(n),
{
    proof {
        reveal_with_fuel(word, 4);
    }
    let q1 = n / 0x1_0000_0000;
    let q2 = q1 / 0x1_0000_0000;
    let q3 = q2 / 0x1_0000_0000;
    put_le32(out, (n % 0x1_0000_0000) as u32);
    put_le32(out, (q1 % 0x1_0000_0000) as u32);
    put_le32(out, (q2 % 0x1_0000_0000) as u32);
    put_le32(out, (q3 % 0x1_0000_0000) as u32);
    assert(out@ =~= old(out)@ + le128(n));
}

/// Writes a length.
fn put_compact(out: &mut Vec<u8>, n: u32)
    ensures
        final(out)@ == old(out)@ + compact(n),
{
    if n < 64 {
        out.push((n * 4) as u8);
        assert(out@ =~= old(out)@ + compact(n));
    } else if n < 16384 {
        put_le16(out, (n * 4 + 1) as u16);
    } else if n < 0x4000_0000 {
        put_le32(out, n * 4 + 2);
    } else {
        out.push(3u8);
        put_le32(out, n);
        assert(out@ =~= old(out)@ + compact(n));
    }
}

/// Writes a byte string, which must not be longer than a length can say.
fn put_bytes(out: &mut Vec<u8>, bytes: &[u8])
    requires
        bytes@.len() <= u32::MAX,
    ensures
        final(out)@ == old(out)@ + enc_bytes(bytes@),
{
    put_compact(out, bytes.len() as u32);
    let ghost start = out@;
    let mut i: usize = 0;
    while i < bytes.len()
        invariant
            i <= bytes.len(),
            out@ == start + bytes@.take(i as int),
        decreases bytes.len() - i,
    {
        out.push(bytes[i]);
        assert(bytes@.take(i + 1) == bytes@.take(i as int).push(bytes@[i as int]));
        i = i + 1;
    }
    assert(bytes@.take(bytes.len() as int) == bytes@);
    assert(out@ =~= old(out)@ + enc_bytes(bytes@));
}

/// An address on the wire: one byte for its kind, the host, the port.
pub open spec fn enc_address(address: PeerAddress) -> Seq<u8> {
    match address {
        PeerAddress::Ip4 { ip, port } => seq![0u8] + le_bytes(ip) + le16(port),
        PeerAddress::Ip6 { ip, port } => seq![1u8] + le128(ip) + le16(port),
    }
}

/// Reads an address.
pub open spec fn read_address(bytes: Seq<u8>) -> Option<Read<PeerAddress>> {
    if bytes.len() == 0 {
        None
    } else if bytes[0] == 0 {
        match read_le32(bytes.skip(1)) {
            Some(ip) => match read_le16(ip.rest) {
                Some(port) => Some(
                    Read { value: PeerAddress::Ip4 { ip: ip.value, port: port.value }, rest: port.rest },
                ),
                None => None,
            },
            None => None,
        }
    } else if bytes[0] == 1 {
        match read_le128(bytes.skip(1)) {
            Some(ip) => match read_le16(ip.rest) {
                Some(port) => Some(
                    Read { value: PeerAddress::Ip6 { ip: ip.value, port: port.value }, rest: port.rest },
                ),
                None => None,
            },
            None => None,
        }
    } else {
        None
    }
}

/// An address that may be missing: a zero byte, or a one and the address.
pub open spec fn enc_option_address(address: Option<PeerAddress>) -> Seq<u8> {
    match address {
        None => seq![0u8],
        Some(address) => seq![1u8] + enc_address(address),
    }
}

/// Reads an address that may be missing.
pub open spec fn read_option_address(bytes: Seq<u8>) -> Option<Read<Option<PeerAddress>>> {
    if bytes.len() == 0 {
        None
    } else if bytes[0] == 0 {
        Some(Read { value: None, rest: bytes.skip(1) })
    } else if bytes[0] == 1 {
        match read_address(bytes.skip(1)) {
            Some(address) => Some(Read { value: Some(address.value), rest: address.rest }),
            None => None,
        }
    } else {
        None
    }
}

/// The name of an agent, which may be missing: a zero byte, or a one and
/// the name in UTF-8 as a byte string.
pub open spec fn enc_agent(agent: Option<Seq<char>>) -> Seq<u8> {
    match agent {
        None => seq![0u8],
        Some(name) => seq![1u8] + enc_bytes(encode_utf8(name)),
    }
}

/// Reads the name of an agent; bytes that are not UTF-8 are not taken.
pub open spec fn read_agent(bytes: Seq<u8>) -> Option<Read<Option<Seq<char>>>> {
    if bytes.len() == 0 {
        None
    } else if bytes[0] == 0 {
        Some(Read { value: None, rest: bytes.skip(1) })
    } else if bytes[0] == 1 {
        match read_bytes(bytes.skip(1)) {
            Some(name) => if valid_utf8(name.value) {
                Some(Read { value: Some(decode_utf8(name.value)), rest: name.rest })
            } else {
                None
            },
            None => None,
        }
    } else {
        None
    }
}

/// A set of topics on the wire: how many there are, then their bytes in
/// rising order.
pub open spec fn enc_topics(topics: TopicSet) -> Seq<u8> {
    if topics.blocks && topics.transactions {
        compact(2) + seq![0u8, 1u8]
    } else if topics.blocks {
        compact(1) + seq![0u8]
    } else if topics.transactions {
        compact(1) + seq![1u8]
    } else {
        compact(0)
    }
}

/// Reads a set of topics; topics out of order or given twice are not taken.
pub open spec fn read_topics(bytes: Seq<u8>) -> Option<Read<TopicSet>> {
    match read_compact(bytes) {
        Some(count) => if count.value == 0 {
            Some(Read { value: TopicSet { blocks: false, transactions: false }, rest: count.rest })
        } else if count.value == 1 {
            match read_topic(count.rest) {
                Some(topic) => Some(
                    Read {
                        value: TopicSet {
                            blocks: topic.value == PubSubTopic::Blocks,
                            transactions: topic.value == PubSubTopic::Transactions,
                        },
                        rest: topic.rest,
                    },
                ),
                None => None,
            }
        } else if count.value == 2 && count.rest.len() >= 2 && count.rest[0] == 0 && count.rest[1]
            == 1 {
            Some(Read { value: TopicSet { blocks: true, transactions: true }, rest: count.rest.skip(2) })
        } else {
            None
        },
        None => None,
    }
}

/// A version on the wire: its three parts.
pub open spec fn enc_version(version: SemVer) -> Seq<u8> {
    seq![version.major] + (le16(version.minor) + le16(version.patch))
}

/// Reads a version.
pub open spec fn read_version(bytes: Seq<u8>) -> Option<Read<SemVer>> {
    match read_u8(bytes) {
        Some(major) => match read_le16(major.rest) {
            Some(minor) => match read_le16(minor.rest) {
                Some(patch) => Some(
                    Read {
                        value: SemVer {
                            major: major.value,
                            minor: minor.value,
                            patch: patch.value,
                        },
                        rest: patch.rest,
                    },
                ),
                None => None,
            },
            None => None,
        },
        None => None,
    }
}

/// What a peer says of itself besides its network and version.
pub struct Wishes {
    pub agent: Option<Seq<char>>,
    pub subscriptions: TopicSet,
    pub receiver_address: Option<PeerAddress>,
}

/// The end of a handshake on the wire: the agent, the subscriptions, the
/// address of the receiver.
pub open spec fn enc_wishes(wishes: Wishes) -> Seq<u8> {
    enc_agent(wishes.agent) + (enc_topics(wishes.subscriptions) + enc_option_address(
        wishes.receiver_address,
    ))
}

/// Reads the end of a handshake.
pub open spec fn read_wishes(bytes: Seq<u8>) -> Option<Read<Wishes>> {
    match read_agent(bytes) {
        Some(agent) => match read_topics(agent.rest) {
            Some(topics) => match read_option_address(topics.rest) {
                Some(address) => Some(
                    Read {
                        value: Wishes {
                            agent: agent.value,
                            subscriptions: topics.value,
                            receiver_address: address.value,
                        },
                        rest: address.rest,
                    },
                ),
                None => None,
            },
            None => None,
        },
        None => None,
    }
}

/// The end of a handshake.
pub open spec fn wishes_of(data: HandshakeView) -> Wishes {
    Wishes {
        agent: data.agent,
        subscriptions: data.subscriptions,
        receiver_address: data.receiver_address,
    }
}

/// A handshake on the wire: the magic bytes, the version, and the rest.
pub open spec fn enc_handshake(data: HandshakeView) -> Seq<u8> {
    data.network + (enc_version(data.version) + enc_wishes(wishes_of(data)))
}

/// Reads a handshake.
pub open spec fn read_handshake(bytes: Seq<u8>) -> Option<Read<HandshakeView>> {
    if bytes.len() < 4 {
        None
    } else {
        match read_version(bytes.skip(4)) {
            Some(version) => match read_wishes(version.rest) {
                Some(wishes) => Some(
                    Read {
                        value: HandshakeView {
                            network: bytes.take(4),
                            version: version.value,
                            agent: wishes.value.agent,
                            subscriptions: wishes.value.subscriptions,
                            receiver_address: wishes.value.receiver_address,
                        },
                        rest: wishes.rest,
                    },
                ),
                None => None,
            },
            None => None,
        }
    }
}

/// Whether a message can be written: its magic bytes are four, and none of
/// its byte strings is longer than a length can say.
pub open spec fn encodable(message: MessageView) -> bool {
    match message {
        MessageView::Handshake(data) => data.network.len() == 4 && (data.agent matches Some(name)
            ==> encode_utf8(name).len() <= u32::MAX),
        MessageView::Request { body, .. } => body.payload.len() <= u32::MAX,
        MessageView::Response { body, .. } => body.payload.len() <= u32::MAX,
        MessageView::Announcement { message, .. } => message.len() <= u32::MAX,
    }
}

/// A message on the wire: one byte for its kind, then its fields.
pub open spec fn encoded(message: MessageView) -> Seq<u8> {
    match message {
        MessageView::Handshake(data) => seq![0u8] + enc_handshake(data),
        MessageView::Request { request_id, body } => seq![1u8] + (le128(request_id.0) + enc_body(
            body,
        )),
        MessageView::Response { request_id, body } => seq![2u8] + (le128(request_id.0) + enc_body(
            body,
        )),
        MessageView::Announcement { topic, message } => seq![3u8] + (seq![topic_tag(topic)]
            + enc_bytes(message)),
    }
}

/// The message that `bytes` are the whole encoding of, if they are one.
pub open spec fn parsed(bytes: Seq<u8>) -> Option<MessageView> {
    if bytes.len() == 0 {
        None
    } else if bytes[0] == 0 {
        match read_handshake(bytes.skip(1)) {
            Some(data) => if data.rest.len() == 0 {
                Some(MessageView::Handshake(data.value))
            } else {
                None
            },
            None => None,
        }
    } else if bytes[0] == 1 || bytes[0] == 2 {
        match read_le128(bytes.skip(1)) {
            Some(id) => match read_body(id.rest) {
                Some(body) => if body.rest.len() == 0 {
                    if bytes[0] == 1 {
                        Some(
                            MessageView::Request { request_id: RequestId(id.value), body: body.value },
                        )
                    } else {
                        Some(
                            MessageView::Response { request_id: RequestId(id.value), body: body.value },
                        )
                    }
                } else {
                    None
                },
                None => None,
            },
            None => None,
        }
    } else if bytes[0] == 3 {
        match read_topic(bytes.skip(1)) {
            Some(topic) => match read_bytes(topic.rest) {
                Some(message) => if message.rest.len() == 0 {
                    Some(MessageView::Announcement { topic: topic.value, message: message.value })
                } else {
                    None
                },
                None => None,
            },
            None => None,
        }
    } else {
        None
    }
}

/// An address is read back as it was written.
proof fn lemma_read_address(address: PeerAddress, behind: Seq<u8>)
    ensures
        read_address(enc_address(address) + behind) == Some(Read { value: address, rest: behind }),
{
    let bytes = enc_address(address) + behind;
    match address {
        PeerAddress::Ip4 { ip, port } => {
            assert(bytes.skip(1) =~= le_bytes(ip) + (le16(port) + behind));
            lemma_read_le32(ip, le16(port) + behind);
            lemma_read_le16(port, behind);
        },
        PeerAddress::Ip6 { ip, port } => {
            assert(bytes.skip(1) =~= le128(ip) + (le16(port) + behind));
            lemma_read_le128(ip, le16(port) + behind);
            lemma_read_le16(port, behind);
        },
    }
}

/// What was read as an address was written as one.
proof fn lemma_address_read(bytes: Seq<u8>)
    requires
        read_address(bytes) is Some,
    ensures
        bytes == enc_address(read_address(bytes)->0.value) + read_address(bytes)->0.rest,
{
    let read = read_address(bytes)->0;
    assert(bytes =~= seq![bytes[0]] + bytes.skip(1));
    if bytes[0] == 0 {
        let ip = read_le32(bytes.skip(1))->0;
        lemma_le32_read(bytes.skip(1));
        lemma_le16_read(ip.rest);
        assert(bytes =~= seq![0u8] + le_bytes(ip.value) + le16(read_le16(ip.rest)->0.value)
            + read.rest);
    } else {
        let ip = read_le128(bytes.skip(1))->0;
        lemma_le128_read(bytes.skip(1));
        lemma_le16_read(ip.rest);
        assert(bytes =~= seq![1u8] + le128(ip.value) + le16(read_le16(ip.rest)->0.value)
            + read.rest);
    }
}

/// An address that may be missing is read back as it was written.
proof fn lemma_read_option_address(address: Option<PeerAddress>, behind: Seq<u8>)
    ensures
        read_option_address(enc_option_address(address) + behind) == Some(
            Read { value: address, rest: behind },
        ),
{
    let bytes = enc_option_address(address) + behind;
    match address {
        None => {
            assert(bytes.skip(1) =~= behind);
        },
        Some(address) => {
            assert(bytes.skip(1) =~= enc_address(address) + behind);
            lemma_read_address(address, behind);
        },
    }
}

/// What was read as an address that may be missing was written as one.
proof fn lemma_option_address_read(bytes: Seq<u8>)
    requires
        read_option_address(bytes) is Some,
    ensures
        bytes == enc_option_address(read_option_address(bytes)->0.value) + read_option_address(
            bytes,
        )->0.rest,
{
    let read = read_option_address(bytes)->0;
    assert(bytes =~= seq![bytes[0]] + bytes.skip(1));
    if bytes[0] == 1 {
        lemma_address_read(bytes.skip(1));
        assert(bytes =~= seq![1u8] + enc_address(read.value->0) + read.rest);
    }
}

/// The name of an agent is read back as it was written.
proof fn lemma_read_agent(agent: Option<Seq<char>>, behind: Seq<u8>)
    requires
        agent matches Some(name) ==> encode_utf8(name).len() <= u32::MAX,
    ensures
        read_agent(enc_agent(agent) + behind) == Some(Read { value: agent, rest: behind }),
{
    let bytes = enc_agent(agent) + behind;
    match agent {
        None => {
            assert(bytes.skip(1) =~= behind);
        },
        Some(name) => {
            assert(bytes.skip(1) =~= enc_bytes(encode_utf8(name)) + behind);
            lemma_read_bytes(encode_utf8(name), behind);
            vstd::utf8::encode_utf8_valid_utf8(name);
            vstd::utf8::encode_utf8_decode_utf8(name);
        },
    }
}

/// What was read as the name of an agent was written as one.
proof fn lemma_agent_read(bytes: Seq<u8>)
    requires
        read_agent(bytes) is Some,
    ensures
        bytes == enc_agent(read_agent(bytes)->0.value) + read_agent(bytes)->0.rest,
        read_agent(bytes)->0.value matches Some(name) ==> encode_utf8(name).len() <= u32::MAX,
{
    let read = read_agent(bytes)->0;
    assert(bytes =~= seq![bytes[0]] + bytes.skip(1));
    if bytes[0] == 1 {
        let name = read_bytes(bytes.skip(1))->0;
        lemma_bytes_read(bytes.skip(1));
        vstd::utf8::decode_utf8_encode_utf8(name.value);
        assert(bytes =~= seq![1u8] + enc_bytes(name.value) + read.rest);
    }
}

/// A set of topics is read back as it was written.
proof fn lemma_read_topics(topics: TopicSet, behind: Seq<u8>)
    ensures
        read_topics(enc_topics(topics) + behind) == Some(Read { value: topics, rest: behind }),
{
    let bytes = enc_topics(topics) + behind;
    if topics.blocks && topics.transactions {
        assert(bytes =~= compact(2) + (seq![0u8, 1u8] + behind));
        lemma_read_compact(2, seq![0u8, 1u8] + behind);
        assert((seq![0u8, 1u8] + behind).skip(2) =~= behind);
    } else if topics.blocks {
        assert(bytes =~= compact(1) + (seq![0u8] + behind));
        lemma_read_compact(1, seq![0u8] + behind);
        assert((seq![0u8] + behind).skip(1) =~= behind);
    } else if topics.transactions {
        assert(bytes =~= compact(1) + (seq![1u8] + behind));
        lemma_read_compact(1, seq![1u8] + behind);
        assert((seq![1u8] + behind).skip(1) =~= behind);
    } else {
        lemma_read_compact(0, behind);
    }
}

/// What was read as a set of topics was written as one.
proof fn lemma_topics_read(bytes: Seq<u8>)
    requires
        read_topics(bytes) is Some,
    ensures
        bytes == enc_topics(read_topics(bytes)->0.value) + read_topics(bytes)->0.rest,
{
    let count = read_compact(bytes)->0;
    let read = read_topics(bytes)->0;
    lemma_compact_read(bytes);
    if count.value == 1 {
        assert(count.rest =~= seq![count.rest[0]] + read.rest);
        assert(bytes =~= compact(1) + seq![count.rest[0]] + read.rest);
    } else if count.value == 2 {
        assert(count.rest =~= seq![0u8, 1u8] + read.rest);
        assert(bytes =~= compact(2) + seq![0u8, 1u8] + read.rest);
    }
}

/// Joining byte strings does not depend on where one begins.
proof fn lemma_assoc(a: Seq<u8>, b: Seq<u8>, c: Seq<u8>)
    ensures
        (a + b) + c == a + (b + c),
{
    assert((a + b) + c =~= a + (b + c));
}

/// What is behind one byte.
proof fn lemma_behind_one(first: u8, behind: Seq<u8>)
    ensures
        (seq![first] + behind).len() > 0,
        (seq![first] + behind)[0] == first,
        (seq![first] + behind).skip(1) == behind,
{
    assert((seq![first] + behind).skip(1) =~= behind);
}

/// Bytes, as their first and what is behind it.
proof fn lemma_first_and_rest(bytes: Seq<u8>)
    requires
        bytes.len() > 0,
    ensures
        bytes == seq![bytes[0]] + bytes.skip(1),
{
    assert(bytes =~= seq![bytes[0]] + bytes.skip(1));
}

/// A version is read back as it was written.
proof fn lemma_read_version(version: SemVer, behind: Seq<u8>)
    ensures
        read_version(enc_version(version) + behind) == Some(Read { value: version, rest: behind }),
{
    let minor = le16(version.minor);
    let patch = le16(version.patch);
    lemma_assoc(minor, patch, behind);
    lemma_assoc(seq![version.major], minor + patch, behind);
    lemma_behind_one(version.major, minor + (patch + behind));
    lemma_read_le16(version.minor, patch + behind);
    lemma_read_le16(version.patch, behind);
}

/// What was read as a version was written as one.
proof fn lemma_version_read(bytes: Seq<u8>)
    requires
        read_version(bytes) is Some,
    ensures
        bytes == enc_version(read_version(bytes)->0.value) + read_version(bytes)->0.rest,
{
    let read = read_version(bytes)->0;
    let minor_read = read_le16(bytes.skip(1))->0;
    lemma_first_and_rest(bytes);
    lemma_le16_read(bytes.skip(1));
    lemma_le16_read(minor_read.rest);
    let minor = le16(read.value.minor);
    let patch = le16(read.value.patch);
    lemma_assoc(minor, patch, read.rest);
    lemma_assoc(seq![read.value.major], minor + patch, read.rest);
}

/// The end of a handshake is read back as it was written.
proof fn lemma_read_wishes(wishes: Wishes, behind: Seq<u8>)
    requires
        wishes.agent matches Some(name) ==> encode_utf8(name).len() <= u32::MAX,
    ensures
        read_wishes(enc_wishes(wishes) + behind) == Some(Read { value: wishes, rest: behind }),
{
    let agent = enc_agent(wishes.agent);
    let topics = enc_topics(wishes.subscriptions);
    let address = enc_option_address(wishes.receiver_address);
    lemma_assoc(topics, address, behind);
    lemma_assoc(agent, topics + address, behind);
    lemma_read_agent(wishes.agent, topics + (address + behind));
    lemma_read_topics(wishes.subscriptions, address + behind);
    lemma_read_option_address(wishes.receiver_address, behind);
}

/// What was read as the end of a handshake was written as one.
proof fn lemma_wishes_read(bytes: Seq<u8>)
    requires
        read_wishes(bytes) is Some,
    ensures
        bytes == enc_wishes(read_wishes(bytes)->0.value) + read_wishes(bytes)->0.rest,
        read_wishes(bytes)->0.value.agent matches Some(name) ==> encode_utf8(name).len()
            <= u32::MAX,
{
    let read = read_wishes(bytes)->0;
    let agent_read = read_agent(bytes)->0;
    let topics_read = read_topics(agent_read.rest)->0;
    lemma_agent_read(bytes);
    lemma_topics_read(agent_read.rest);
    lemma_option_address_read(topics_read.rest);
    let agent = enc_agent(read.value.agent);
    let topics = enc_topics(read.value.subscriptions);
    let address = enc_option_address(read.value.receiver_address);
    lemma_assoc(topics, address, read.rest);
    lemma_assoc(agent, topics + address, read.rest);
}

/// A handshake is read back as it was written.
proof fn lemma_read_handshake(data: HandshakeView, behind: Seq<u8>)
    requires
        encodable(MessageView::Handshake(data)),
    ensures
        read_handshake(enc_handshake(data) + behind) == Some(Read { value: data, rest: behind }),
{
    let version = enc_version(data.version);
    let wishes = enc_wishes(wishes_of(data));
    lemma_assoc(version, wishes, behind);
    lemma_assoc(data.network, version + wishes, behind);
    let bytes = data.network + (version + (wishes + behind));
    assert(bytes.take(4) =~= data.network);
    assert(bytes.skip(4) =~= version + (wishes + behind));
    lemma_read_version(data.version, wishes + behind);
    lemma_read_wishes(wishes_of(data), behind);
}

/// What was read as a handshake was written as one.
proof fn lemma_handshake_read(bytes: Seq<u8>)
    requires
        read_handshake(bytes) is Some,
    ensures
        bytes == enc_handshake(read_handshake(bytes)->0.value) + read_handshake(bytes)->0.rest,
        encodable(MessageView::Handshake(read_handshake(bytes)->0.value)),
{
    let read = read_handshake(bytes)->0;
    let version_read = read_version(bytes.skip(4))->0;
    lemma_version_read(bytes.skip(4));
    lemma_wishes_read(version_read.rest);
    let version = enc_version(read.value.version);
    let wishes = enc_wishes(wishes_of(read.value));
    assert(bytes =~= bytes.take(4) + bytes.skip(4));
    lemma_assoc(version, wishes, read.rest);
    lemma_assoc(read.value.network, version + wishes, read.rest);
}

/// A message is read back as it was written.
pub proof fn lemma_parsed_encoded(message: MessageView)
    requires
        encodable(message),
    ensures
        parsed(encoded(message)) == Some(message),
{
    let bytes = encoded(message);
    let nothing = Seq::<u8>::empty();
    match message {
        MessageView::Handshake(data) => {
            lemma_behind_one(0u8, enc_handshake(data));
            assert(enc_handshake(data) + nothing =~= enc_handshake(data));
            lemma_read_handshake(data, nothing);
        },
        MessageView::Request { request_id, body } => {
            lemma_behind_one(1u8, le128(request_id.0) + enc_body(body));
            assert(enc_body(body) + nothing =~= enc_body(body));
            lemma_read_le128(request_id.0, enc_body(body));
            lemma_read_body(body, nothing);
        },
        MessageView::Response { request_id, body } => {
            lemma_behind_one(2u8, le128(request_id.0) + enc_body(body));
            assert(enc_body(body) + nothing =~= enc_body(body));
            lemma_read_le128(request_id.0, enc_body(body));
            lemma_read_body(body, nothing);
        },
        MessageView::Announcement { topic, message } => {
            lemma_behind_one(3u8, seq![topic_tag(topic)] + enc_bytes(message));
            lemma_behind_one(topic_tag(topic), enc_bytes(message));
            assert(enc_bytes(message) + nothing =~= enc_bytes(message));
            lemma_read_bytes(message, nothing);
        },
    }
}

/// Bytes that are read as a message are the encoding of that message, and
/// of no other: a message is written in one way only.
pub proof fn lemma_encoded_parsed(bytes: Seq<u8>)
    requires
        parsed(bytes) is Some,
    ensures
        encoded(parsed(bytes)->0) == bytes,
        encodable(parsed(bytes)->0),
{
    let nothing = Seq::<u8>::empty();
    lemma_first_and_rest(bytes);
    if bytes[0] == 0 {
        lemma_handshake_read(bytes.skip(1));
        let data = read_handshake(bytes.skip(1))->0;
        assert(data.rest =~= nothing);
        assert(enc_handshake(data.value) + nothing =~= enc_handshake(data.value));
    } else if bytes[0] == 1 || bytes[0] == 2 {
        lemma_le128_read(bytes.skip(1));
        let id = read_le128(bytes.skip(1))->0;
        lemma_body_read(id.rest);
        let body = read_body(id.rest)->0;
        assert(body.rest =~= nothing);
        assert(enc_body(body.value) + nothing =~= enc_body(body.value));
    } else {
        let topic = read_topic(bytes.skip(1))->0;
        lemma_first_and_rest(bytes.skip(1));
        lemma_bytes_read(topic.rest);
        let message = read_bytes(topic.rest)->0;
        assert(message.rest =~= nothing);
        assert(enc_bytes(message.value) + nothing =~= enc_bytes(message.value));
    }
}

/// `String::from_utf8`: the string that `bytes` are the UTF-8 encoding of;
/// none where they are not UTF-8.
#[verifier::external_body]
fn string_from_utf8(bytes: Vec<u8>) -> (r: Option<String>)
    ensures
        match r {
            Some(string) => valid_utf8(bytes@) && string@ == decode_utf8(bytes@),
            None => !valid_utf8(bytes@),
        },
{
    String::from_utf8(bytes).ok()
}

/// Reads a topic at `at`.
fn take_topic(bytes: &[u8], at: usize) -> (r: Option<(PubSubTopic, usize)>)
    requires
        at <= bytes.len(),
    ensures
        found_at(bytes@, read_topic(bytes@.skip(at as int)), r),
{
    let (tag, next) = match take_u8(bytes, at) {
        Some(found) => found,
        None => {
            return None;
        },
    };
    if tag == 0 {
        Some((PubSubTopic::Blocks, next))
    } else if tag == 1 {
        Some((PubSubTopic::Transactions, next))
    } else {
        None
    }
}

/// Reads an address at `at`.
fn take_address(bytes: &[u8], at: usize) -> (r: Option<(PeerAddress, usize)>)
    requires
        at <= bytes.len(),
    ensures
        found_at(bytes@, read_address(bytes@.skip(at as int)), r),
{
    let (tag, next) = match take_u8(bytes, at) {
        Some(found) => found,
        None => {
            return None;
        },
    };
    if tag == 0 {
        let (ip, next) = match take_le32(bytes, next) {
            Some(found) => found,
            None => {
                return None;
            },
        };
        match take_le16(bytes, next) {
            Some((port, next)) => Some((PeerAddress::Ip4 { ip, port }, next)),
            None => None,
        }
    } else if tag == 1 {
        let (ip, next) = match take_le128(bytes, next) {
            Some(found) => found,
            None => {
                return None;
            },
        };
        match take_le16(bytes, next) {
            Some((port, next)) => Some((PeerAddress::Ip6 { ip, port }, next)),
            None => None,
        }
    } else {
        None
    }
}

/// Reads an address that may be missing at `at`.
fn take_option_address(bytes: &[u8], at: usize) -> (r: Option<(Option<PeerAddress>, usize)>)
    requires
        at <= bytes.len(),
    ensures
        found_at(bytes@, read_option_address(bytes@.skip(at as int)), r),
{
    let (tag, next) = match take_u8(bytes, at) {
        Some(found) => found,
        None => {
            return None;
        },
    };
    if tag == 0 {
        Some((None, next))
    } else if tag == 1 {
        match take_address(bytes, next) {
            Some((address, next)) => Some((Some(address), next)),
            None => None,
        }
    } else {
        None
    }
}

/// Reads a set of topics at `at`.
fn take_topics(bytes: &[u8], at: usize) -> (r: Option<(TopicSet, usize)>)
    requires
        at <= bytes.len(),
    ensures
        found_at(bytes@, read_topics(bytes@.skip(at as int)), r),
{
    let (count, next) = match take_compact(bytes, at) {
        Some(found) => found,
        None => {
            return None;
        },
    };
    if count == 0 {
        Some((TopicSet { blocks: false, transactions: false }, next))
    } else if count == 1 {
        match take_topic(bytes, next) {
            Some((topic, next)) => Some(
                (
                    TopicSet {
                        blocks: topic == PubSubTopic::Blocks,
                        transactions: topic == PubSubTopic::Transactions,
                    },
                    next,
                ),
            ),
            None => None,
        }
    } else if count == 2 && bytes.len() - next >= 2 && bytes[next] == 0 && bytes[next + 1] == 1 {
        assert(bytes@.skip(next as int).skip(2) =~= bytes@.skip(next + 2));
        Some((TopicSet { blocks: true, transactions: true }, next + 2))
    } else {
        None
    }
}

/// Reads the name of an agent at `at`.
fn take_agent(bytes: &[u8], at: usize) -> (r: Option<(Option<String>, usize)>)
    requires
        at <= bytes.len(),
    ensures
        match read_agent(bytes@.skip(at as int)) {
            Some(read) => {
                &&& r matches Some(found)
                &&& match read.value {
                    Some(name) => found.0 matches Some(string) && string@ == name,
                    None => found.0 is None,
                }
                &&& found.1 <= bytes.len()
                &&& bytes@.skip(found.1 as int) == read.rest
            },
            None => r is None,
        },
{
    let (tag, next) = match take_u8(bytes, at) {
        Some(found) => found,
        None => {
            return None;
        },
    };
    if tag == 0 {
        Some((None, next))
    } else if tag == 1 {
        let (name, next) = match take_bytes(bytes, next) {
            Some(found) => found,
            None => {
                return None;
            },
        };
        match string_from_utf8(name) {
            Some(string) => Some((Some(string), next)),
            None => None,
        }
    } else {
        None
    }
}

/// Reads a request or a response at `at`: its category and its body.
fn take_body(bytes: &[u8], at: usize) -> (r: Option<(Category, Vec<u8>, usize)>)
    requires
        at <= bytes.len(),
    ensures
        match read_body(bytes@.skip(at as int)) {
            Some(read) => {
                &&& r matches Some(found)
                &&& found.0 == read.value.category
                &&& found.1@ == read.value.payload
                &&& found.2 <= bytes.len()
                &&& bytes@.skip(found.2 as int) == read.rest
            },
            None => r is None,
        },
{
    let (tag, next) = match take_u8(bytes, at) {
        Some(found) => found,
        None => {
            return None;
        },
    };
    if tag > 1 {
        return None;
    }
    let category = if tag == 0 {
        Category::PeerManager
    } else {
        Category::Sync
    };
    match take_bytes(bytes, next) {
        Some((payload, next)) => Some((category, payload, next)),
        None => None,
    }
}

/// Reads a version at `at`.
fn take_version(bytes: &[u8], at: usize) -> (r: Option<(SemVer, usize)>)
    requires
        at <= bytes.len(),
    ensures
        found_at(bytes@, read_version(bytes@.skip(at as int)), r),
{
    let (major, next) = match take_u8(bytes, at) {
        Some(found) => found,
        None => {
            return None;
        },
    };
    let (minor, next) = match take_le16(bytes, next) {
        Some(found) => found,
        None => {
            return None;
        },
    };
    match take_le16(bytes, next) {
        Some((patch, next)) => Some((SemVer { major, minor, patch }, next)),
        None => None,
    }
}

/// Reads a handshake at `at`.
fn take_handshake(bytes: &[u8], at: usize) -> (r: Option<(HandshakeData, usize)>)
    requires
        at <= bytes.len(),
    ensures
        match read_handshake(bytes@.skip(at as int)) {
            Some(read) => {
                &&& r matches Some(found)
                &&& found.0@ == read.value
                &&& found.1 <= bytes.len()
                &&& bytes@.skip(found.1 as int) == read.rest
            },
            None => r is None,
        },
{
    if bytes.len() - at < 4 {
        return None;
    }
    let ghost here = bytes@.skip(at as int);
    let network: [u8; 4] = [bytes[at], bytes[at + 1], bytes[at + 2], bytes[at + 3]];
    proof {
        assert(network@ =~= here.take(4));
        assert(here.skip(4) =~= bytes@.skip(at + 4));
    }
    let (version, next) = match take_version(bytes, at + 4) {
        Some(found) => found,
        None => {
            return None;
        },
    };
    let (agent, next) = match take_agent(bytes, next) {
        Some(found) => found,
        None => {
            return None;
        },
    };
    let (subscriptions, next) = match take_topics(bytes, next) {
        Some(found) => found,
        None => {
            return None;
        },
    };
    let (receiver_address, next) = match take_option_address(bytes, next) {
        Some(found) => found,
        None => {
            return None;
        },
    };
    let data = HandshakeData { network, version, agent, subscriptions, receiver_address };
    assert(data@ == read_handshake(here)->0.value);
    Some((data, next))
}

/// Reads a message from the bytes that hold it and nothing else;
/// `MalformedMessage` where the bytes are not the encoding of a message.
pub fn decode_message(bytes: &[u8]) -> (r: Result<Message, ProtocolError>)
    ensures
        match parsed(bytes@) {
            Some(message) => r matches Ok(found) && found@ == message,
            None => r matches Err(e) && e == ProtocolError::MalformedMessage,
        },
{
    assert(bytes@.skip(0) =~= bytes@);
    let (tag, next) = match take_u8(bytes, 0) {
        Some(found) => found,
        None => {
            return Err(ProtocolError::MalformedMessage);
        },
    };
    if tag == 0 {
        match take_handshake(bytes, next) {
            Some((data, end)) => if end == bytes.len() {
                Ok(Message::Handshake(data))
            } else {
                Err(ProtocolError::MalformedMessage)
            },
            None => Err(ProtocolError::MalformedMessage),
        }
    } else if tag == 1 || tag == 2 {
        let (id, next) = match take_le128(bytes, next) {
            Some(found) => found,
            None => {
                return Err(ProtocolError::MalformedMessage);
            },
        };
        let (category, payload, end) = match take_body(bytes, next) {
            Some(found) => found,
            None => {
                return Err(ProtocolError::MalformedMessage);
            },
        };
        if end != bytes.len() {
            return Err(ProtocolError::MalformedMessage);
        }
        let request_id = RequestId(id);
        if tag == 1 {
            Ok(
                Message::Request {
                    request_id,
                    request: match category {
                        Category::PeerManager => Request::PeerManager(PeerManagerRequest { payload }),
                        Category::Sync => Request::Sync(SyncRequest { payload }),
                    },
                },
            )
        } else {
            Ok(
                Message::Response {
                    request_id,
                    response: match category {
                        Category::PeerManager => Response::PeerManager(
                            PeerManagerResponse { payload },
                        ),
                        Category::Sync => Response::Sync(SyncResponse { payload }),
                    },
                },
            )
        }
    } else if tag == 3 {
        let (topic, next) = match take_topic(bytes, next) {
            Some(found) => found,
            None => {
                return Err(ProtocolError::MalformedMessage);
            },
        };
        match take_bytes(bytes, next) {
            Some((message, end)) => if end == bytes.len() {
                Ok(Message::Announcement { topic, message })
            } else {
                Err(ProtocolError::MalformedMessage)
            },
            None => Err(ProtocolError::MalformedMessage),
        }
    } else {
        Err(ProtocolError::MalformedMessage)
    }
}

/// Writes an address.
fn put_address(out: &mut Vec<u8>, address: &PeerAddress)
    ensures
        final(out)@ == old(out)@ + enc_address(*address),
{
    match address {
        PeerAddress::Ip4 { ip, port } => {
            out.push(0u8);
            put_le32(out, *ip);
            put_le16(out, *port);
        },
        PeerAddress::Ip6 { ip, port } => {
            out.push(1u8);
            put_le128(out, *ip);
            put_le16(out, *port);
        },
    }
    assert(out@ =~= old(out)@ + enc_address(*address));
}

/// Writes a set of topics.
fn put_topics(out: &mut Vec<u8>, topics: TopicSet)
    ensures
        final(out)@ == old(out)@ + enc_topics(topics),
{
    if topics.blocks && topics.transactions {
        put_compact(out, 2);
        out.push(0u8);
        out.push(1u8);
    } else if topics.blocks {
        put_compact(out, 1);
        out.push(0u8);
    } else if topics.transactions {
        put_compact(out, 1);
        out.push(1u8);
    } else {
        put_compact(out, 0);
    }
    assert(out@ =~= old(out)@ + enc_topics(topics));
}

/// Writes the name of an agent, which must not be longer than a length
/// can say.
fn put_agent(out: &mut Vec<u8>, agent: &Option<String>)
    requires
        agent matches Some(name) ==> encode_utf8(name@).len() <= u32::MAX,
    ensures
        final(out)@ == old(out)@ + enc_agent(
            match *agent {
                Some(name) => Some(name@),
                None => None,
            },
        ),
{
    match agent {
        None => {
            out.push(0u8);
            assert(out@ =~= old(out)@ + seq![0u8]);
        },
        Some(name) => {
            out.push(1u8);
            let ghost marked = out@;
            put_bytes(out, name.as_str().as_bytes());
            proof {
                assert(marked =~= old(out)@ + seq![1u8]);
                lemma_assoc(old(out)@, seq![1u8], enc_bytes(encode_utf8(name@)));
            }
        },
    }
}

/// Writes an address that may be missing.
fn put_option_address(out: &mut Vec<u8>, address: &Option<PeerAddress>)
    ensures
        final(out)@ == old(out)@ + enc_option_address(*address),
{
    match address {
        None => {
            out.push(0u8);
            assert(out@ =~= old(out)@ + seq![0u8]);
        },
        Some(address) => {
            out.push(1u8);
            let ghost marked = out@;
            put_address(out, address);
            proof {
                assert(marked =~= old(out)@ + seq![1u8]);
                lemma_assoc(old(out)@, seq![1u8], enc_address(*address));
            }
        },
    }
}

/// Writes the magic bytes of a network.
fn put_network(out: &mut Vec<u8>, network: &[u8; 4])
    ensures
        final(out)@ == old(out)@ + network@,
{
    out.push(network[0]);
    out.push(network[1]);
    out.push(network[2]);
    out.push(network[3]);
    assert(out@ =~= old(out)@ + network@);
}

/// Writes a handshake, which must be one that can be written.
fn put_handshake(out: &mut Vec<u8>, data: &HandshakeData)
    requires
        encodable(MessageView::Handshake(data@)),
    ensures
        final(out)@ == old(out)@ + enc_handshake(data@),
{
    let ghost view = data@;
    put_network(out, &data.network);
    let ghost with_network = out@;
    out.push(data.version.major);
    let ghost with_major = out@;
    put_le16(out, data.version.minor);
    put_le16(out, data.version.patch);
    let ghost with_version = out@;
    proof {
        assert(with_major =~= with_network + seq![view.version.major]);
        lemma_assoc(with_major, le16(view.version.minor), le16(view.version.patch));
        lemma_assoc(
            with_network,
            seq![view.version.major],
            le16(view.version.minor) + le16(view.version.patch),
        );
        assert(with_version == with_network + enc_version(view.version));
    }
    put_agent(out, &data.agent);
    put_topics(out, data.subscriptions);
    put_option_address(out, &data.receiver_address);
    proof {
        let agent = enc_agent(view.agent);
        let topics = enc_topics(view.subscriptions);
        let address = enc_option_address(view.receiver_address);
        lemma_assoc(with_version + agent, topics, address);
        lemma_assoc(with_version, agent, topics + address);
        assert(out@ == with_version + enc_wishes(wishes_of(view)));
        lemma_assoc(with_network, enc_version(view.version), enc_wishes(wishes_of(view)));
        lemma_assoc(
            old(out)@,
            view.network,
            enc_version(view.version) + enc_wishes(wishes_of(view)),
        );
    }
}

/// The category and the body of a request.
fn body_of_request(request: &Request) -> (r: (Category, &Vec<u8>))
    ensures
        r.0 == request@.category,
        r.1@ == request@.payload,
{
    match request {
        Request::PeerManager(request) => (Category::PeerManager, &request.payload),
        Request::Sync(request) => (Category::Sync, &request.payload),
    }
}

/// The category and the body of a response.
fn body_of_response(response: &Response) -> (r: (Category, &Vec<u8>))
    ensures
        r.0 == response@.category,
        r.1@ == response@.payload,
{
    match response {
        Response::PeerManager(response) => (Category::PeerManager, &response.payload),
        Response::Sync(response) => (Category::Sync, &response.payload),
    }
}

/// Writes a request or a response.
fn put_body(out: &mut Vec<u8>, category: Category, payload: &Vec<u8>)
    requires
        payload@.len() <= u32::MAX,
    ensures
        final(out)@ == old(out)@ + enc_body(BodyView { category, payload: payload@ }),
{
    out.push(
        match category {
            Category::PeerManager => 0u8,
            Category::Sync => 1u8,
        },
    );
    put_bytes(out, payload.as_slice());
    assert(out@ =~= old(out)@ + enc_body(BodyView { category, payload: payload@ }));
}

/// Whether a byte string of this length can be written.
fn fits(length: usize) -> (r: bool)
    ensures
        r == (length <= u32::MAX),
{
    length <= u32::MAX as usize
}

/// The bytes that a message goes on the wire as; `MessageTooLarge` where a
/// byte string in it is longer than a length can say.
pub fn encode_message(message: &Message) -> (r: Result<Vec<u8>, ProtocolError>)
    ensures
        match r {
            Ok(bytes) => encodable(message@) && bytes@ == encoded(message@),
            Err(e) => !encodable(message@) && e == ProtocolError::MessageTooLarge,
        },
{
    let mut out: Vec<u8> = Vec::new();
    match message {
        Message::Handshake(data) => {
            match &data.agent {
                Some(name) => {
                    if !fits(name.as_str().as_bytes().len()) {
                        return Err(ProtocolError::MessageTooLarge);
                    }
                },
                None => {},
            }
            out.push(0u8);
            assert(out@ =~= seq![0u8]);
            put_handshake(&mut out, data);
        },
        Message::Request { request_id, request } => {
            let (category, payload) = body_of_request(request);
            if !fits(payload.len()) {
                return Err(ProtocolError::MessageTooLarge);
            }
            out.push(1u8);
            put_le128(&mut out, request_id.0);
            put_body(&mut out, category, payload);
            assert(out@ =~= encoded(message@));
        },
        Message::Response { request_id, response } => {
            let (category, payload) = body_of_response(response);
            if !fits(payload.len()) {
                return Err(ProtocolError::MessageTooLarge);
            }
            out.push(2u8);
            put_le128(&mut out, request_id.0);
            put_body(&mut out, category, payload);
            assert(out@ =~= encoded(message@));
        },
        Message::Announcement { topic, message: bytes } => {
            if !fits(bytes.len()) {
                return Err(ProtocolError::MessageTooLarge);
            }
            out.push(3u8);
            out.push(
                match topic {
                    PubSubTopic::Blocks => 0u8,
                    PubSubTopic::Transactions => 1u8,
                },
            );
            put_bytes(&mut out, bytes.as_slice());
            assert(out@ =~= encoded(message@));
        },
    }
    Ok(out)
}

} // verus!
