//! The wire format of a frame: a four-byte little-endian length, the payload,
//! and filler bytes up to the next multiple of the sector size.

use vstd::prelude::*;
use crate::align::padding_len;

verus! {

/// The number that the first four bytes spell, least significant byte first.
pub open spec fn le_u32(bytes: Seq<u8>) -> int
    recommends
        bytes.len() >= 4,
{
    bytes[0] + 256 * bytes[1] + 65536 * bytes[2] + 16777216 * bytes[3]
}

/// The four bytes that spell `n`, least significant byte first.
pub open spec fn le_bytes(n: int) -> Seq<u8>
    recommends
        0 <= n <= u32::MAX,
{
    seq![
        (n % 256) as u8,
        (n / 256 % 256) as u8,
        (n / 65536 % 256) as u8,
        (n / 16777216 % 256) as u8,
    ]
}

/// Reading back the four bytes of a length gives the length.
pub proof fn lemma_le_u32_of_le_bytes(n: int)
    requires
        0 <= n <= u32::MAX,
    ensures
        le_bytes(n).len() == 4,
        le_u32(le_bytes(n)) == n,
{
    let d1 = n / 256;
    let d2 = n / 65536;
    let d3 = n / 16777216;
    assert(d2 == d1 / 256);
    assert(d3 == d2 / 256);
    assert(d3 < 256);
    assert(n == n % 256 + 256 * d1);
    assert(d1 == d1 % 256 + 256 * d2);
    assert(d2 == d2 % 256 + 256 * d3);
}

/// Spelling the length that four bytes hold gives those four bytes.
pub proof fn lemma_le_bytes_of_le_u32(bytes: Seq<u8>)
    requires
        bytes.len() >= 4,
    ensures
        0 <= le_u32(bytes) <= u32::MAX,
        le_bytes(le_u32(bytes)) == bytes.subrange(0, 4),
{
    let b0 = bytes[0] as int;
    let b1 = bytes[1] as int;
    let b2 = bytes[2] as int;
    let b3 = bytes[3] as int;
    let n = le_u32(bytes);
    assert(n == b0 + 256 * (b1 + 256 * (b2 + 256 * b3)));
    assert(n % 256 == b0 && n / 256 == b1 + 256 * (b2 + 256 * b3));
    let d1 = n / 256;
    assert(d1 % 256 == b1 && d1 / 256 == b2 + 256 * b3);
    let d2 = d1 / 256;
    assert(d2 % 256 == b2 && d2 / 256 == b3);
    assert(n / 65536 == d2);
    assert(n / 16777216 == b3);
    assert(le_bytes(n) =~= bytes.subrange(0, 4));
}

/// Whether `bytes` holds a length prefix and the whole payload it announces,
/// and nothing beyond.
pub open spec fn is_complete(bytes: Seq<u8>) -> bool {
    bytes.len() >= 4 && bytes.len() == 4 + le_u32(bytes)
}

/// How many bytes are missing until the part being read, the prefix or the
/// payload, is whole.
pub open spec fn missing(bytes: Seq<u8>) -> int {
    if bytes.len() < 4 {
        4 - bytes.len()
    } else {
        4 + le_u32(bytes) - bytes.len()
    }
}

/// One frame as it lies on the medium: prefix, payload, then `filler`.
pub open spec fn frame_with(payload: Seq<u8>, filler: Seq<u8>) -> Seq<u8>
    recommends
        payload.len() <= u32::MAX,
{
    le_bytes(payload.len() as int) + payload + filler
}

/// Whether `filler` has the length that aligns a frame with this payload.
pub open spec fn fills(payload: Seq<u8>, filler: Seq<u8>, sector_size: int) -> bool {
    filler.len() == padding_len(4 + payload.len() as int, sector_size)
}

/// One frame with zero bytes as filler.
pub open spec fn frame(payload: Seq<u8>, sector_size: int) -> Seq<u8>
    recommends
        payload.len() <= u32::MAX,
        sector_size > 0,
{
    frame_with(
        payload,
        Seq::new(padding_len(4 + payload.len() as int, sector_size) as nat, |i: int| 0u8),
    )
}

/// The frames of `messages`, one after the other.
pub open spec fn encode(messages: Seq<Seq<u8>>, sector_size: int) -> Seq<u8>
    decreases messages.len(),
{
    if messages.len() == 0 {
        Seq::empty()
    } else {
        frame(messages[0], sector_size) + encode(messages.skip(1), sector_size)
    }
}

/// The payloads of the frames that `bytes` holds in full, in order. A frame
/// whose prefix or payload is cut off ends the sequence, and so does the end
/// of `bytes`; filler that is cut off does not. (With a positive sector size
/// a frame never ends before its fourth byte; the test on `end` lets the
/// definition stand for any sector size.)
pub open spec fn decode(bytes: Seq<u8>, sector_size: int) -> Seq<Seq<u8>>
    recommends
        sector_size > 0,
    decreases bytes.len(),
{
    if bytes.len() < 4 || bytes.len() < 4 + le_u32(bytes) {
        Seq::empty()
    } else {
        let len = le_u32(bytes);
        let end = 4 + len + padding_len(4 + len, sector_size);
        let rest = if end <= bytes.len() && end >= 4 {
            bytes.skip(end)
        } else {
            Seq::empty()
        };
        seq![bytes.subrange(4, 4 + len)] + decode(rest, sector_size)
    }
}

/// The length that the four bytes of `prefix` spell.
pub fn decode_length(prefix: &[u8]) -> (length: u32)
    requires
        prefix@.len() == 4,
    ensures
        length == le_u32(prefix@),
{
    let b0: u32 = prefix[0] as u32;
    let b1: u32 = prefix[1] as u32;
    let b2: u32 = prefix[2] as u32;
    let b3: u32 = prefix[3] as u32;
    b0 + 256 * b1 + 65536 * b2 + 16777216 * b3
}

} // verus!
