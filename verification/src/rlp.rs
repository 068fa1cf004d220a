//! The RLP forms a trie node is made of, and the calls that read and measure them.

use vstd::prelude::*;

verus! {

/// First byte of a string of no bytes, which also offsets the length of a short string.
pub const EMPTY_STRING_CODE: u8 = 0x80;

/// First byte of a list of no items, which also offsets the length of a short list.
pub const EMPTY_LIST_CODE: u8 = 0xc0;

/// What refuses a malformed encoding.
#[verifier::external_type_specification]
pub struct ExRlpError(alloy_rlp::Error);

/// The number a big-endian byte string writes.
pub open spec fn be_value(bytes: Seq<u8>) -> nat
    decreases bytes.len(),
{
    if bytes.len() == 0 {
        0
    } else {
        be_value(bytes.drop_last()) * 256 + bytes.last() as nat
    }
}

/// The shortest big-endian byte string that writes `value`.
pub open spec fn be_bytes(value: nat) -> Seq<u8>
    decreases value,
{
    if value == 0 {
        Seq::empty()
    } else {
        be_bytes(value / 256).push((value % 256) as u8)
    }
}

/// The header of `payload_length` bytes, whose kind `base_code` tells.
pub open spec fn rlp_header(base_code: u8, payload_length: nat) -> Seq<u8> {
    if payload_length < 56 {
        seq![(base_code + payload_length) as u8]
    } else {
        seq![(base_code + 55 + be_bytes(payload_length).len()) as u8] + be_bytes(payload_length)
    }
}

/// A byte string as an RLP item, which a single low byte is by itself.
pub open spec fn rlp_string(bytes: Seq<u8>) -> Seq<u8> {
    if bytes.len() == 1 && bytes[0] < EMPTY_STRING_CODE {
        bytes
    } else {
        rlp_header(EMPTY_STRING_CODE, bytes.len()) + bytes
    }
}

/// A list whose items are written one after another in `payload`.
pub open spec fn rlp_list(payload: Seq<u8>) -> Seq<u8> {
    rlp_header(EMPTY_LIST_CODE, payload.len()) + payload
}

/// Bytes the header of a payload occupies.
pub open spec fn header_len(payload_length: nat) -> nat {
    if payload_length < 56 {
        1
    } else {
        1 + be_bytes(payload_length).len()
    }
}

/// What the front of an encoding says of the item it opens.
pub struct HeaderView {
    /// Whether the item is a list.
    pub list: bool,
    /// Bytes the payload takes.
    pub payload_length: nat,
    /// Bytes ahead of the payload.
    pub skipped: nat,
}

/// A header of `skipped` bytes that announces `payload_length` more, where `buf` holds them.
pub open spec fn announced(
    buf: Seq<u8>,
    list: bool,
    payload_length: nat,
    skipped: nat,
) -> Result<HeaderView, alloy_rlp::Error> {
    if buf.len() < skipped + payload_length {
        Err(alloy_rlp::Error::InputTooShort)
    } else {
        Ok(HeaderView { list, payload_length, skipped })
    }
}

/// A header whose length takes `size` bytes of its own.
pub open spec fn long_header(buf: Seq<u8>, list: bool, size: nat) -> Result<
    HeaderView,
    alloy_rlp::Error,
> {
    if buf.len() < 1 + size {
        Err(alloy_rlp::Error::InputTooShort)
    } else if buf[1] == 0 {
        Err(alloy_rlp::Error::LeadingZero)
    } else {
        let payload_length = be_value(buf.subrange(1, 1 + size as int));
        if payload_length > usize::MAX {
            Err(alloy_rlp::Error::Custom("Input too big"))
        } else if payload_length < 56 {
            Err(alloy_rlp::Error::NonCanonicalSize)
        } else {
            announced(buf, list, payload_length, 1 + size)
        }
    }
}

/// The header at the front of `buf`.
pub open spec fn header_of(buf: Seq<u8>) -> Result<HeaderView, alloy_rlp::Error> {
    if buf.len() == 0 {
        Err(alloy_rlp::Error::InputTooShort)
    } else if buf[0] < 0x80 {
        announced(buf, false, 1, 0)
    } else if buf[0] == 0x81 && buf.len() > 1 && buf[1] < 0x80 {
        Err(alloy_rlp::Error::NonCanonicalSingleByte)
    } else if buf[0] < 0xb8 {
        announced(buf, false, (buf[0] - 0x80) as nat, 1)
    } else if buf[0] < 0xc0 {
        long_header(buf, false, (buf[0] - 0xb7) as nat)
    } else if buf[0] < 0xf8 {
        announced(buf, true, (buf[0] - 0xc0) as nat, 1)
    } else {
        long_header(buf, true, (buf[0] - 0xf7) as nat)
    }
}

/// The payload of the string `buf` opens with.
pub open spec fn string_of(buf: Seq<u8>) -> Result<Seq<u8>, alloy_rlp::Error> {
    match header_of(buf) {
        Err(error) => Err(error),
        Ok(header) => if header.list {
            Err(alloy_rlp::Error::UnexpectedList)
        } else {
            Ok(buf.subrange(header.skipped as int, (header.skipped + header.payload_length) as int))
        },
    }
}

/// What [`decode_header`] hands back is `header_of` the bytes it was handed, and the bytes behind
/// the header.
pub open spec fn reads_header(
    buf: Seq<u8>,
    decoded: Result<(bool, usize, &[u8]), alloy_rlp::Error>,
) -> bool {
    match (header_of(buf), decoded) {
        (Ok(header), Ok((list, payload_length, rest))) => {
            &&& list == header.list
            &&& payload_length == header.payload_length
            &&& rest@ == buf.subrange(header.skipped as int, buf.len() as int)
        },
        (Err(expected), Err(error)) => error == expected,
        _ => false,
    }
}

/// What [`decode_string`] hands back is `string_of` the bytes it was handed.
pub open spec fn reads_string(buf: Seq<u8>, decoded: Result<&[u8], alloy_rlp::Error>) -> bool {
    match (string_of(buf), decoded) {
        (Ok(payload), Ok(bytes)) => bytes@ == payload,
        (Err(expected), Err(error)) => error == expected,
        _ => false,
    }
}

/// `alloy_rlp::Header::decode`, which reads the header at the front of `buf` and leaves the buffer
/// on the payload. It is taken to accept, refuse and measure as [`header_of`] states.
#[verifier::external_body]
pub(crate) fn decode_header<'a>(buf: &'a [u8]) -> (decoded: Result<
    (bool, usize, &'a [u8]),
    alloy_rlp::Error,
>)
    ensures
        reads_header(buf@, decoded),
{
    let mut rest = buf;
    let header = alloy_rlp::Header::decode(&mut rest)?;
    Ok((header.list, header.payload_length, rest))
}

/// `alloy_rlp::Header::decode_bytes` asked for a string, which hands out the payload of the string
/// at the front of `buf`. It is taken to answer as [`string_of`] states.
#[verifier::external_body]
pub(crate) fn decode_string<'a>(buf: &'a [u8]) -> (decoded: Result<&'a [u8], alloy_rlp::Error>)
    ensures
        reads_string(buf@, decoded),
{
    let mut rest = buf;
    alloy_rlp::Header::decode_bytes(&mut rest, false)
}

/// `alloy_rlp::length_of_length`, the bytes the header of a payload of that length occupies.
pub assume_specification[ alloy_rlp::length_of_length ](payload_length: usize) -> (len: usize)
    ensures
        len == header_len(payload_length as nat),
;

/// `alloy_rlp::Encodable::length` of a byte string, which is the length it encodes to.
#[verifier::external_body]
pub(crate) fn string_length(bytes: &[u8]) -> (len: usize)
    requires
        bytes@.len() + 9 <= usize::MAX,
    ensures
        len == rlp_string(bytes@).len(),
{
    alloy_rlp::Encodable::length(bytes)
}

} // verus!
