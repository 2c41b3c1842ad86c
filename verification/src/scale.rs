//! The SCALE encoding of the values that enter a hash or a size limit.

use vstd::prelude::*;
use crate::primitives::{BlockNumber, H256};

verus! {

/// The two bytes of `x`, least significant first.
pub open spec fn u16_le(x: u16) -> Seq<u8> {
    seq![(x % 256) as u8, (x / 256) as u8]
}

/// The four bytes of `x`, least significant first.
pub open spec fn u32_le(x: u32) -> Seq<u8> {
    seq![
        (x % 256) as u8,
        (x / 256 % 256) as u8,
        (x / 65536 % 256) as u8,
        (x / 16777216) as u8,
    ]
}

/// The compact encoding of a length: one, two or four bytes whose two lowest
/// bits tell the width, or a marker byte followed by the full four bytes.
pub open spec fn compact_u32(n: u32) -> Seq<u8> {
    if n < 0x40 {
        seq![(4 * n) as u8]
    } else if n < 0x4000 {
        u16_le((4 * n + 1) as u16)
    } else if n < 0x4000_0000 {
        u32_le((4 * n + 2) as u32)
    } else {
        seq![3u8] + u32_le(n)
    }
}

/// Number of bytes that the compact encoding of the length `n` takes.
pub open spec fn compact_width(n: nat) -> nat {
    if n < 0x40 {
        1
    } else if n < 0x4000 {
        2
    } else if n < 0x4000_0000 {
        4
    } else {
        5
    }
}

/// The encoding of a byte string: its length in compact form, then the bytes.
pub open spec fn encoded_bytes(bytes: Seq<u8>) -> Seq<u8>
    recommends
        bytes.len() <= u32::MAX,
{
    compact_u32(bytes.len() as u32) + bytes
}

/// Number of bytes in the encoding of a byte string of `n` bytes.
pub open spec fn encoded_len(n: nat) -> nat {
    compact_width(n) + n
}

/// The encoding of one link of a message queue chain: the previous head, the
/// block number in four little-endian bytes, and the hash of the message.
pub open spec fn encoded_link(prev: Seq<u8>, block: BlockNumber, msg_hash: Seq<u8>) -> Seq<u8> {
    prev + u32_le(block) + msg_hash
}

/// The length of an encoded byte string is the length of the bytes plus the
/// width of the prefix.
pub proof fn lemma_encoded_bytes_len(bytes: Seq<u8>)
    requires
        bytes.len() <= u32::MAX,
    ensures
        encoded_bytes(bytes).len() == encoded_len(bytes.len()),
{
}

/// Calls `parity_scale_codec::Encode::encode` on a byte vector. The codec
/// writes the length as a compact `u32` and then the bytes as they are; it
/// refuses a collection of more than `u32::MAX` items.
#[verifier::external_body]
pub(crate) fn encode_bytes(bytes: &Vec<u8>) -> (out: Vec<u8>)
    requires
        bytes@.len() <= u32::MAX,
    ensures
        out@ == encoded_bytes(bytes@),
{
    parity_scale_codec::Encode::encode(bytes)
}

/// Calls `parity_scale_codec::Encode::encode` on the tuple of a previous head,
/// a block number and a message hash. The codec writes the members of a
/// tuple one after the other: a byte array as its bytes, a `u32` as four
/// little-endian bytes.
#[verifier::external_body]
pub(crate) fn encode_link(prev: &H256, block: BlockNumber, msg_hash: &H256) -> (out: Vec<u8>)
    ensures
        out@ == encoded_link(prev@, block, msg_hash@),
{
    parity_scale_codec::Encode::encode(&(*prev, block, *msg_hash))
}

} // verus!
