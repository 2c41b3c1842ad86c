//! Message queue chains.
//!
//! A message queue chain is a hash chain over the messages appended to one
//! queue. Each link commits to the previous head, to the block in which a
//! message was appended and to the hash of that message, so a recipient can
//! check that it saw every message in order by recomputing the chain from a
//! head it already trusts. Removing messages from a queue leaves its head as
//! it is.

use vstd::prelude::*;
use crate::hashing::{blake2_256, blake2_256_of};
use crate::primitives::{BlockNumber, H256};
use crate::scale::{encode_bytes, encode_link, encoded_bytes, encoded_link};

verus! {

/// The head of a chain to which nothing was appended: 32 zero bytes.
pub open spec fn zero_head() -> Seq<u8> {
    Seq::new(32, |i: int| 0u8)
}

/// The head that a chain has after `msg` is appended in block `block`.
pub open spec fn next_head(head: Option<Seq<u8>>, block: BlockNumber, msg: Seq<u8>) -> Seq<u8> {
    let prev = match head {
        Some(h) => h,
        None => zero_head(),
    };
    blake2_256(encoded_link(prev, block, blake2_256(encoded_bytes(msg))))
}

/// The head that a chain has after each of `links`, a message and the block
/// of its appending, was appended in turn.
pub open spec fn chain(head: Option<Seq<u8>>, links: Seq<(BlockNumber, Seq<u8>)>) -> Option<Seq<u8>>
    decreases links.len(),
{
    if links.len() == 0 {
        head
    } else {
        Some(next_head(chain(head, links.drop_last()), links.last().0, links.last().1))
    }
}

/// The bytes of an optional head.
pub open spec fn head_view(head: Option<H256>) -> Option<Seq<u8>> {
    match head {
        Some(h) => Some(h@),
        None => None,
    }
}

/// Appends a message to a chain and returns the new head. The encoding of the
/// message is handed in, as the caller mostly has it already.
pub(crate) fn append_encoded(head: &Option<H256>, block: BlockNumber, msg: Ghost<Seq<u8>>, encoded: &Vec<u8>) -> (new_head: H256)
    requires
        encoded@ == encoded_bytes(msg@),
    ensures
        new_head@ == next_head(head_view(*head), block, msg@),
{
    let msg_hash = blake2_256_of(encoded.as_slice());
    let link = match head {
        Some(prev) => encode_link(prev, block, &msg_hash),
        None => {
            let zero: H256 = [0u8; 32];
            assert(zero@ =~= zero_head());
            encode_link(&zero, block, &msg_hash)
        },
    };
    blake2_256_of(link.as_slice())
}

/// Appends a message to a chain and returns the new head.
pub fn append(head: &Option<H256>, block: BlockNumber, msg: &Vec<u8>) -> (new_head: H256)
    requires
        msg@.len() <= u32::MAX,
    ensures
        new_head@ == next_head(head_view(*head), block, msg@),
{
    let encoded = encode_bytes(msg);
    append_encoded(head, block, Ghost(msg@), &encoded)
}

/// The head of a chain is determined by the head it started from and by the
/// messages appended with their blocks: the same links from the same head
/// give the same head.
pub proof fn lemma_chain_determined(
    head: Option<Seq<u8>>,
    first: Seq<(BlockNumber, Seq<u8>)>,
    second: Seq<(BlockNumber, Seq<u8>)>,
)
    requires
        first.len() == second.len(),
        forall|i: int|
            0 <= i < first.len() ==> first[i].0 == second[i].0 && first[i].1 =~= second[i].1,
    ensures
        chain(head, first) == chain(head, second),
{
    assert(first =~~= second);
}

/// Appending one more link extends the chain by that link.
pub proof fn lemma_chain_push(head: Option<Seq<u8>>, links: Seq<(BlockNumber, Seq<u8>)>, block: BlockNumber, msg: Seq<u8>)
    ensures
        chain(head, links.push((block, msg))) == Some(next_head(chain(head, links), block, msg)),
{
    assert(links.push((block, msg)).drop_last() =~= links);
}

/// A chain can be resumed from any head reached on the way: appending `first`
/// and then `second` gives the head of appending both in one go.
pub proof fn lemma_chain_concat(head: Option<Seq<u8>>, first: Seq<(BlockNumber, Seq<u8>)>, second: Seq<(BlockNumber, Seq<u8>)>)
    ensures
        chain(head, first + second) == chain(chain(head, first), second),
    decreases second.len(),
{
    if second.len() == 0 {
        assert(first + second =~= first);
    } else {
        lemma_chain_concat(head, first, second.drop_last());
        assert((first + second).drop_last() =~= first + second.drop_last());
    }
}

} // verus!
