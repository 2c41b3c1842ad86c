//! Identifiers and message envelopes shared by the three messaging disciplines.

use vstd::prelude::*;
use vstd::std_specs::convert::FromSpecImpl;

verus! {

/// Number of a relay-chain block.
pub type BlockNumber = u32;

/// Number of a session; the unit in which pending channel requests age.
pub type SessionIndex = u32;

/// An amount of currency held as a deposit.
pub type Balance = u128;

/// Abstract cost unit by which the host bounds the work done in one block.
pub type Weight = u64;

/// Output of the 256-bit hash function.
pub type H256 = [u8; 32];

/// A message sent by a para to the relay chain.
pub type UpwardMessage = Vec<u8>;

/// A message sent by the relay chain to a para.
pub type DownwardMessage = Vec<u8>;

/// Identifier of a para. Paras are ordered by the number inside.
#[derive(Clone, Copy, Debug, PartialEq, Eq, Structural, PartialOrd, Ord, Hash)]
pub struct ParaId(pub u32);

impl From<u32> for ParaId {
    fn from(id: u32) -> (para: ParaId) {
        ParaId(id)
    }
}

impl FromSpecImpl<u32> for ParaId {
    open spec fn obeys_from_spec() -> bool {
        true
    }

    open spec fn from_spec(id: u32) -> ParaId {
        ParaId(id)
    }
}

/// A downward message as it waits in the queue of its recipient.
#[derive(Clone, Debug)]
pub struct InboundDownwardMessage {
    /// The relay-chain block in which the message was queued.
    pub sent_at: BlockNumber,
    /// The payload.
    pub msg: DownwardMessage,
}

/// What an [`InboundDownwardMessage`] holds, as mathematical values.
pub struct InboundDownwardMessageView {
    pub sent_at: BlockNumber,
    pub msg: Seq<u8>,
}

impl View for InboundDownwardMessage {
    type V = InboundDownwardMessageView;

    open spec fn view(&self) -> InboundDownwardMessageView {
        InboundDownwardMessageView { sent_at: self.sent_at, msg: self.msg@ }
    }
}

/// Identifier of a channel between two paras: messages go from the sender to
/// the recipient. Channels are ordered by sender, then by recipient.
#[derive(Clone, Copy, Debug, PartialEq, Eq, Structural, PartialOrd, Ord, Hash)]
pub struct HrmpChannelId {
    /// The para that sends over the channel.
    pub sender: ParaId,
    /// The para that receives over the channel.
    pub recipient: ParaId,
}

/// A message of one para to another as it waits in the channel.
#[derive(Clone, Debug)]
pub struct InboundHrmpMessage {
    /// The relay-chain block in which the message was sent.
    pub sent_at: BlockNumber,
    /// The payload.
    pub data: Vec<u8>,
}

/// What an [`InboundHrmpMessage`] holds, as mathematical values.
pub struct InboundHrmpMessageView {
    pub sent_at: BlockNumber,
    pub data: Seq<u8>,
}

impl View for InboundHrmpMessage {
    type V = InboundHrmpMessageView;

    open spec fn view(&self) -> InboundHrmpMessageView {
        InboundHrmpMessageView { sent_at: self.sent_at, data: self.data@ }
    }
}

} // verus!
