//! The reasons for which the router refuses a request.

use vstd::prelude::*;

verus! {

/// Why a request was refused. A refused request leaves the state as it was.
#[derive(Clone, Copy, Debug, PartialEq, Eq, Structural)]
pub enum Error {
    /// The encoded downward message is larger than the configuration allows.
    DownwardMessageTooLarge,
    /// The channel asked for is open or asked for already, the sender has
    /// as many requests pending as it may, or the limits asked for are
    /// above those of the configuration.
    HrmpOpenRequestInvalid,
    /// There is no unconfirmed request for the channel, or the recipient has
    /// confirmed as many requests as it may.
    HrmpAcceptInvalid,
    /// The channel is not open, the message is larger than the channel
    /// allows, or the channel is full.
    HrmpMessageRejected,
    /// The watermark lies before the last one or after the current block, or
    /// on a block without a message although messages up to it wait.
    HrmpWatermarkInvalid,
}

} // verus!
