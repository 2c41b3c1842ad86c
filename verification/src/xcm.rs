//! The cross-consensus message format understood by the upward dispatcher.
//!
//! No instruction is defined yet, so no byte string decodes to a message and
//! nothing can be executed.

use vstd::prelude::*;
use vstd::pervasive::unreached;
use core::convert::Infallible;
use crate::primitives::Weight;

verus! {

/// A cross-consensus message. The format has no instruction so far, so the
/// type has no value.
pub struct Xcm {
    never: Infallible,
}

impl Xcm {
    /// No value of this type exists.
    #[verifier::type_invariant]
    spec fn uninhabited(self) -> bool {
        false
    }

    /// Decodes an upward message. Every input is refused, since the format
    /// defines no instruction.
    pub fn decode(input: &[u8]) -> (decoded: Option<Xcm>)
        ensures
            decoded.is_none(),
    {
        None
    }
}

/// Executes a message and reports the weight consumed, whether it succeeded
/// (`Ok`) or failed (`Err`). As long as the format has no instruction there
/// is no message to call this with.
pub fn execute(xcm: Xcm) -> (outcome: Result<Weight, Weight>) {
    proof {
        use_type_invariant(&xcm);
    }
    unreached()
}

/// The weight that executing the message is expected to take. As long as the
/// format has no instruction there is no message to call this with.
pub fn estimate_weight(xcm: &Xcm) -> (weight: Weight) {
    proof {
        use_type_invariant(xcm);
    }
    unreached()
}

} // verus!
