//! The cost of storage access, as the host meters it.

use vstd::prelude::*;
use crate::primitives::Weight;

verus! {

/// The weight of one storage read and of one storage write.
#[derive(Clone, Copy, Debug, PartialEq, Eq, Structural)]
pub struct RuntimeDbWeight {
    pub read: Weight,
    pub write: Weight,
}

/// The product of two weights, or the largest weight where the product is
/// larger than that.
pub open spec fn saturating_mul(a: Weight, b: Weight) -> Weight {
    if a * b > Weight::MAX {
        Weight::MAX
    } else {
        (a * b) as Weight
    }
}

/// The sum of two weights, or the largest weight where the sum is larger
/// than that.
pub open spec fn saturating_add(a: Weight, b: Weight) -> Weight {
    if a + b > Weight::MAX {
        Weight::MAX
    } else {
        (a + b) as Weight
    }
}

impl RuntimeDbWeight {
    /// The weight of `reads` reads and `writes` writes, saturating.
    pub open spec fn spec_reads_writes(self, reads: u64, writes: u64) -> Weight {
        saturating_add(saturating_mul(self.read, reads), saturating_mul(self.write, writes))
    }
}

/// Calls `frame_support::weights::RuntimeDbWeight::reads_writes`, which
/// multiplies the cost of a read by the number of reads and the cost of a
/// write by the number of writes and adds the two, each step saturating, and
/// reports the sum as the time part of a weight.
#[verifier::external_body]
pub(crate) fn reads_writes(db: RuntimeDbWeight, reads: u64, writes: u64) -> (weight: Weight)
    ensures
        weight == db.spec_reads_writes(reads, writes),
{
    let outside = frame_support::weights::RuntimeDbWeight { read: db.read, write: db.write };
    outside.reads_writes(reads, writes).ref_time()
}

} // verus!
