//! Router of cross-chain messages for a relay chain and its paras.
//!
//! The router passes messages in three ways: downward, from the relay chain
//! to a para ([`dmp`]); upward, from a para to the relay chain, where the
//! messages are dispatched within a weight budget per block ([`ump`]); and
//! horizontally, from para to para over channels that the relay chain
//! stores ([`hrmp`]). Every queue that a recipient reads is covered by a
//! message queue chain ([`mqc`]), by which the recipient can tell that it has
//! seen every message in order.
//!
//! [`router::Module`] holds the state of all three and offers the hooks that
//! the host calls once per block and at the end of a session. Each part of
//! the state has a view, a plain mathematical value; the contracts say how
//! an operation changes the view, and the proof functions next to the views
//! state the invariants that every operation keeps.

pub mod configuration;
pub mod dmp;
pub mod error;
pub mod hashing;
pub mod hrmp;
pub mod mqc;
pub mod para_list;
pub mod primitives;
pub mod router;
pub mod scale;
pub mod ump;
pub mod weights;
pub mod xcm;

pub use crate::router::{Module, Trait};
pub use crate::xcm::{estimate_weight, execute, Xcm};
