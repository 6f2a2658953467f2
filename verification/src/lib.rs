//! Application secret tree: a forward-secret key-derivation subsystem for
//! group messaging. A group-wide application secret seeds a lazily expanded
//! binary tree of node secrets; each sender's leaf seeds a per-sender ratchet
//! that produces one (key, nonce) pair per message generation, within bounded
//! out-of-order and forward windows.

use vstd::prelude::*;

pub mod aead;
pub mod codec;
pub mod kdf;
pub mod astree;
pub mod laws;
pub mod ratchet;
pub mod treemath;

pub use aead::{AEADKey, ApplicationSecrets, Nonce};
pub use astree::ASTree;
pub use codec::CodecError;
pub use kdf::CipherSuite;
pub use ratchet::SenderRatchet;

verus! {

/// Number of recent chain secrets a sender ratchet keeps; a request more
/// than this far behind the current generation is rejected.
pub const OUT_OF_ORDER_TOLERANCE: u32 = 5;

/// A request more than this far ahead of the current generation is rejected.
pub const MAXIMUM_FORWARD_DISTANCE: u32 = 1000;

/// Errors surfaced by `get_secret`.
#[derive(Debug, PartialEq)]
pub enum ASError {
    TooDistantInThePast,
    TooDistantInTheFuture,
    IndexOutOfBounds,
}

/// An index into the sender roster; leaf-space, not node-space.
#[derive(Clone, Copy, Debug, PartialEq, Eq, Structural)]
pub struct RosterIndex {
    pub value: u32,
}

impl RosterIndex {
    /// The index as a plain integer.
    pub fn as_u32(&self) -> (r: u32)
        ensures
            r == self.value,
    {
        self.value
    }

    /// The index as a machine-size integer.
    pub fn as_usize(&self) -> (r: usize)
        ensures
            r == self.value,
    {
        self.value as usize
    }
}

impl From<u32> for RosterIndex {
    /// Wraps a plain integer as a roster index.
    fn from(value: u32) -> (r: RosterIndex)
        ensures
            r.value == value,
    {
        RosterIndex { value }
    }
}

impl vstd::std_specs::convert::FromSpecImpl<u32> for RosterIndex {
    open spec fn obeys_from_spec() -> bool {
        true
    }

    open spec fn from_spec(value: u32) -> RosterIndex {
        RosterIndex { value }
    }
}

} // verus!
