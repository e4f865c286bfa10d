use vstd::prelude::*;

pub mod bytes;
pub mod curve;
pub mod params;
pub mod container;
pub mod codec;
pub mod ring;
pub mod api;

pub use api::{
    Secp256k1,
    Generator,
    PedersenCommitment,
    Opening,
    Range,
    Signing,
    Verification,
    All,
    SignOnly,
    VerifyOnly,
};
pub use container::{RangeProof, ProofInfo};

verus! {

/// Errors reported by range-proof construction, verification and rewind.
#[derive(Clone, Copy, Debug, PartialEq, Eq, Structural)]
pub enum Error {
    /// Signing-time parameter violation or failure to build a valid ring set.
    CannotMakeRangeProof,
    /// Malformed proof bytes, or a proof that fails the structural or
    /// cryptographic checks of verification or rewind.
    InvalidRangeProof,
    /// Recovered blinding-factor bytes do not form a valid scalar.
    KeyError,
}

} // verus!
