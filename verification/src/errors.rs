//! Error taxonomy of the synchronization engine.
//!
//! Every per-peer session error is recoverable and isolated by the
//! orchestrator; only a discovery bind failure is escalated by the shell
//! that drives the network.

use vstd::prelude::*;

verus! {

/// A pairing attempt was rejected.
#[derive(Clone, Copy, Debug, PartialEq, Eq, Structural)]
pub enum PairingError {
    /// The 6-digit PIN is unknown or past its expiry; no side effects.
    InvalidOrExpiredPin,
    /// The input was not a decodable pairing payload; no side effects.
    MalformedPayload,
}

/// A secure-channel handshake was refused; no trust state is changed.
#[derive(Clone, Copy, Debug, PartialEq, Eq, Structural)]
pub enum HandshakeError {
    /// No certificate is pinned for the peer, so nothing can be verified.
    NoPinnedCertificate,
    /// The presented certificate differs from the pinned one.
    CertificateMismatch,
}

/// Discovery could not be brought up; fatal to the discovery subsystem
/// and reported to its caller, but never to the rest of the engine.
#[derive(Clone, Copy, Debug, PartialEq, Eq, Structural)]
pub enum DiscoveryError {
    /// The advertising daemon could not be created or bound.
    BindFailed,
    /// Registering or browsing the service failed.
    AdvertiseFailed,
}

/// The framed wire stream could not be read as a message.
#[derive(Clone, Copy, Debug, PartialEq, Eq, Structural)]
pub enum ProtocolFramingError {
    /// The stream ended before the announced byte count arrived.
    Truncated,
    /// The length prefix exceeds the configured maximum.
    LengthTooLarge,
}

/// Applying an incoming changeset failed; the local store is unchanged.
#[derive(Clone, Copy, Debug, PartialEq, Eq, Structural)]
pub enum MergeError {
    /// An edit refers to a group row that exists neither in the store nor
    /// in the changeset itself.
    ConstraintViolation,
    /// The changeset bytes do not parse as a changeset.
    UnreadableChangeset,
}

/// A session transition was requested for a peer that cannot take it.
#[derive(Clone, Copy, Debug, PartialEq, Eq, Structural)]
pub enum SessionError {
    /// No peer with that identifier is known.
    UnknownPeer,
    /// The peer is not in the phase the transition starts from.
    NotEligible,
}

} // verus!
