//! Peer-to-peer device synchronization engine for a local-first record store.
//!
//! Two independently operated replicas of the same record store discover each
//! other on a local network, establish certificate-based trust through a
//! short-lived PIN or a long-lived pairing code, and exchange row-level
//! changes over a length-prefixed wire protocol until both converge.
//!
//! The networking itself (mDNS, TCP, TLS) is driven by an unverified shell;
//! this crate holds the decisions and data transformations of the engine:
//! pairing and PIN lifecycle, certificate pinning and trust-on-first-use,
//! message framing, the changeset codec, and the atomic merge rules of the
//! change-log store.

pub mod channel;
pub mod crypto;
pub mod errors;
pub mod frame;
pub mod gdpr;
pub mod p2p;
pub mod pairing;
pub mod store;
pub mod sync;
pub mod util;
