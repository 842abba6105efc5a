//! Credential storage and the trust decisions of the secure channel.
//!
//! The channel itself — TCP and the TLS handshake — runs in the unverified
//! shell. What is verified here is what the handshake must decide: a
//! client validates the server's certificate against the single pinned
//! certificate for that peer (certificate pinning, not a CA chain), and a
//! server accepting a client pins the presented certificate on first use
//! and insists on it afterwards.

use vstd::prelude::*;
use crate::errors::HandshakeError;
use crate::util::assoc_find;
use crate::util::assoc_lookup;
use crate::util::assoc_set;
use crate::util::bytes_eq;
use crate::util::str_eq;
use crate::util::unique_keys;

verus! {

/// The credentials this node holds: its own identity and certificate pair,
/// and one pinned certificate per trusted peer.
pub struct CredentialStore {
    device_id: String,
    own_cert_pem: String,
    own_key_pem: String,
    peer_certs: Vec<(String, String)>,
}

impl CredentialStore {
    /// Peer identifiers are pairwise distinct.
    pub closed spec fn wf(&self) -> bool {
        unique_keys(self.peer_certs@)
    }

    /// This node's identifier.
    pub closed spec fn id(&self) -> Seq<char> {
        self.device_id@
    }

    /// This node's certificate in PEM form.
    pub closed spec fn own_cert(&self) -> Seq<char> {
        self.own_cert_pem@
    }

    /// This node's private key in PEM form.
    pub closed spec fn own_key(&self) -> Seq<char> {
        self.own_key_pem@
    }

    /// The certificate pinned for a peer, if any.
    pub closed spec fn peer_cert(&self, peer: Seq<char>) -> Option<Seq<char>> {
        assoc_lookup(self.peer_certs@, peer)
    }

    /// A store for an identity created elsewhere: the shell obtains or
    /// generates the self-signed certificate pair and hands it in here.
    pub fn new(device_id: String, cert_pem: String, key_pem: String) -> (r: CredentialStore)
        ensures
            r.wf(),
            r.id() == device_id@,
            r.own_cert() == cert_pem@,
            r.own_key() == key_pem@,
            forall|p: Seq<char>| r.peer_cert(p) is None,
    {
        let r = CredentialStore {
            device_id,
            own_cert_pem: cert_pem,
            own_key_pem: key_pem,
            peer_certs: Vec::new(),
        };
        proof {
            assert(forall|p: Seq<char>| assoc_lookup(r.peer_certs@, p) is None);
        }
        r
    }

    /// This node's identifier.
    pub fn get_own_device_id(&self) -> (r: String)
        ensures
            r@ == self.id(),
    {
        self.device_id.clone()
    }

    /// This node's certificate and private key.
    pub fn get_own_certificate(&self) -> (r: (String, String))
        ensures
            r.0@ == self.own_cert(),
            r.1@ == self.own_key(),
    {
        (self.own_cert_pem.clone(), self.own_key_pem.clone())
    }

    /// Pins `cert` for `peer_id`, replacing any earlier pin.
    pub fn store_peer_certificate(&mut self, peer_id: &str, cert: &str)
        requires
            old(self).wf(),
        ensures
            final(self).wf(),
            final(self).id() == old(self).id(),
            final(self).own_cert() == old(self).own_cert(),
            final(self).own_key() == old(self).own_key(),
            forall|p: Seq<char>|
                final(self).peer_cert(p) == if p == peer_id@ {
                    Some(cert@)
                } else {
                    old(self).peer_cert(p)
                },
    {
        assoc_set(&mut self.peer_certs, peer_id, String::from_str(cert));
    }

    /// The certificate pinned for `peer_id`, if any.
    pub fn get_peer_certificate(&self, peer_id: &str) -> (r: Option<String>)
        ensures
            match r {
                Some(c) => self.peer_cert(peer_id@) == Some(c@),
                None => self.peer_cert(peer_id@) is None,
            },
    {
        match assoc_find(&self.peer_certs, peer_id) {
            Some(i) => Some(self.peer_certs[i].1.clone()),
            None => None,
        }
    }

    /// Server-side trust decision for a client certificate, in PEM or
    /// base64 form: pin it on first use; afterwards accept exactly the
    /// pinned certificate and refuse anything else without changing any
    /// trust state.
    pub fn accept_client_certificate(&mut self, peer_id: &str, cert: &str) -> (r: Result<
        (),
        HandshakeError,
    >)
        requires
            old(self).wf(),
        ensures
            final(self).wf(),
            match old(self).peer_cert(peer_id@) {
                None => {
                    &&& r is Ok
                    &&& forall|p: Seq<char>|
                        final(self).peer_cert(p) == if p == peer_id@ {
                            Some(cert@)
                        } else {
                            old(self).peer_cert(p)
                        }
                },
                Some(pinned) => {
                    &&& (r is Ok <==> pinned == cert@)
                    &&& r is Err ==> r == Err::<(), HandshakeError>(
                        HandshakeError::CertificateMismatch,
                    )
                    &&& *final(self) == *old(self)
                },
            },
            final(self).id() == old(self).id(),
            final(self).own_cert() == old(self).own_cert(),
            final(self).own_key() == old(self).own_key(),
    {
        match self.get_peer_certificate(peer_id) {
            None => {
                self.store_peer_certificate(peer_id, cert);
                Ok(())
            },
            Some(existing) => {
                if str_eq(existing.as_str(), cert) {
                    Ok(())
                } else {
                    Err(HandshakeError::CertificateMismatch)
                }
            },
        }
    }
}

/// Client-side certificate pinning: the connection may proceed exactly
/// when a certificate is pinned for the peer and the presented certificate
/// is byte-for-byte the pinned one. First contact with nothing pinned is
/// refused: trust is only ever established by the pairing flow or by the
/// server-side first-use decision, never silently by a connection.
pub fn check_pinned_certificate(pinned: &Option<Vec<u8>>, presented: &[u8]) -> (r: Result<
    (),
    HandshakeError,
>)
    ensures
        match pinned {
            Some(p) => if p@ == presented@ {
                r is Ok
            } else {
                r == Err::<(), HandshakeError>(HandshakeError::CertificateMismatch)
            },
            None => r == Err::<(), HandshakeError>(HandshakeError::NoPinnedCertificate),
        },
{
    match pinned {
        Some(p) => {
            if bytes_eq(p.as_slice(), presented) {
                Ok(())
            } else {
                Err(HandshakeError::CertificateMismatch)
            }
        },
        None => Err(HandshakeError::NoPinnedCertificate),
    }
}

} // verus!
