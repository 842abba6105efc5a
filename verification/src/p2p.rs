//! The peer-to-peer synchronization manager.
//!
//! Owns the ephemeral peer registry, the PIN cache and the pinned peer
//! credentials, and makes every decision of the pairing and session
//! lifecycle. The unverified shell drives mDNS, TCP and TLS around it and
//! feeds it plain values: discovery events, observed addresses, presented
//! certificates, received frames, and the clock.

use vstd::prelude::*;
use vstd::string::*;
use crate::channel::CredentialStore;
use crate::errors::PairingError;
use crate::errors::SessionError;
use crate::pairing::ActivePin;
use crate::pairing::MAX_CLOCK;
use crate::pairing::MIN_CLOCK;
use crate::pairing::PIN_LIFETIME_SECONDS;
use crate::pairing::PinData;
use crate::pairing::PinDataV;
use crate::pairing::build_pairing_code;
use crate::pairing::decode_pairing;
use crate::pairing::decode_pairing_code;
use crate::pairing::now_timestamp;
use crate::pairing::random_pin_number;
use crate::store::ChangeLogStore;
use crate::sync::SessionPhase;
use crate::sync::SyncStateTable;
use crate::sync::SyncStatus;
use crate::sync::changeset_digest_hex;
use crate::sync::sha256_of;
use crate::util::assoc_find;
use crate::util::assoc_lookup;
use crate::util::assoc_remove_key;
use crate::util::assoc_set;
use crate::util::bytes_hex;
use crate::util::is_pin_code;
use crate::util::lemma_assoc_entry_lookup;
use crate::util::lemma_assoc_absent;
use crate::util::lemma_assoc_push;
use crate::util::lemma_assoc_some_means_entry;
use crate::util::looks_like_pin;
use crate::util::pin_string;
use crate::util::str_eq;
use crate::util::unique_keys;

verus! {

/// One known peer: its identity, where it was last seen, the certificate
/// it pairs with (empty until trust is established), and where it stands
/// in the session lifecycle.
pub struct PeerInfo {
    pub id: String,
    pub address: String,
    pub last_seen: i64,
    pub certificate: String,
    pub phase: SessionPhase,
}

/// The mathematical value of a [`PeerInfo`].
pub struct PeerInfoV {
    pub id: Seq<char>,
    pub address: Seq<char>,
    pub last_seen: int,
    pub certificate: Seq<char>,
    pub phase: SessionPhase,
}

impl View for PeerInfo {
    type V = PeerInfoV;

    open spec fn view(&self) -> PeerInfoV {
        PeerInfoV {
            id: self.id@,
            address: self.address@,
            last_seen: self.last_seen as int,
            certificate: self.certificate@,
            phase: self.phase,
        }
    }
}

/// The outcome that a pairing input determines, before any side effect: a
/// six-digit input is looked up in the PIN cache and must be unexpired and
/// dereference to a decodable payload; any other input must itself be a
/// decodable payload. On success the payload's device identifier is the
/// new peer.
pub open spec fn pairing_outcome(m: &P2PManager, input: Seq<char>, now: int) -> Result<
    Seq<char>,
    PairingError,
> {
    if is_pin_code(input) {
        match m.pin_of(input) {
            None => Err(PairingError::InvalidOrExpiredPin),
            Some(pd) => if pd.expires_at <= now {
                Err(PairingError::InvalidOrExpiredPin)
            } else {
                match decode_pairing(pd.pairing_code) {
                    None => Err(PairingError::MalformedPayload),
                    Some(f) => Ok(f.0),
                }
            },
        }
    } else {
        match decode_pairing(input) {
            None => Err(PairingError::MalformedPayload),
            Some(f) => Ok(f.0),
        }
    }
}

/// The payload a pairing input dereferences to, if any.
pub open spec fn pairing_payload_used(m: &P2PManager, input: Seq<char>) -> Option<
    (Seq<char>, Seq<char>, i64),
> {
    if is_pin_code(input) {
        match m.pin_of(input) {
            None => None,
            Some(pd) => decode_pairing(pd.pairing_code),
        }
    } else {
        decode_pairing(input)
    }
}

/// The peer-to-peer manager: this node's identity and credentials, the
/// ephemeral peer registry, and the PIN cache.
pub struct P2PManager {
    device_id: String,
    creds: CredentialStore,
    peers: Vec<(String, PeerInfo)>,
    pin_storage: Vec<(String, PinData)>,
}

impl P2PManager {
    /// This node's identifier.
    pub closed spec fn id(&self) -> Seq<char> {
        self.device_id@
    }

    /// This node's certificate in PEM form.
    pub closed spec fn own_cert(&self) -> Seq<char> {
        self.creds.own_cert()
    }

    /// The certificate pinned for a peer, if any.
    pub closed spec fn pinned_cert(&self, peer: Seq<char>) -> Option<Seq<char>> {
        self.creds.peer_cert(peer)
    }

    /// The registry entry for a peer, if any.
    pub closed spec fn peer_of(&self, peer: Seq<char>) -> Option<PeerInfoV> {
        assoc_lookup(self.peers@, peer)
    }

    /// The PIN cache entry for a PIN, if any.
    pub closed spec fn pin_of(&self, pin: Seq<char>) -> Option<PinDataV> {
        assoc_lookup(self.pin_storage@, pin)
    }

    /// The number of known peers.
    pub closed spec fn peer_count(&self) -> nat {
        self.peers@.len()
    }

    /// Well-formedness: registry and cache keys are unique, each registry
    /// entry is keyed by its peer's identifier, cached expiry times lie in
    /// the clock's range, the credential store is well formed, and this
    /// node's identifier matches it and is long enough to advertise.
    pub closed spec fn wf(&self) -> bool {
        &&& unique_keys(self.peers@)
        &&& unique_keys(self.pin_storage@)
        &&& forall|p: Seq<char>|
            (#[trigger] self.peer_of(p)) is Some ==> self.peer_of(p)->Some_0.id == p
        &&& forall|k: Seq<char>|
            (#[trigger] self.pin_of(k)) is Some ==> MIN_CLOCK as int <= self.pin_of(
                k,
            )->Some_0.expires_at <= MAX_CLOCK + PIN_LIFETIME_SECONDS
        &&& self.creds.wf()
        &&& self.device_id@ == self.creds.id()
        &&& self.device_id@.len() >= 8
    }

    /// A manager for the identity held by `creds`.
    pub fn new(creds: CredentialStore) -> (r: P2PManager)
        requires
            creds.wf(),
            creds.id().len() >= 8,
        ensures
            r.wf(),
            r.id() == creds.id(),
            r.own_cert() == creds.own_cert(),
            forall|p: Seq<char>| r.peer_of(p) is None,
            forall|k: Seq<char>| r.pin_of(k) is None,
            forall|p: Seq<char>| r.pinned_cert(p) == creds.peer_cert(p),
    {
        let device_id = creds.get_own_device_id();
        let r = P2PManager { device_id, creds, peers: Vec::new(), pin_storage: Vec::new() };
        proof {
            assert(forall|p: Seq<char>| assoc_lookup(r.peers@, p) is None);
            assert(forall|k: Seq<char>| assoc_lookup(r.pin_storage@, k) is None);
        }
        r
    }

    /// Evicts every cached PIN that is already expired at `now`.
    fn cleanup_expired_pins(&mut self, now: i64)
        requires
            old(self).wf(),
        ensures
            final(self).wf(),
            forall|k: Seq<char>|
                final(self).pin_of(k) == match old(self).pin_of(k) {
                    Some(pd) => if pd.expires_at > now {
                        Some(pd)
                    } else {
                        None
                    },
                    None => None,
                },
            final(self).peers == old(self).peers,
            final(self).creds == old(self).creds,
            final(self).device_id == old(self).device_id,
    {
        let ghost orig = self.pin_storage@;
        let mut kept: Vec<(String, PinData)> = Vec::new();
        proof {
            assert(orig.take(0) =~= Seq::<(String, PinData)>::empty());
        }
        let mut i: usize = 0;
        while i < self.pin_storage.len()
            invariant
                i <= orig.len(),
                self.pin_storage@ == orig,
                unique_keys(orig),
                unique_keys(kept@),
                forall|m: int, j: int|
                    0 <= m < kept@.len() && 0 <= j < orig.len() && (#[trigger] kept@[m]).0@ == (
                    #[trigger] orig[j]).0@ ==> j < i,
                forall|k: Seq<char>|
                    assoc_lookup(kept@, k) == match assoc_lookup(orig.take(i as int), k) {
                        Some(pd) => if pd.expires_at > now {
                            Some(pd)
                        } else {
                            None
                        },
                        None => None,
                    },
            decreases orig.len() - i,
        {
            let ghost prefix = orig.take(i as int);
            let ghost kept0 = kept@;
            proof {
                assert(orig.take(i as int + 1) =~= prefix.push(orig[i as int]));
                assert(forall|j: int| 0 <= j < i ==> prefix[j] == orig[j]);
                assert forall|j: int| 0 <= j < prefix.len() implies prefix[j].0@
                    != orig[i as int].0@ by {
                    assert(prefix[j] == orig[j]);
                }
                lemma_assoc_push(prefix, orig[i as int].0@, orig[i as int]);
                assert forall|m: int| 0 <= m < kept0.len() implies kept0[m].0@
                    != orig[i as int].0@ by {
                    if kept0[m].0@ == orig[i as int].0@ {
                        assert(m < kept0.len() && 0 <= i < orig.len() && kept0[m].0@
                            == orig[i as int].0@);
                    }
                }
                lemma_assoc_absent(kept0, orig[i as int].0@);
            }
            if self.pin_storage[i].1.expires_at > now {
                let entry = (
                    self.pin_storage[i].0.clone(),
                    PinData {
                        pairing_code: self.pin_storage[i].1.pairing_code.clone(),
                        device_id: self.pin_storage[i].1.device_id.clone(),
                        expires_at: self.pin_storage[i].1.expires_at,
                    },
                );
                proof {
                    assert(entry.0@ == orig[i as int].0@);
                    assert(entry.1@ == orig[i as int].1@);
                }
                kept.push(entry);
                proof {
                    assert(kept@ == kept0.push(entry));
                    lemma_assoc_push(kept0, entry.0@, entry);
                    assert forall|a: int, b: int|
                        0 <= a < b < kept@.len() implies kept@[a].0@ != kept@[b].0@ by {
                        if b < kept0.len() {
                            assert(kept@[a] == kept0[a] && kept@[b] == kept0[b]);
                        } else {
                            assert(kept@[a] == kept0[a] && kept@[b] == entry);
                        }
                    }
                    assert forall|m: int, j: int|
                        0 <= m < kept@.len() && 0 <= j < orig.len() && (#[trigger] kept@[m]).0@
                            == (#[trigger] orig[j]).0@ implies j < i + 1 by {
                        if m < kept0.len() {
                            assert(kept@[m] == kept0[m]);
                        } else {
                            assert(kept@[m] == entry);
                            if j != i {
                                if j < i {
                                    assert(orig[j].0@ != orig[i as int].0@);
                                } else {
                                    assert(orig[i as int].0@ != orig[j].0@);
                                }
                            }
                        }
                    }
                }
            }
            i = i + 1;
        }
        proof {
            assert(orig.take(orig.len() as int) =~= orig);
        }
        self.pin_storage = kept;
        proof {
            assert forall|k: Seq<char>| (#[trigger] self.pin_of(k)) is Some implies MIN_CLOCK
                as int <= self.pin_of(k)->Some_0.expires_at <= MAX_CLOCK
                + PIN_LIFETIME_SECONDS by {
                assert(old(self).pin_of(k) is Some);
            }
            assert forall|p: Seq<char>| (#[trigger] self.peer_of(p)) is Some implies self.peer_of(
                p,
            )->Some_0.id == p by {
                assert(self.peer_of(p) == old(self).peer_of(p));
            }
        }
    }

    /// Generates a fresh six-digit pairing PIN at clock time `now`: the
    /// cache is first purged of expired PINs, and the new PIN maps to a
    /// pairing code carrying this node's identity and certificate, valid
    /// for ten minutes.
    pub fn generate_pin_at(&mut self, now: i64) -> (r: ActivePin)
        requires
            old(self).wf(),
            MIN_CLOCK <= now <= MAX_CLOCK,
        ensures
            final(self).wf(),
            is_pin_code(r.pin@),
            r.expires_at == now + PIN_LIFETIME_SECONDS,
            r.expires_in_seconds == PIN_LIFETIME_SECONDS,
            match final(self).pin_of(r.pin@) {
                Some(pd) => {
                    &&& pd.device_id == old(self).id()
                    &&& pd.expires_at == now + PIN_LIFETIME_SECONDS
                    &&& decode_pairing(pd.pairing_code) == Some(
                        (old(self).id(), old(self).own_cert(), now),
                    )
                },
                None => false,
            },
            forall|k: Seq<char>|
                k != r.pin@ ==> final(self).pin_of(k) == match old(self).pin_of(k) {
                    Some(pd) => if pd.expires_at > now {
                        Some(pd)
                    } else {
                        None
                    },
                    None => None,
                },
            forall|p: Seq<char>| final(self).peer_of(p) == old(self).peer_of(p),
            final(self).id() == old(self).id(),
            final(self).own_cert() == old(self).own_cert(),
            forall|p: Seq<char>| final(self).pinned_cert(p) == old(self).pinned_cert(p),
    {
        self.cleanup_expired_pins(now);
        let n: u64 = random_pin_number();
        let pin: String = pin_string(n);
        let (cert, _key) = self.creds.get_own_certificate();
        let pairing_code = build_pairing_code(self.device_id.as_str(), cert.as_str(), now);
        let expires_at: i64 = now + PIN_LIFETIME_SECONDS;
        let pin_data = PinData {
            pairing_code,
            device_id: self.device_id.clone(),
            expires_at,
        };
        let ghost mid = *self;
        assoc_set(&mut self.pin_storage, pin.as_str(), pin_data);
        proof {
            assert forall|k: Seq<char>|
                k != pin@ implies #[trigger] self.pin_of(k) == match old(self).pin_of(k) {
                Some(pd) => if pd.expires_at > now {
                    Some(pd)
                } else {
                    None
                },
                None => None,
            } by {
                assert(self.pin_of(k) == mid.pin_of(k));
            }
            assert(self.pin_of(pin@) == Some(pin_data@));
            assert forall|k: Seq<char>| (#[trigger] self.pin_of(k)) is Some implies MIN_CLOCK
                as int <= self.pin_of(k)->Some_0.expires_at <= MAX_CLOCK
                + PIN_LIFETIME_SECONDS by {
                if k != pin@ {
                    assert(self.pin_of(k) == mid.pin_of(k));
                    assert(mid.pin_of(k) is Some ==> old(self).pin_of(k) == mid.pin_of(k));
                }
            }
            assert forall|p: Seq<char>| (#[trigger] self.peer_of(p)) is Some implies self.peer_of(
                p,
            )->Some_0.id == p by {
                assert(self.peer_of(p) == old(self).peer_of(p));
            }
        }
        ActivePin { pin, expires_at, expires_in_seconds: PIN_LIFETIME_SECONDS }
    }

    /// Generates a fresh PIN at the current clock time.
    pub fn generate_pin(&mut self) -> (r: ActivePin)
        requires
            old(self).wf(),
        ensures
            final(self).wf(),
            is_pin_code(r.pin@),
            r.expires_in_seconds == PIN_LIFETIME_SECONDS,
            MIN_CLOCK + PIN_LIFETIME_SECONDS <= r.expires_at <= MAX_CLOCK
                + PIN_LIFETIME_SECONDS,
            match final(self).pin_of(r.pin@) {
                Some(pd) => {
                    &&& pd.device_id == old(self).id()
                    &&& pd.expires_at == r.expires_at as int
                    &&& decode_pairing(pd.pairing_code) == Some(
                        (old(self).id(), old(self).own_cert(), (r.expires_at
                        - PIN_LIFETIME_SECONDS) as i64),
                    )
                },
                None => false,
            },
            forall|p: Seq<char>| final(self).peer_of(p) == old(self).peer_of(p),
            final(self).id() == old(self).id(),
            final(self).own_cert() == old(self).own_cert(),
            forall|p: Seq<char>| final(self).pinned_cert(p) == old(self).pinned_cert(p),
    {
        let now: i64 = now_timestamp();
        self.generate_pin_at(now)
    }

    /// The earliest-expiring PIN still valid at `now`, with its remaining
    /// lifetime; nothing when every cached PIN has expired.
    pub fn get_current_pin(&self, now: i64) -> (r: Option<ActivePin>)
        requires
            self.wf(),
            MIN_CLOCK <= now <= MAX_CLOCK,
        ensures
            match r {
                Some(ap) => {
                    &&& match self.pin_of(ap.pin@) {
                        Some(pd) => {
                            &&& pd.expires_at == ap.expires_at as int
                            &&& pd.expires_at > now
                        },
                        None => false,
                    }
                    &&& ap.expires_in_seconds == ap.expires_at - now
                    &&& forall|k: Seq<char>|
                        #[trigger] self.pin_of(k) is Some && self.pin_of(k)->Some_0.expires_at
                            > now ==> self.pin_of(k)->Some_0.expires_at >= ap.expires_at as int
                },
                None => forall|k: Seq<char>|
                    #[trigger] self.pin_of(k) is Some ==> self.pin_of(k)->Some_0.expires_at
                        <= now,
            },
    {
        let mut best: Option<usize> = None;
        let mut i: usize = 0;
        while i < self.pin_storage.len()
            invariant
                self.wf(),
                i <= self.pin_storage@.len(),
                match best {
                    Some(b) => b < i && self.pin_storage@[b as int].1@.expires_at > now
                        && forall|j: int|
                        0 <= j < i && (#[trigger] self.pin_storage@[j].1)@.expires_at > now
                            ==> self.pin_storage@[j].1@.expires_at
                            >= self.pin_storage@[b as int].1@.expires_at,
                    None => forall|j: int|
                        0 <= j < i ==> (#[trigger] self.pin_storage@[j].1)@.expires_at <= now,
                },
            decreases self.pin_storage@.len() - i,
        {
            if self.pin_storage[i].1.expires_at > now {
                match best {
                    Some(b) => {
                        if self.pin_storage[i].1.expires_at < self.pin_storage[b].1.expires_at {
                            best = Some(i);
                        }
                    },
                    None => {
                        best = Some(i);
                    },
                }
            }
            i = i + 1;
        }
        match best {
            Some(b) => {
                let expires_at: i64 = self.pin_storage[b].1.expires_at;
                proof {
                    lemma_assoc_entry_lookup(self.pin_storage@, b as int);
                    assert(self.pin_of(self.pin_storage@[b as int].0@) == Some(
                        self.pin_storage@[b as int].1@,
                    ));
                    assert(MIN_CLOCK as int <= expires_at as int <= MAX_CLOCK
                        + PIN_LIFETIME_SECONDS);
                    assert forall|k: Seq<char>|
                        #[trigger] self.pin_of(k) is Some && self.pin_of(k)->Some_0.expires_at
                            > now implies self.pin_of(k)->Some_0.expires_at >= expires_at as int by {
                        lemma_assoc_some_means_entry(self.pin_storage@, k);
                    }
                }
                Some(
                    ActivePin {
                        pin: self.pin_storage[b].0.clone(),
                        expires_at,
                        expires_in_seconds: expires_at - now,
                    },
                )
            },
            None => {
                proof {
                    assert forall|k: Seq<char>|
                        #[trigger] self.pin_of(k) is Some implies self.pin_of(
                            k,
                        )->Some_0.expires_at <= now by {
                        lemma_assoc_some_means_entry(self.pin_storage@, k);
                    }
                }
                None
            },
        }
    }

    /// Wipes the PIN cache unconditionally.
    pub fn clear_pin(&mut self)
        requires
            old(self).wf(),
        ensures
            final(self).wf(),
            forall|k: Seq<char>| final(self).pin_of(k) is None,
            forall|p: Seq<char>| final(self).peer_of(p) == old(self).peer_of(p),
            final(self).id() == old(self).id(),
            final(self).own_cert() == old(self).own_cert(),
            forall|p: Seq<char>| final(self).pinned_cert(p) == old(self).pinned_cert(p),
    {
        self.pin_storage = Vec::new();
        proof {
            assert(forall|k: Seq<char>| assoc_lookup(self.pin_storage@, k) is None);
            assert forall|p: Seq<char>| (#[trigger] self.peer_of(p)) is Some implies self.peer_of(
                p,
            )->Some_0.id == p by {
                assert(self.peer_of(p) == old(self).peer_of(p));
            }
        }
    }

    /// The long-lived pairing code of this node, issued at `now`: the
    /// payload carrying this identity and certificate, without expiry.
    pub fn generate_pairing_code_at(&self, now: i64) -> (r: String)
        ensures
            decode_pairing(r@) == Some((self.id(), self.own_cert(), now)),
    {
        let (cert, _key) = self.creds.get_own_certificate();
        build_pairing_code(self.device_id.as_str(), cert.as_str(), now)
    }

    /// The long-lived pairing code of this node, issued at the current
    /// clock time.
    pub fn generate_pairing_code(&self) -> (r: String)
        ensures
            exists|ts: i64|
                decode_pairing(r@) == Some((self.id(), self.own_cert(), ts)),
    {
        let now: i64 = now_timestamp();
        self.generate_pairing_code_at(now)
    }

    /// Records a peer by hand: pins its certificate and registers it as
    /// paired at the given address.
    pub fn add_peer_manually(
        &mut self,
        peer_id: String,
        address: String,
        certificate: String,
        now: i64,
    )
        requires
            old(self).wf(),
        ensures
            final(self).wf(),
            final(self).peer_of(peer_id@) == Some(
                PeerInfoV {
                    id: peer_id@,
                    address: address@,
                    last_seen: now as int,
                    certificate: certificate@,
                    phase: SessionPhase::Paired,
                },
            ),
            forall|p: Seq<char>|
                p != peer_id@ ==> final(self).peer_of(p) == old(self).peer_of(p),
            final(self).pinned_cert(peer_id@) == Some(certificate@),
            forall|p: Seq<char>|
                p != peer_id@ ==> final(self).pinned_cert(p) == old(self).pinned_cert(p),
            forall|k: Seq<char>| final(self).pin_of(k) == old(self).pin_of(k),
            final(self).id() == old(self).id(),
            final(self).own_cert() == old(self).own_cert(),
    {
        self.creds.store_peer_certificate(peer_id.as_str(), certificate.as_str());
        let info = PeerInfo {
            id: peer_id.clone(),
            address,
            last_seen: now,
            certificate,
            phase: SessionPhase::Paired,
        };
        let ghost mid = *self;
        assoc_set(&mut self.peers, peer_id.as_str(), info);
        proof {
            assert forall|p: Seq<char>| (#[trigger] self.peer_of(p)) is Some implies self.peer_of(
                p,
            )->Some_0.id == p by {
                if p != peer_id@ {
                    assert(self.peer_of(p) == mid.peer_of(p));
                    assert(mid.peer_of(p) == old(self).peer_of(p));
                }
            }
            assert forall|k: Seq<char>| (#[trigger] self.pin_of(k)) is Some implies MIN_CLOCK
                as int <= self.pin_of(k)->Some_0.expires_at <= MAX_CLOCK
                + PIN_LIFETIME_SECONDS by {
                assert(self.pin_of(k) == old(self).pin_of(k));
            }
        }
    }

    /// Turns a pairing input into a trusted peer. A six-digit input is a
    /// PIN: unknown or expired PINs are rejected with no side effect, and
    /// an accepted PIN is consumed atomically with the successful pairing.
    /// Any other input is read directly as a pairing code. A payload that
    /// does not decode is rejected as malformed with no side effect. On
    /// success the payload's certificate is pinned for its device
    /// identifier and the peer is registered as paired at
    /// `peer_address`.
    pub fn process_pairing_code(&mut self, input: &str, peer_address: String, now: i64) -> (r:
        Result<String, PairingError>)
        requires
            old(self).wf(),
        ensures
            final(self).wf(),
            match r {
                Ok(s) => pairing_outcome(old(self), input@, now as int) == Ok::<
                    Seq<char>,
                    PairingError,
                >(s@),
                Err(e) => pairing_outcome(old(self), input@, now as int) == Err::<
                    Seq<char>,
                    PairingError,
                >(e),
            },
            r is Err ==> *final(self) == *old(self),
            r is Ok ==> match pairing_payload_used(old(self), input@) {
                Some(f) => {
                    &&& final(self).peer_of(f.0) == Some(
                        PeerInfoV {
                            id: f.0,
                            address: peer_address@,
                            last_seen: now as int,
                            certificate: f.1,
                            phase: SessionPhase::Paired,
                        },
                    )
                    &&& forall|p: Seq<char>|
                        p != f.0 ==> final(self).peer_of(p) == old(self).peer_of(p)
                    &&& final(self).pinned_cert(f.0) == Some(f.1)
                    &&& forall|p: Seq<char>|
                        p != f.0 ==> final(self).pinned_cert(p) == old(self).pinned_cert(p)
                    &&& (is_pin_code(input@) ==> final(self).pin_of(input@) is None)
                    &&& forall|k: Seq<char>|
                        k != input@ ==> final(self).pin_of(k) == old(self).pin_of(k)
                    &&& (!is_pin_code(input@) ==> final(self).pin_of(input@) == old(
                        self,
                    ).pin_of(input@))
                },
                None => false,
            },
            final(self).id() == old(self).id(),
            final(self).own_cert() == old(self).own_cert(),
    {
        if looks_like_pin(input) {
            let found = assoc_find(&self.pin_storage, input);
            match found {
                None => Err(PairingError::InvalidOrExpiredPin),
                Some(i) => {
                    let expires_at: i64 = self.pin_storage[i].1.expires_at;
                    if expires_at <= now {
                        return Err(PairingError::InvalidOrExpiredPin);
                    }
                    let code = self.pin_storage[i].1.pairing_code.clone();
                    match decode_pairing_code(code.as_str()) {
                        None => Err(PairingError::MalformedPayload),
                        Some(payload) => {
                            let did = payload.device_id.clone();
                            self.add_peer_manually(
                                payload.device_id,
                                peer_address,
                                payload.certificate,
                                now,
                            );
                            let ghost mid2 = *self;
                            assoc_remove_key(&mut self.pin_storage, input);
                            proof {
                                assert forall|k: Seq<char>|
                                    (#[trigger] self.pin_of(k)) is Some implies MIN_CLOCK
                                    as int <= self.pin_of(k)->Some_0.expires_at <= MAX_CLOCK
                                    + PIN_LIFETIME_SECONDS by {
                                    assert(k != input@);
                                    assert(self.pin_of(k) == mid2.pin_of(k));
                                }
                                assert forall|p: Seq<char>|
                                    (#[trigger] self.peer_of(p)) is Some implies self.peer_of(
                                    p,
                                )->Some_0.id == p by {
                                    assert(self.peer_of(p) == mid2.peer_of(p));
                                }
                            }
                            Ok(did)
                        },
                    }
                },
            }
        } else {
            match decode_pairing_code(input) {
                None => Err(PairingError::MalformedPayload),
                Some(payload) => {
                    let did = payload.device_id.clone();
                    self.add_peer_manually(
                        payload.device_id,
                        peer_address,
                        payload.certificate,
                        now,
                    );
                    Ok(did)
                },
            }
        }
    }
}

/// The mDNS service type this application advertises and browses for.
pub fn service_type() -> (r: &'static str)
    ensures
        r@ == "_schuelerbeobachtung._tcp.local."@,
{
    "_schuelerbeobachtung._tcp.local."
}

/// The characters of an advertised instance name before its first dot:
/// the peer identifier it carries.
pub open spec fn instance_prefix(s: Seq<char>) -> Seq<char>
    decreases s.len(),
{
    if s.len() == 0 {
        Seq::empty()
    } else if s[0] == '.' {
        Seq::empty()
    } else {
        seq![s[0]] + instance_prefix(s.drop_first())
    }
}

/// With no dot before `i` and a dot (or the end) at `i`, the prefix is
/// the first `i` characters.
proof fn lemma_instance_prefix_take(s: Seq<char>, i: int)
    requires
        0 <= i <= s.len(),
        forall|j: int| 0 <= j < i ==> s[j] != '.',
        i == s.len() || s[i] == '.',
    ensures
        instance_prefix(s) == s.take(i),
    decreases i,
{
    if i == 0 {
        assert(s.take(0) =~= Seq::<char>::empty());
    } else {
        assert(s[0] != '.');
        assert forall|j: int| 0 <= j < i - 1 implies s.drop_first()[j] != '.' by {
            assert(s.drop_first()[j] == s[j + 1]);
        }
        assert(i - 1 == s.drop_first().len() || s.drop_first()[i - 1] == s[i]);
        lemma_instance_prefix_take(s.drop_first(), i - 1);
        assert(seq![s[0]] + s.drop_first().take(i - 1) =~= s.take(i));
    }
}

impl P2PManager {
    /// The instance name this node advertises: a fixed prefix and the
    /// first eight characters of its identifier.
    pub fn instance_name(&self) -> (r: String)
        requires
            self.wf(),
        ensures
            r@ == "device-"@ + self.id().subrange(0, 8),
    {
        let mut r = String::from_str("device-");
        r.append(self.device_id.as_str().substring_char(0, 8));
        r
    }

    /// Feeds one resolved discovery event into the registry. An empty
    /// instance prefix and this node's own advertisement are ignored; any
    /// other peer is inserted or updated at the observed address, keeping
    /// whatever certificate and phase it already had — a freshly
    /// discovered peer starts untrusted.
    pub fn on_service_resolved(&mut self, fullname: &str, address: String, now: i64)
        requires
            old(self).wf(),
        ensures
            final(self).wf(),
            ({
                let pfx = instance_prefix(fullname@);
                if pfx.len() == 0 || pfx == "device-"@ + old(self).id().subrange(0, 8) {
                    *final(self) == *old(self)
                } else {
                    &&& final(self).peer_of(pfx) == Some(
                        PeerInfoV {
                            id: pfx,
                            address: address@,
                            last_seen: now as int,
                            certificate: match old(self).peer_of(pfx) {
                                Some(pi) => pi.certificate,
                                None => Seq::empty(),
                            },
                            phase: match old(self).peer_of(pfx) {
                                Some(pi) => pi.phase,
                                None => SessionPhase::Discovered,
                            },
                        },
                    )
                    &&& forall|p: Seq<char>|
                        p != pfx ==> final(self).peer_of(p) == old(self).peer_of(p)
                    &&& forall|k: Seq<char>| final(self).pin_of(k) == old(self).pin_of(k)
                    &&& forall|p: Seq<char>|
                        final(self).pinned_cert(p) == old(self).pinned_cert(p)
                    &&& final(self).id() == old(self).id()
                    &&& final(self).own_cert() == old(self).own_cert()
                }
            }),
    {
        let n: usize = fullname.unicode_len();
        let cut: usize = match crate::util::find_char(fullname, '.') {
            Some(i) => i,
            None => n,
        };
        let pfx = fullname.substring_char(0, cut);
        proof {
            lemma_instance_prefix_take(fullname@, cut as int);
        }
        if pfx.unicode_len() == 0 {
            return ;
        }
        let own = self.instance_name();
        if str_eq(pfx, own.as_str()) {
            return ;
        }
        let (certificate, phase) = match assoc_find(&self.peers, pfx) {
            Some(i) => (self.peers[i].1.certificate.clone(), self.peers[i].1.phase),
            None => (String::new(), SessionPhase::Discovered),
        };
        proof {
            if self.peer_of(pfx@) is Some {
                assert(self.peer_of(pfx@)->Some_0.certificate == certificate@);
            }
        }
        let info = PeerInfo {
            id: String::from_str(pfx),
            address,
            last_seen: now,
            certificate,
            phase,
        };
        let ghost mid = *self;
        assoc_set(&mut self.peers, pfx, info);
        proof {
            assert forall|p: Seq<char>| (#[trigger] self.peer_of(p)) is Some implies self.peer_of(
                p,
            )->Some_0.id == p by {
                if p != pfx@ {
                    assert(self.peer_of(p) == mid.peer_of(p));
                }
            }
            assert forall|k: Seq<char>| (#[trigger] self.pin_of(k)) is Some implies MIN_CLOCK
                as int <= self.pin_of(k)->Some_0.expires_at <= MAX_CLOCK
                + PIN_LIFETIME_SECONDS by {
                assert(self.pin_of(k) == old(self).pin_of(k));
            }
        }
    }

    /// The identifiers of every known peer, for the shell's sync round.
    pub fn peer_ids(&self) -> (r: Vec<String>)
        requires
            self.wf(),
        ensures
            r@.len() == self.peer_count(),
            forall|i: int| 0 <= i < r@.len() ==> self.peer_of(#[trigger] r@[i]@) is Some,
    {
        let mut r: Vec<String> = Vec::new();
        let mut i: usize = 0;
        while i < self.peers.len()
            invariant
                self.wf(),
                i <= self.peers@.len(),
                r@.len() == i,
                forall|j: int| 0 <= j < i ==> self.peer_of(#[trigger] r@[j]@) is Some,
            decreases self.peers@.len() - i,
        {
            r.push(self.peers[i].0.clone());
            proof {
                lemma_assoc_entry_lookup(self.peers@, i as int);
            }
            i = i + 1;
        }
        r
    }

    /// The subsystem's status for the user interface: whether any peer is
    /// known; the last sync time and pending count are not tracked here.
    pub fn get_status(&self) -> (r: SyncStatus)
        ensures
            r.peer_connected == (self.peer_count() > 0),
            r.last_sync is None,
            r.pending_changes == 0,
    {
        SyncStatus {
            peer_connected: self.peers.len() > 0,
            last_sync: None,
            pending_changes: 0,
        }
    }

    /// The address of the first known peer; meaningful only when at least
    /// one peer is known.
    pub closed spec fn first_peer_address(&self) -> Seq<char> {
        self.peers@[0].1@.address
    }

    /// Pairs against the first discovered peer's address: nothing to do
    /// when no peer is known, otherwise exactly `process_pairing_code` at
    /// that address.
    pub fn pair_with_device(&mut self, pairing_code: &str, now: i64) -> (r: Option<
        Result<String, PairingError>,
    >)
        requires
            old(self).wf(),
        ensures
            final(self).wf(),
            old(self).peer_count() == 0 ==> r is None && *final(self) == *old(self),
            old(self).peer_count() > 0 ==> match r {
                Some(Ok(s)) => pairing_outcome(old(self), pairing_code@, now as int) == Ok::<
                    Seq<char>,
                    PairingError,
                >(s@),
                Some(Err(e)) => pairing_outcome(old(self), pairing_code@, now as int) == Err::<
                    Seq<char>,
                    PairingError,
                >(e) && *final(self) == *old(self),
                None => false,
            },
    {
        if self.peers.len() == 0 {
            return None;
        }
        let address = self.peers[0].1.address.clone();
        Some(self.process_pairing_code(pairing_code, address, now))
    }

    /// Moves a peer between session phases: refused when the peer is
    /// unknown or not in one of the two given start phases.
    fn set_phase(
        &mut self,
        peer_id: &str,
        from1: SessionPhase,
        from2: SessionPhase,
        to: SessionPhase,
    ) -> (r: Result<(), SessionError>)
        requires
            old(self).wf(),
        ensures
            final(self).wf(),
            match old(self).peer_of(peer_id@) {
                None => r == Err::<(), SessionError>(SessionError::UnknownPeer) && *final(self)
                    == *old(self),
                Some(pi) => if pi.phase == from1 || pi.phase == from2 {
                    &&& r is Ok
                    &&& final(self).peer_of(peer_id@) == Some(PeerInfoV { phase: to, ..pi })
                    &&& forall|p: Seq<char>|
                        p != peer_id@ ==> final(self).peer_of(p) == old(self).peer_of(p)
                    &&& forall|k: Seq<char>| final(self).pin_of(k) == old(self).pin_of(k)
                    &&& forall|p: Seq<char>|
                        final(self).pinned_cert(p) == old(self).pinned_cert(p)
                    &&& final(self).id() == old(self).id()
                    &&& final(self).own_cert() == old(self).own_cert()
                } else {
                    r == Err::<(), SessionError>(SessionError::NotEligible) && *final(self)
                        == *old(self)
                },
            },
    {
        match assoc_find(&self.peers, peer_id) {
            None => Err(SessionError::UnknownPeer),
            Some(i) => {
                let ph = self.peers[i].1.phase;
                if !(ph == from1 || ph == from2) {
                    return Err(SessionError::NotEligible);
                }
                let info = PeerInfo {
                    id: self.peers[i].1.id.clone(),
                    address: self.peers[i].1.address.clone(),
                    last_seen: self.peers[i].1.last_seen,
                    certificate: self.peers[i].1.certificate.clone(),
                    phase: to,
                };
                proof {
                    assert(self.peer_of(peer_id@) == Some(self.peers@[i as int].1@));
                    assert(info@ == PeerInfoV { phase: to, ..self.peers@[i as int].1@ });
                    assert(info@.id == peer_id@);
                }
                let ghost mid = *self;
                assoc_set(&mut self.peers, peer_id, info);
                proof {
                    assert forall|p: Seq<char>|
                        (#[trigger] self.peer_of(p)) is Some implies self.peer_of(p)->Some_0.id
                        == p by {
                        if p != peer_id@ {
                            assert(self.peer_of(p) == mid.peer_of(p));
                        }
                    }
                    assert forall|k: Seq<char>|
                        (#[trigger] self.pin_of(k)) is Some implies MIN_CLOCK as int
                        <= self.pin_of(k)->Some_0.expires_at <= MAX_CLOCK
                        + PIN_LIFETIME_SECONDS by {
                        assert(self.pin_of(k) == old(self).pin_of(k));
                    }
                }
                Ok(())
            },
        }
    }

    /// Starts a session with a peer: only a paired peer is eligible.
    pub fn begin_sync(&mut self, peer_id: &str) -> (r: Result<(), SessionError>)
        requires
            old(self).wf(),
        ensures
            final(self).wf(),
            match old(self).peer_of(peer_id@) {
                None => r == Err::<(), SessionError>(SessionError::UnknownPeer) && *final(self)
                    == *old(self),
                Some(pi) => if pi.phase == SessionPhase::Paired {
                    &&& r is Ok
                    &&& final(self).peer_of(peer_id@) == Some(
                        PeerInfoV { phase: SessionPhase::Syncing, ..pi },
                    )
                    &&& forall|p: Seq<char>|
                        p != peer_id@ ==> final(self).peer_of(p) == old(self).peer_of(p)
                    &&& forall|k: Seq<char>| final(self).pin_of(k) == old(self).pin_of(k)
                    &&& forall|p: Seq<char>|
                        final(self).pinned_cert(p) == old(self).pinned_cert(p)
                } else {
                    r == Err::<(), SessionError>(SessionError::NotEligible) && *final(self)
                        == *old(self)
                },
            },
    {
        self.set_phase(peer_id, SessionPhase::Paired, SessionPhase::Paired, SessionPhase::Syncing)
    }

    /// Ends a session with its outcome: the peer moves from syncing to
    /// synced or failed.
    pub fn finish_sync(&mut self, peer_id: &str, success: bool) -> (r: Result<(), SessionError>)
        requires
            old(self).wf(),
        ensures
            final(self).wf(),
            match old(self).peer_of(peer_id@) {
                None => r == Err::<(), SessionError>(SessionError::UnknownPeer) && *final(self)
                    == *old(self),
                Some(pi) => if pi.phase == SessionPhase::Syncing {
                    &&& r is Ok
                    &&& final(self).peer_of(peer_id@) == Some(
                        PeerInfoV {
                            phase: if success {
                                SessionPhase::Synced
                            } else {
                                SessionPhase::Failed
                            },
                            ..pi
                        },
                    )
                    &&& forall|p: Seq<char>|
                        p != peer_id@ ==> final(self).peer_of(p) == old(self).peer_of(p)
                    &&& forall|k: Seq<char>| final(self).pin_of(k) == old(self).pin_of(k)
                    &&& forall|p: Seq<char>|
                        final(self).pinned_cert(p) == old(self).pinned_cert(p)
                } else {
                    r == Err::<(), SessionError>(SessionError::NotEligible) && *final(self)
                        == *old(self)
                },
            },
    {
        let to = if success {
            SessionPhase::Synced
        } else {
            SessionPhase::Failed
        };
        self.set_phase(peer_id, SessionPhase::Syncing, SessionPhase::Syncing, to)
    }

    /// Returns a finished peer to the paired pool for the next round.
    pub fn next_round(&mut self, peer_id: &str) -> (r: Result<(), SessionError>)
        requires
            old(self).wf(),
        ensures
            final(self).wf(),
            match old(self).peer_of(peer_id@) {
                None => r == Err::<(), SessionError>(SessionError::UnknownPeer) && *final(self)
                    == *old(self),
                Some(pi) => if pi.phase == SessionPhase::Synced || pi.phase
                    == SessionPhase::Failed {
                    &&& r is Ok
                    &&& final(self).peer_of(peer_id@) == Some(
                        PeerInfoV { phase: SessionPhase::Paired, ..pi },
                    )
                    &&& forall|p: Seq<char>|
                        p != peer_id@ ==> final(self).peer_of(p) == old(self).peer_of(p)
                    &&& forall|k: Seq<char>| final(self).pin_of(k) == old(self).pin_of(k)
                    &&& forall|p: Seq<char>|
                        final(self).pinned_cert(p) == old(self).pinned_cert(p)
                } else {
                    r == Err::<(), SessionError>(SessionError::NotEligible) && *final(self)
                        == *old(self)
                },
            },
    {
        self.set_phase(peer_id, SessionPhase::Synced, SessionPhase::Failed, SessionPhase::Paired)
    }

    /// What the client handshake needs for a peer: its address and its
    /// pinned certificate in DER form. Refused when the peer is unknown or
    /// nothing usable is pinned — first contact never silently trusts.
    pub fn client_handshake_material(&self, peer_id: &str) -> (r: Result<
        (String, Vec<u8>),
        crate::errors::HandshakeError,
    >)
        requires
            self.wf(),
        ensures
            match self.peer_of(peer_id@) {
                None => r == Err::<(String, Vec<u8>), crate::errors::HandshakeError>(
                    crate::errors::HandshakeError::NoPinnedCertificate,
                ),
                Some(pi) => if pi.certificate.len() == 0 {
                    r == Err::<(String, Vec<u8>), crate::errors::HandshakeError>(
                        crate::errors::HandshakeError::NoPinnedCertificate,
                    )
                } else {
                    match crate::pairing::base64_decoded(pi.certificate) {
                        None => r == Err::<(String, Vec<u8>), crate::errors::HandshakeError>(
                            crate::errors::HandshakeError::NoPinnedCertificate,
                        ),
                        Some(der) => r matches Ok(m) && m.0@ == pi.address && m.1@ == der,
                    }
                },
            },
    {
        match assoc_find(&self.peers, peer_id) {
            None => Err(crate::errors::HandshakeError::NoPinnedCertificate),
            Some(i) => {
                proof {
                    lemma_assoc_entry_lookup(self.peers@, i as int);
                }
                if self.peers[i].1.certificate.as_str().unicode_len() == 0 {
                    return Err(crate::errors::HandshakeError::NoPinnedCertificate);
                }
                match crate::pairing::b64_decode(self.peers[i].1.certificate.as_str()) {
                    None => Err(crate::errors::HandshakeError::NoPinnedCertificate),
                    Some(der) => Ok((self.peers[i].1.address.clone(), der)),
                }
            },
        }
    }
}

impl P2PManager {
    /// Reads a peer's registry entry.
    pub fn get_peer(&self, peer_id: &str) -> (r: Option<PeerInfo>)
        ensures
            match r {
                Some(pi) => self.peer_of(peer_id@) == Some(pi@),
                None => self.peer_of(peer_id@) is None,
            },
    {
        match assoc_find(&self.peers, peer_id) {
            Some(i) => Some(
                PeerInfo {
                    id: self.peers[i].1.id.clone(),
                    address: self.peers[i].1.address.clone(),
                    last_seen: self.peers[i].1.last_seen,
                    certificate: self.peers[i].1.certificate.clone(),
                    phase: self.peers[i].1.phase,
                },
            ),
            None => None,
        }
    }

    /// Server-side trust decision for an authenticated client: pin its
    /// certificate on first use, insist on the pinned one afterwards.
    pub fn accept_client_certificate(&mut self, peer_id: &str, cert: &str) -> (r: Result<
        (),
        crate::errors::HandshakeError,
    >)
        requires
            old(self).wf(),
        ensures
            final(self).wf(),
            match old(self).pinned_cert(peer_id@) {
                None => {
                    &&& r is Ok
                    &&& forall|p: Seq<char>|
                        final(self).pinned_cert(p) == if p == peer_id@ {
                            Some(cert@)
                        } else {
                            old(self).pinned_cert(p)
                        }
                },
                Some(pinned) => {
                    &&& (r is Ok <==> pinned == cert@)
                    &&& r is Err ==> r == Err::<(), crate::errors::HandshakeError>(
                        crate::errors::HandshakeError::CertificateMismatch,
                    )
                    &&& forall|p: Seq<char>|
                        final(self).pinned_cert(p) == old(self).pinned_cert(p)
                },
            },
            forall|p: Seq<char>| final(self).peer_of(p) == old(self).peer_of(p),
            forall|k: Seq<char>| final(self).pin_of(k) == old(self).pin_of(k),
            final(self).id() == old(self).id(),
            final(self).own_cert() == old(self).own_cert(),
    {
        let r = self.creds.accept_client_certificate(peer_id, cert);
        proof {
            assert forall|p: Seq<char>| (#[trigger] self.peer_of(p)) is Some implies self.peer_of(
                p,
            )->Some_0.id == p by {
                assert(self.peer_of(p) == old(self).peer_of(p));
            }
            assert forall|k: Seq<char>| (#[trigger] self.pin_of(k)) is Some implies MIN_CLOCK
                as int <= self.pin_of(k)->Some_0.expires_at <= MAX_CLOCK
                + PIN_LIFETIME_SECONDS by {
                assert(self.pin_of(k) == old(self).pin_of(k));
            }
        }
        r
    }

    /// This node's certificate and key in PEM form, for the shell's TLS
    /// configuration.
    pub fn own_certificate_pair(&self) -> (r: (String, String))
        ensures
            r.0@ == self.own_cert(),
    {
        self.creds.get_own_certificate()
    }

    /// The certificate pinned for a peer in the credential store, if any.
    pub fn get_peer_certificate(&self, peer_id: &str) -> (r: Option<String>)
        ensures
            match r {
                Some(c) => self.pinned_cert(peer_id@) == Some(c@),
                None => self.pinned_cert(peer_id@) is None,
            },
    {
        self.creds.get_peer_certificate(peer_id)
    }
}

/// Records the outcome of one fully successful exchange, atomically with
/// respect to the bookkeeping it owns: the peer's sync row advances and
/// carries the digest of the changeset that was applied, and the store's
/// checkpoint for the peer moves to the highest stamp handed out, so the
/// next round sends only newer changes. Nothing here runs on a failed
/// exchange, which therefore leaves checkpoint and sync row at the last
/// known-good state.
pub fn record_exchange_success(
    states: &mut SyncStateTable,
    store: &mut ChangeLogStore,
    peer_id: &str,
    now: i64,
    applied: &[u8],
)
    requires
        old(states).wf(),
        old(store).wf(),
        match old(states).state_of(peer_id@) {
            Some(st) => st.last_seq < u64::MAX,
            None => true,
        },
    ensures
        final(states).wf(),
        final(store).wf(),
        final(states).state_of(peer_id@) matches Some(st) && st.last_seq == (match old(
            states,
        ).state_of(peer_id@) {
            Some(prev) => (prev.last_seq + 1) as u64,
            None => 1u64,
        }) && st.last_pull_at == now as int && st.last_push_at == now as int
            && st.changeset_digest == bytes_hex(sha256_of(applied@)),
        forall|p: Seq<char>|
            p != peer_id@ ==> final(states).state_of(p) == old(states).state_of(p),
        final(store).checkpoint(peer_id@) == old(store).seq_bound() - 1,
        forall|p: Seq<char>|
            p != peer_id@ ==> final(store).checkpoint(p) == old(store).checkpoint(p),
        final(store).group_ids() == old(store).group_ids(),
        final(store).records_map() == old(store).records_map(),
        final(store).seq_bound() == old(store).seq_bound(),
{
    let digest = changeset_digest_hex(applied);
    states.record_success(peer_id, now, digest);
    let cp: u64 = store.current_seq() - 1;
    store.set_checkpoint(peer_id, cp);
}

/// PIN expiry boundary: a PIN issued with the standard lifetime at `t0`
/// is still accepted one second before expiry and rejected as invalid or
/// expired one second after.
pub proof fn lemma_pin_expiry_boundary(m: &P2PManager, pin: Seq<char>, t0: int)
    requires
        is_pin_code(pin),
        m.pin_of(pin) is Some,
        m.pin_of(pin)->Some_0.expires_at == t0 + PIN_LIFETIME_SECONDS,
        decode_pairing(m.pin_of(pin)->Some_0.pairing_code) is Some,
    ensures
        pairing_outcome(m, pin, t0 + 599) is Ok,
        pairing_outcome(m, pin, t0 + 601) == Err::<Seq<char>, PairingError>(
            PairingError::InvalidOrExpiredPin,
        ),
{
}

/// PIN single use: once a PIN has been consumed by a successful pairing —
/// `process_pairing_code` removes it from the cache — any later attempt
/// with the same PIN is rejected as invalid or expired, at any time.
pub proof fn lemma_pin_single_use(m: &P2PManager, pin: Seq<char>, now: int)
    requires
        is_pin_code(pin),
        m.pin_of(pin) is None,
    ensures
        pairing_outcome(m, pin, now) == Err::<Seq<char>, PairingError>(
            PairingError::InvalidOrExpiredPin,
        ),
{
}

} // verus!
