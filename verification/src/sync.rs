//! Durable per-peer sync bookkeeping and the session phase machine.
//!
//! One [`SyncState`] row per peer records the outcome of the most recent
//! fully successful exchange; it is written atomically and only after
//! success, so a failed session leaves the previous checkpoint intact.
//! The phase machine gates sessions: a peer is eligible for syncing only
//! once trust is established.

use vstd::prelude::*;
use crate::util::assoc_find;
use crate::util::assoc_lookup;
use crate::util::assoc_set;
use crate::util::bytes_hex;
use crate::util::bytes_to_hex;
use crate::util::unique_keys;

verus! {

/// What the digest of a changeset is: the 32 bytes of its SHA-256.
pub uninterp spec fn sha256_of(b: Seq<u8>) -> Seq<u8>;

/// Relies on sha2's `Sha256`: the digest is a function of the bytes alone
/// and is 32 bytes long.
#[verifier::external_body]
fn sha256_digest(b: &[u8]) -> (r: Vec<u8>)
    ensures
        r@ == sha256_of(b@),
        r@.len() == 32,
{
    let mut hasher = <sha2::Sha256 as sha2::Digest>::new();
    sha2::Digest::update(&mut hasher, b);
    sha2::Digest::finalize(hasher).to_vec()
}

/// The digest recorded for a changeset: its SHA-256 in lower-case hex.
pub fn changeset_digest_hex(data: &[u8]) -> (r: String)
    ensures
        r@ == bytes_hex(sha256_of(data@)),
        r@.len() == 64,
{
    let d = sha256_digest(data);
    bytes_to_hex(&d)
}

/// The per-peer sync bookkeeping row.
pub struct SyncState {
    pub last_seq: u64,
    pub last_pull_at: i64,
    pub last_push_at: i64,
    pub changeset_digest: String,
}

/// The mathematical value of a [`SyncState`].
pub struct SyncStateV {
    pub last_seq: u64,
    pub last_pull_at: int,
    pub last_push_at: int,
    pub changeset_digest: Seq<char>,
}

impl View for SyncState {
    type V = SyncStateV;

    open spec fn view(&self) -> SyncStateV {
        SyncStateV {
            last_seq: self.last_seq,
            last_pull_at: self.last_pull_at as int,
            last_push_at: self.last_push_at as int,
            changeset_digest: self.changeset_digest@,
        }
    }
}

/// The persisted sync-state table, one row per peer.
pub struct SyncStateTable {
    rows: Vec<(String, SyncState)>,
}

impl SyncStateTable {
    /// Peer identifiers are pairwise distinct.
    pub closed spec fn wf(&self) -> bool {
        unique_keys(self.rows@)
    }

    /// The row recorded for a peer, if any.
    pub closed spec fn state_of(&self, peer: Seq<char>) -> Option<SyncStateV> {
        assoc_lookup(self.rows@, peer)
    }

    /// An empty table.
    pub fn new() -> (r: SyncStateTable)
        ensures
            r.wf(),
            forall|p: Seq<char>| r.state_of(p) is None,
    {
        let r = SyncStateTable { rows: Vec::new() };
        proof {
            assert(forall|p: Seq<char>| assoc_lookup(r.rows@, p) is None);
        }
        r
    }

    /// Reads a peer's row.
    pub fn get_state(&self, peer_id: &str) -> (r: Option<SyncState>)
        ensures
            match r {
                Some(st) => self.state_of(peer_id@) == Some(st@),
                None => self.state_of(peer_id@) is None,
            },
    {
        match assoc_find(&self.rows, peer_id) {
            Some(i) => Some(
                SyncState {
                    last_seq: self.rows[i].1.last_seq,
                    last_pull_at: self.rows[i].1.last_pull_at,
                    last_push_at: self.rows[i].1.last_push_at,
                    changeset_digest: self.rows[i].1.changeset_digest.clone(),
                },
            ),
            None => None,
        }
    }

    /// Records a fully successful exchange with a peer, atomically: the
    /// sequence number advances by one (from zero for a first exchange),
    /// both direction timestamps are set to `now`, and the digest of the
    /// applied changeset is kept. A row is never partially updated, and a
    /// failed exchange writes nothing at all.
    pub fn record_success(&mut self, peer_id: &str, now: i64, digest: String)
        requires
            old(self).wf(),
            match old(self).state_of(peer_id@) {
                Some(st) => st.last_seq < u64::MAX,
                None => true,
            },
        ensures
            final(self).wf(),
            final(self).state_of(peer_id@) == Some(
                SyncStateV {
                    last_seq: match old(self).state_of(peer_id@) {
                        Some(st) => (st.last_seq + 1) as u64,
                        None => 1u64,
                    },
                    last_pull_at: now as int,
                    last_push_at: now as int,
                    changeset_digest: digest@,
                },
            ),
            forall|p: Seq<char>|
                p != peer_id@ ==> final(self).state_of(p) == old(self).state_of(p),
    {
        let next: u64 = match self.get_state(peer_id) {
            Some(st) => st.last_seq + 1,
            None => 1,
        };
        let row = SyncState {
            last_seq: next,
            last_pull_at: now,
            last_push_at: now,
            changeset_digest: digest,
        };
        assoc_set(&mut self.rows, peer_id, row);
    }
}

/// Where a peer stands in the session lifecycle. An address alone makes a
/// peer `Discovered`; established trust makes it `Paired`; only a paired
/// peer may enter `Syncing`, and a finished session lands in `Synced` or
/// `Failed`, both of which return to `Paired` for the next round.
#[derive(Clone, Copy, Debug, PartialEq, Eq, Structural)]
pub enum SessionPhase {
    Discovered,
    Paired,
    Syncing,
    Synced,
    Failed,
}

/// The sync subsystem's status as shown to the user interface.
pub struct SyncStatus {
    pub peer_connected: bool,
    pub last_sync: Option<i64>,
    pub pending_changes: u32,
}

} // verus!
