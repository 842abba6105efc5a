//! Device identity and secret storage.
//!
//! A [`SecretStore`] is the in-memory image of the device's secret file; the
//! unverified shell loads it from disk and writes it back. [`CryptoManager`]
//! owns the stable device identifier that names this node towards peers.
//! Encryption is disabled in this configuration: the encrypt/decrypt
//! operations pass data through unchanged, and the checksum is a
//! non-cryptographic integrity check.

use vstd::prelude::*;
use vstd::std_specs::hash::DefaultHasherAdditionalSpecFns;
use vstd::string::*;
use crate::util::u64_hex16;
use crate::util::u64_to_hex16;
use crate::util::assoc_lookup;
use crate::util::assoc_find;
use crate::util::assoc_set;
use crate::util::assoc_remove_key;
use crate::util::unique_keys;
use crate::util::str_eq;
use std::collections::hash_map::DefaultHasher;
use std::hash::Hasher;

verus! {

/// The in-memory contents of the device's secret file: a keyed list of
/// string secrets with unique keys.
pub struct SecretStore {
    entries: Vec<(String, String)>,
}

impl SecretStore {
    /// Keys are pairwise distinct.
    pub closed spec fn wf(&self) -> bool {
        unique_keys(self.entries@)
    }

    /// The secret stored under `k`, if any.
    pub closed spec fn lookup(&self, k: Seq<char>) -> Option<Seq<char>> {
        assoc_lookup(self.entries@, k)
    }

    /// An empty store.
    pub fn new() -> (r: SecretStore)
        ensures
            r.wf(),
            forall|k: Seq<char>| r.lookup(k) is None,
    {
        let r = SecretStore { entries: Vec::new() };
        proof {
            assert(forall|k: Seq<char>| assoc_lookup(r.entries@, k) is None);
        }
        r
    }

    /// Reads the secret stored under `name`.
    pub fn secret_get(&self, name: &str) -> (r: Option<String>)
        ensures
            match r {
                Some(val) => self.lookup(name@) == Some(val@),
                None => self.lookup(name@) is None,
            },
    {
        match assoc_find(&self.entries, name) {
            Some(i) => Some(self.entries[i].1.clone()),
            None => None,
        }
    }

    /// Stores `value` under `name`, replacing any earlier secret.
    pub fn secret_set(&mut self, name: &str, value: &str)
        requires
            old(self).wf(),
        ensures
            final(self).wf(),
            forall|k: Seq<char>|
                final(self).lookup(k) == if k == name@ {
                    Some(value@)
                } else {
                    old(self).lookup(k)
                },
    {
        assoc_set(&mut self.entries, name, String::from_str(value));
    }

    /// Every stored pair, for persisting the store; the keys stay unique.
    pub fn export_pairs(&self) -> (r: Vec<(String, String)>)
        ensures
            r@.len() == self.pairs().len(),
            forall|i: int|
                0 <= i < r@.len() ==> ((#[trigger] r@[i]).0@, r@[i].1@) == self.pairs()[i],
    {
        let mut r: Vec<(String, String)> = Vec::new();
        let mut i: usize = 0;
        while i < self.entries.len()
            invariant
                i <= self.entries@.len(),
                r@.len() == i,
                forall|j: int|
                    0 <= j < i ==> ((#[trigger] r@[j]).0@, r@[j].1@) == (
                        self.entries@[j].0@,
                        self.entries@[j].1@,
                    ),
        decreases self.entries@.len() - i,
        {
            r.push((self.entries[i].0.clone(), self.entries[i].1.clone()));
            i = i + 1;
        }
        r
    }

    /// The views of the stored pairs, in storage order.
    pub closed spec fn pairs(&self) -> Seq<(Seq<char>, Seq<char>)> {
        self.entries@.map_values(|p: (String, String)| (p.0@, p.1@))
    }

    /// Removes the secret stored under `name`, if any.
    pub fn secret_remove(&mut self, name: &str)
        requires
            old(self).wf(),
        ensures
            final(self).wf(),
            final(self).lookup(name@) is None,
            forall|k: Seq<char>| k != name@ ==> final(self).lookup(k) == old(self).lookup(k),
    {
        assoc_remove_key(&mut self.entries, name);
    }

}

/// The key under which the device identifier is stored.
pub open spec fn did_key() -> Seq<char> {
    "device_id"@
}

/// An error from the secret storage layer; not produced while the store
/// lives in memory, but part of the interface the shell expects.
#[derive(Clone, Copy, Debug, PartialEq, Eq, Structural)]
pub enum CryptoError {
    StorageUnavailable,
}

/// The checksum of a string: the standard hasher run over its bytes,
/// rendered as 16 hexadecimal characters.
pub open spec fn checksum_spec(data: &str) -> Seq<char> {
    u64_hex16(DefaultHasher::spec_finish(seq![data.spec_bytes()]))
}

/// How this device presents itself to the user: its kind and an optional
/// display name.
#[derive(Clone, Debug)]
pub struct DeviceConfig {
    pub device_type: String,
    pub device_name: Option<String>,
}

/// Owner of the stable device identifier.
pub struct CryptoManager {
    device_id: String,
}

impl CryptoManager {
    /// The identifier this manager was created with.
    pub closed spec fn id(&self) -> Seq<char> {
        self.device_id@
    }

    /// Loads the device identifier from the store, creating and persisting
    /// a fresh 36-character one on first use.
    pub fn new(store: &mut SecretStore) -> (r: Result<CryptoManager, CryptoError>)
        requires
            old(store).wf(),
        ensures
            final(store).wf(),
            r is Ok,
            final(store).lookup(did_key()) == Some(r->Ok_0.id()),
            old(store).lookup(did_key()) is Some ==> {
                &&& Some(r->Ok_0.id()) == old(store).lookup(did_key())
                &&& forall|k: Seq<char>| final(store).lookup(k) == old(store).lookup(k)
            },
            old(store).lookup(did_key()) is None ==> {
                &&& r->Ok_0.id().len() == 36
                &&& forall|k: Seq<char>|
                    k != did_key() ==> final(store).lookup(k) == old(store).lookup(k)
            },
    {
        let device_id = Self::get_or_create_device_id(store);
        Ok(CryptoManager { device_id })
    }

    fn get_or_create_device_id(store: &mut SecretStore) -> (r: String)
        requires
            old(store).wf(),
        ensures
            final(store).wf(),
            final(store).lookup(did_key()) == Some(r@),
            old(store).lookup(did_key()) is Some ==> {
                &&& Some(r@) == old(store).lookup(did_key())
                &&& forall|k: Seq<char>| final(store).lookup(k) == old(store).lookup(k)
            },
            old(store).lookup(did_key()) is None ==> {
                &&& r@.len() == 36
                &&& forall|k: Seq<char>|
                    k != did_key() ==> final(store).lookup(k) == old(store).lookup(k)
            },
    {
        proof {
            reveal_strlit("device_id");
        }
        if let Some(id) = store.secret_get("device_id") {
            id
        } else {
            let new_id = fresh_uuid();
            store.secret_set("device_id", new_id.as_str());
            new_id
        }
    }

    /// The stable identifier of this device.
    pub fn get_device_id(&self) -> (r: String)
        ensures
            r@ == self.id(),
    {
        self.device_id.clone()
    }

    /// Encryption is disabled: returns the text unchanged.
    pub fn encrypt(&self, plaintext: &str) -> (r: Result<String, CryptoError>)
        ensures
            r is Ok && r->Ok_0@ == plaintext@,
    {
        Ok(String::from_str(plaintext))
    }

    /// Encryption is disabled: returns the text unchanged.
    pub fn decrypt(&self, ciphertext: &str) -> (r: Result<String, CryptoError>)
        ensures
            r is Ok && r->Ok_0@ == ciphertext@,
    {
        Ok(String::from_str(ciphertext))
    }

    /// Encryption is disabled: returns the bytes unchanged.
    pub fn encrypt_bytes(&self, plaintext: &[u8]) -> (r: Result<Vec<u8>, CryptoError>)
        ensures
            r is Ok && r->Ok_0@ == plaintext@,
    {
        Ok(vstd::slice::slice_to_vec(plaintext))
    }

    /// Encryption is disabled: returns the bytes unchanged.
    pub fn decrypt_bytes(&self, ciphertext: &[u8]) -> (r: Result<Vec<u8>, CryptoError>)
        ensures
            r is Ok && r->Ok_0@ == ciphertext@,
    {
        Ok(vstd::slice::slice_to_vec(ciphertext))
    }

    /// A 16-hex-digit integrity checksum of `data`; not cryptographically
    /// secure.
    pub fn generate_checksum(&self, data: &str) -> (r: String)
        ensures
            r@ == checksum_spec(data),
    {
        let mut hasher = DefaultHasher::new();
        hasher.write(data.as_bytes());
        let h: u64 = hasher.finish();
        u64_to_hex16(h)
    }

    /// True exactly when `checksum` is the checksum of `data`.
    pub fn verify_checksum(&self, data: &str, checksum: &str) -> (r: bool)
        ensures
            r == (checksum@ == checksum_spec(data)),
    {
        let expected = self.generate_checksum(data);
        str_eq(expected.as_str(), checksum)
    }

    /// Encryption is disabled in this configuration.
    pub fn is_encryption_enabled(&self) -> (r: bool)
        ensures
            !r,
    {
        false
    }

    /// Forgets the persisted device identifier, so the next manager starts
    /// fresh.
    pub fn reset_device_id(store: &mut SecretStore) -> (r: Result<(), CryptoError>)
        requires
            old(store).wf(),
        ensures
            final(store).wf(),
            r is Ok,
            final(store).lookup(did_key()) is None,
            forall|k: Seq<char>| k != did_key() ==> final(store).lookup(k) == old(store).lookup(k),
    {
        proof {
            reveal_strlit("device_id");
        }
        store.secret_remove("device_id");
        Ok(())
    }

    /// Overrides the device identifier and persists the new one.
    pub fn set_device_id(&mut self, store: &mut SecretStore, new_id: String) -> (r: Result<
        (),
        CryptoError,
    >)
        requires
            old(store).wf(),
        ensures
            final(store).wf(),
            r is Ok,
            final(self).id() == new_id@,
            forall|k: Seq<char>|
                final(store).lookup(k) == if k == did_key() {
                    Some(new_id@)
                } else {
                    old(store).lookup(k)
                },
    {
        proof {
            reveal_strlit("device_id");
        }
        store.secret_set("device_id", new_id.as_str());
        self.device_id = new_id;
        Ok(())
    }
}

/// The key under which the device type is stored.
pub open spec fn dtype_key() -> Seq<char> {
    "device_type"@
}

/// The key under which the device name is stored.
pub open spec fn dname_key() -> Seq<char> {
    "device_name"@
}

/// The configuration pairs reported for a device: identifier, the disabled
/// encryption flag, the storage backend, and the optional type and name.
pub open spec fn device_config_spec(id: Seq<char>, store: &SecretStore) -> Seq<
    (Seq<char>, Seq<char>),
> {
    let base = seq![
        ("device_id"@, id),
        ("encryption_enabled"@, "false"@),
        ("key_storage"@, "file"@),
    ];
    let with_type = if store.lookup(dtype_key()) is Some {
        base.push((dtype_key(), store.lookup(dtype_key())->Some_0))
    } else {
        base
    };
    if store.lookup(dname_key()) is Some {
        with_type.push((dname_key(), store.lookup(dname_key())->Some_0))
    } else {
        with_type
    }
}

/// The exported crypto configuration: as the device configuration, but
/// without the storage backend entry.
pub open spec fn crypto_config_spec(id: Seq<char>, store: &SecretStore) -> Seq<
    (Seq<char>, Seq<char>),
> {
    let base = seq![("device_id"@, id), ("encryption_enabled"@, "false"@)];
    let with_type = if store.lookup(dtype_key()) is Some {
        base.push((dtype_key(), store.lookup(dtype_key())->Some_0))
    } else {
        base
    };
    if store.lookup(dname_key()) is Some {
        with_type.push((dname_key(), store.lookup(dname_key())->Some_0))
    } else {
        with_type
    }
}

/// The views of a list of string pairs.
pub open spec fn pair_views(s: Seq<(String, String)>) -> Seq<(Seq<char>, Seq<char>)> {
    s.map_values(|p: (String, String)| (p.0@, p.1@))
}

impl CryptoManager {
    /// The device configuration: identifier, encryption flag, key storage,
    /// and whatever type and name have been stored.
    pub fn get_device_config(&self, store: &SecretStore) -> (r: Result<
        Vec<(String, String)>,
        CryptoError,
    >)
        ensures
            r is Ok,
            pair_views(r->Ok_0@) == device_config_spec(self.id(), store),
    {
        let mut config: Vec<(String, String)> = Vec::new();
        config.push((String::from_str("device_id"), self.device_id.clone()));
        config.push((String::from_str("encryption_enabled"), String::from_str("false")));
        config.push((String::from_str("key_storage"), String::from_str("file")));
        if let Some(dt) = store.secret_get("device_type") {
            config.push((String::from_str("device_type"), dt));
        }
        if let Some(dn) = store.secret_get("device_name") {
            config.push((String::from_str("device_name"), dn));
        }
        proof {
            assert(pair_views(config@) =~= device_config_spec(self.id(), store));
        }
        Ok(config)
    }

    /// Stores the device type and name, where given; absent fields leave
    /// the stored values untouched.
    pub fn set_device_config(
        &self,
        store: &mut SecretStore,
        device_type: Option<String>,
        device_name: Option<String>,
    ) -> (r: Result<(), CryptoError>)
        requires
            old(store).wf(),
        ensures
            final(store).wf(),
            r is Ok,
            match device_type {
                Some(t) => final(store).lookup(dtype_key()) == Some(t@),
                None => final(store).lookup(dtype_key()) == old(store).lookup(dtype_key()),
            },
            match device_name {
                Some(n) => final(store).lookup(dname_key()) == Some(n@),
                None => final(store).lookup(dname_key()) == old(store).lookup(dname_key()),
            },
            forall|k: Seq<char>|
                k != dtype_key() && k != dname_key() ==> final(store).lookup(k) == old(
                    store,
                ).lookup(k),
    {
        proof {
            reveal_strlit("device_type");
            reveal_strlit("device_name");
            assert(dtype_key()[7] == 't' && dname_key()[7] == 'n');
            assert(dtype_key() != dname_key());
        }
        if let Some(dt) = device_type {
            store.secret_set("device_type", dt.as_str());
        }
        if let Some(dn) = device_name {
            store.secret_set("device_name", dn.as_str());
        }
        Ok(())
    }

    /// Replaces the device identifier with a fresh one, as a stand-in for
    /// key rotation while encryption is disabled.
    pub fn rotate_keys(&self, store: &mut SecretStore) -> (r: Result<(), CryptoError>)
        requires
            old(store).wf(),
        ensures
            final(store).wf(),
            r is Ok,
            exists|v: Seq<char>|
                v.len() == 36 && final(store).lookup(did_key()) == Some(v),
            forall|k: Seq<char>| k != did_key() ==> final(store).lookup(k) == old(store).lookup(k),
    {
        proof {
            reveal_strlit("device_id");
        }
        let new_device_id = fresh_uuid();
        store.secret_set("device_id", new_device_id.as_str());
        Ok(())
    }

    /// The exportable crypto configuration: identifier, encryption flag,
    /// and whatever type and name have been stored.
    pub fn export_crypto_config(&self, store: &SecretStore) -> (r: Result<
        Vec<(String, String)>,
        CryptoError,
    >)
        ensures
            r is Ok,
            pair_views(r->Ok_0@) == crypto_config_spec(self.id(), store),
    {
        let mut config: Vec<(String, String)> = Vec::new();
        config.push((String::from_str("device_id"), self.device_id.clone()));
        config.push((String::from_str("encryption_enabled"), String::from_str("false")));
        if let Some(dt) = store.secret_get("device_type") {
            config.push((String::from_str("device_type"), dt));
        }
        if let Some(dn) = store.secret_get("device_name") {
            config.push((String::from_str("device_name"), dn));
        }
        proof {
            assert(pair_views(config@) =~= crypto_config_spec(self.id(), store));
        }
        Ok(config)
    }

    /// Restores identifier, type and name from an exported configuration;
    /// keys absent from the configuration leave the store untouched.
    pub fn import_crypto_config(&mut self, store: &mut SecretStore, config: &Vec<(String, String)>)
        -> (r: Result<(), CryptoError>)
        requires
            old(store).wf(),
        ensures
            final(store).wf(),
            r is Ok,
            match assoc_lookup(config@, did_key()) {
                Some(v) => final(self).id() == v && final(store).lookup(did_key()) == Some(v),
                None => final(self).id() == old(self).id() && final(store).lookup(did_key())
                    == old(store).lookup(did_key()),
            },
            match assoc_lookup(config@, dtype_key()) {
                Some(v) => final(store).lookup(dtype_key()) == Some(v),
                None => final(store).lookup(dtype_key()) == old(store).lookup(dtype_key()),
            },
            match assoc_lookup(config@, dname_key()) {
                Some(v) => final(store).lookup(dname_key()) == Some(v),
                None => final(store).lookup(dname_key()) == old(store).lookup(dname_key()),
            },
            forall|k: Seq<char>|
                k != did_key() && k != dtype_key() && k != dname_key() ==> final(store).lookup(k)
                    == old(store).lookup(k),
    {
        proof {
            reveal_strlit("device_id");
            reveal_strlit("device_type");
            reveal_strlit("device_name");
        }
        if let Some(i) = assoc_find(config, "device_id") {
            let v = config[i].1.clone();
            store.secret_set("device_id", v.as_str());
            self.device_id = v;
        }
        if let Some(i) = assoc_find(config, "device_type") {
            store.secret_set("device_type", config[i].1.as_str());
        }
        if let Some(i) = assoc_find(config, "device_name") {
            store.secret_set("device_name", config[i].1.as_str());
        }
        Ok(())
    }
}

/// Relies on `uuid::Uuid::new_v4` and its hyphenated rendering: a fresh
/// random identifier of exactly 36 characters.
#[verifier::external_body]
fn fresh_uuid() -> (r: String)
    ensures
        r@.len() == 36,
{
    uuid::Uuid::new_v4().to_string()
}

} // verus!
