//! The vault facade: turns a master password into the MEK, and composes
//! first-time setup and unlocking from the verifier, keystore and session.

use vstd::prelude::*;
use vstd::string::StringSliceAdditionalSpecFns;
use crate::codec::{KdfParams, KeystoreError};
use crate::config::Config;
use crate::crypto::{hash_data, verify_password};
use crate::keystore::{
    self, CreatedKeystore, load_spec, created, banner_prefix, default_kdf, bytes_result, kdf_refused,
    holds_magic, lemma_load_after_create,
};
use crate::primitives::{phc_verifies, phc_lanes_bounded};
use crate::session::{SessionDir, started};

verus! {

#[derive(Clone, Copy, Debug, PartialEq, Eq, Structural)]
pub enum VaultError {
    NotSetUp,
    AlreadySetUp,
    InvalidPassword,
    Hashing,
    Keystore(KeystoreError),
}

pub open spec fn key_result(r: Result<Vec<u8>, VaultError>) -> Result<Seq<u8>, VaultError> {
    match r {
        Ok(k) => Ok(k@),
        Err(e) => Err(e),
    }
}

/// What unlocking with a password gives: `InvalidPassword` when it does not
/// match the stored hash, otherwise what the keystore yields.
pub open spec fn unlock_spec(password: Seq<u8>, stored_hash: Seq<char>, file: Seq<u8>) -> Result<Seq<u8>, VaultError> {
    if !(phc_lanes_bounded(stored_hash) && phc_verifies(password, stored_hash)) {
        Err(VaultError::InvalidPassword)
    } else {
        match load_spec(password, file) {
            Ok(k) => Ok(k),
            Err(e) => Err(VaultError::Keystore(e)),
        }
    }
}

/// Setup then unlock: a hash that verifies the password, beside a keystore
/// created with that password, unlocks to the created key.
pub proof fn lemma_unlock_after_setup(password: Seq<u8>, hash: Seq<char>, prefix: Seq<u8>, kdf: KdfParams, file: Seq<u8>, mek: Seq<u8>)
    requires
        phc_lanes_bounded(hash),
        phc_verifies(password, hash),
        created(password, prefix, kdf, file, mek),
    ensures
        unlock_spec(password, hash, file) == Ok::<Seq<u8>, VaultError>(mek),
{
    lemma_load_after_create(password, prefix, kdf, file, mek);
}

pub struct Vault;

impl Vault {
    /// Checks the master password against its stored hash, then opens the
    /// keystore with it.
    pub fn get_encryption_key(master_password: &str, stored_master_hash: &str, keystore_file: &[u8]) -> (r: Result<Vec<u8>, VaultError>)
        ensures
            key_result(r) == unlock_spec(master_password.spec_bytes(), stored_master_hash@, keystore_file@),
    {
        if !verify_password(master_password.as_bytes(), stored_master_hash) {
            return Err(VaultError::InvalidPassword);
        }
        let r = keystore::load(master_password, keystore_file);
        assert(bytes_result(r) == load_spec(master_password.spec_bytes(), keystore_file@));
        match r {
            Ok(k) => Ok(k),
            Err(e) => Err(VaultError::Keystore(e)),
        }
    }

    /// First-time setup: creates the keystore and records the password
    /// hash in `config`. An installation that already has a hash is refused,
    /// and `config` changes only when both steps succeed.
    pub fn setup(master_password: &str, config: &mut Config, banner: &str, kdf: Option<KdfParams>, keystore_exists: bool) -> (r: Result<CreatedKeystore, VaultError>)
        ensures
            old(config).master_password_hash is Some ==> r == Err::<CreatedKeystore, VaultError>(VaultError::AlreadySetUp),
            old(config).master_password_hash is None && keystore_exists
                ==> r == Err::<CreatedKeystore, VaultError>(VaultError::Keystore(KeystoreError::AlreadyExists)),
            old(config).master_password_hash is None && !keystore_exists
                && !kdf_refused(match kdf { Some(k) => k, None => default_kdf() })
                && master_password.spec_bytes().len() <= u32::MAX && !holds_magic(banner.spec_bytes()) ==> r is Ok,
            match r {
                Ok(c) => final(config).master_password_hash matches Some(h)
                    && phc_lanes_bounded(h@) && phc_verifies(master_password.spec_bytes(), h@)
                    && unlock_spec(master_password.spec_bytes(), h@, c.file@) == Ok::<Seq<u8>, VaultError>(c.mek@)
                    && final(config).session_timeout == old(config).session_timeout
                    && created(master_password.spec_bytes(), banner_prefix(banner),
                        match kdf { Some(k) => k, None => default_kdf() }, c.file@, c.mek@),
                Err(_) => *final(config) == *old(config),
            },
    {
        if config.master_password_hash.is_some() {
            return Err(VaultError::AlreadySetUp);
        }
        let ks = match keystore::create(master_password, banner, kdf, keystore_exists) {
            Ok(ks) => ks,
            Err(e) => {
                return Err(VaultError::Keystore(e));
            },
        };
        match hash_data(master_password.as_bytes()) {
            Ok(h) => {
                proof {
                    lemma_unlock_after_setup(master_password.spec_bytes(), h.hash@, banner_prefix(banner),
                        match kdf { Some(k) => k, None => default_kdf() }, ks.file@, ks.mek@);
                }
                config.master_password_hash = Some(h.hash);
                Ok(ks)
            },
            Err(_) => Err(VaultError::Hashing),
        }
    }

    /// Unlocks: verifies the password, opens the keystore and starts a
    /// session caching the MEK at `now`. On any failure no session is
    /// started and the session directory is left as it was.
    pub fn unlock(master_password: &str, config: &Config, keystore_file: &[u8], sessions: &mut SessionDir, now: u64) -> (r: Result<String, VaultError>)
        ensures
            config.master_password_hash is None ==> r == Err::<String, VaultError>(VaultError::NotSetUp),
            match r {
                Ok(token) => config.master_password_hash matches Some(h)
                    && unlock_spec(master_password.spec_bytes(), h@, keystore_file@) is Ok
                    && final(sessions)@ == started(token@, unlock_spec(master_password.spec_bytes(), h@, keystore_file@)->Ok_0, now),
                Err(e) => final(sessions)@ == old(sessions)@ && (config.master_password_hash matches Some(h) ==>
                    unlock_spec(master_password.spec_bytes(), h@, keystore_file@) == Err::<Seq<u8>, VaultError>(e)),
            },
    {
        let stored = match &config.master_password_hash {
            None => {
                return Err(VaultError::NotSetUp);
            },
            Some(h) => h,
        };
        let key = Self::get_encryption_key(master_password, stored.as_str(), keystore_file)?;
        let token = sessions.start_session(key, now);
        Ok(token)
    }
}

} // verus!
