use vstd::prelude::*;
use crate::aead::random_bytes;
use crate::b64::{b64std, b64std_decode, b64std_encode};
use crate::errors::KeyError;

verus! {

#[verifier::external_type_specification]
#[verifier::external_body]
pub struct ExEntry(keyring::Entry);

/// Relies on keyring::Entry::new: opens the platform credential store's
/// entry named by service and user.  Whether it succeeds depends on the
/// platform store; every failure is mapped to `StoreUnavailable`.
#[verifier::external_body]
fn entry_new(service: &str, user: &str) -> (r: Result<keyring::Entry, KeyError>)
    ensures
        r matches Err(e) ==> e == KeyError::StoreUnavailable,
{
    match keyring::Entry::new(service, user) {
        Ok(e) => Ok(e),
        Err(_) => Err(KeyError::StoreUnavailable),
    }
}

/// Relies on keyring::Entry::get_password: the password depends on the
/// store's current contents, so nothing is assumed of it; an absent entry
/// comes back as `NotFound`, every other failure as `StoreUnavailable`.
#[verifier::external_body]
fn entry_get_password(e: &keyring::Entry) -> (r: Result<String, KeyError>)
    ensures
        r matches Err(err) ==> err == KeyError::NotFound || err == KeyError::StoreUnavailable,
{
    match e.get_password() {
        Ok(s) => Ok(s),
        Err(keyring::Error::NoEntry) => Err(KeyError::NotFound),
        Err(_) => Err(KeyError::StoreUnavailable),
    }
}

/// Relies on keyring::Entry::set_password: only success or failure of the
/// store write comes back, every failure as `StoreUnavailable`.
#[verifier::external_body]
fn entry_set_password(e: &keyring::Entry, pw: &str) -> (r: Result<(), KeyError>)
    ensures
        r matches Err(err) ==> err == KeyError::StoreUnavailable,
{
    match e.set_password(pw) {
        Ok(u) => Ok(u),
        Err(_) => Err(KeyError::StoreUnavailable),
    }
}

/// Encodes a 32-byte key the way it is held in the credential store.
pub fn encode_key(key: &[u8]) -> (r: String)
    requires
        key@.len() == 32,
    ensures
        r@ == b64std(key@),
{
    b64std_encode(key)
}

/// Decodes a stored credential-store password to the 32 key bytes it
/// holds; anything that is not the encoding of exactly 32 bytes is
/// `Corrupt`.
pub fn parse_key(encoded: &str) -> (r: Result<Vec<u8>, KeyError>)
    ensures
        match r {
            Ok(k) => k@.len() == 32 && encoded@ == b64std(k@),
            Err(e) => e == KeyError::Corrupt && forall|bs: Seq<u8>|
                bs.len() == 32 ==> encoded@ != b64std(bs),
        },
{
    match b64std_decode(encoded) {
        None => Err(KeyError::Corrupt),
        Some(v) => {
            if v.len() == 32 {
                Ok(v)
            } else {
                Err(KeyError::Corrupt)
            }
        },
    }
}

/// Whether a key is retrievable from the credential store under the fixed
/// identifier.  An absent entry is `Ok(false)`, not an error; only a store
/// that cannot be reached fails.
pub fn is_key_exist() -> (r: Result<bool, KeyError>)
    ensures
        r matches Err(e) ==> e == KeyError::StoreUnavailable,
{
    let e = entry_new("llman", "config_key")?;
    match entry_get_password(&e) {
        Ok(_) => Ok(true),
        Err(KeyError::NotFound) => Ok(false),
        Err(_) => Err(KeyError::StoreUnavailable),
    }
}

/// Generates 32 fresh random key bytes and writes their encoding to the
/// credential store under the fixed identifier.  Only an unreachable
/// credential backend fails.
pub fn setup_key() -> (r: Result<(), KeyError>)
    ensures
        r matches Err(e) ==> e == KeyError::StoreUnavailable,
{
    let key = random_bytes(32);
    let encoded = encode_key(key.as_slice());
    let e = entry_new("llman", "config_key")?;
    entry_set_password(&e, encoded.as_str())
}

/// Reads and decodes the stored key: an absent entry is `NotFound`, a
/// stored password that does not decode to exactly 32 bytes is `Corrupt`.
pub fn load_key() -> (r: Result<Vec<u8>, KeyError>)
    ensures
        r matches Ok(k) ==> k@.len() == 32,
{
    let e = entry_new("llman", "config_key")?;
    let pw = entry_get_password(&e)?;
    parse_key(pw.as_str())
}

/// The idempotent key provision: create a key first when none is
/// retrievable, then always load.  Whichever creation won a first-run
/// race, the key that is finally loadable is the one returned.
pub fn get_or_create_key() -> (r: Result<Vec<u8>, KeyError>)
    ensures
        r matches Ok(k) ==> k@.len() == 32,
{
    if !is_key_exist()? {
        setup_key()?;
    }
    load_key()
}

} // verus!
