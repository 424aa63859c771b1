use vstd::prelude::*;
use vstd::string::StringExecFns;
use crate::aead::{blob_for, decrypt_config, encrypt_config, xenc, XC_MAX_PT};
use crate::codec::{
    deserialize, lemma_parse_serialize, lemma_serialize_parse, serialize, spec_serialize, wf_view,
};
use crate::config::{default_config_view, ConfigV, LlmConfig};
use crate::errors::{KeyError, StoreError};
use crate::keys::get_or_create_key;

verus! {

/// Folds a key-provisioning failure into the store's single error
/// surface: a corrupt stored key is `Corrupt`, everything else is a
/// credential-transport failure.
pub fn key_error_to_store(e: KeyError) -> (r: StoreError)
    ensures
        r == (match e {
            KeyError::Corrupt => StoreError::Corrupt,
            KeyError::NotFound => StoreError::IoFailure,
            KeyError::StoreUnavailable => StoreError::IoFailure,
        }),
{
    match e {
        KeyError::Corrupt => StoreError::Corrupt,
        KeyError::NotFound => StoreError::IoFailure,
        KeyError::StoreUnavailable => StoreError::IoFailure,
    }
}

/// Serializes a record and seals it into a transport blob under the key.
/// Only a record whose serialization exceeds the cipher's limit is
/// refused.
pub fn encode_record(cfg: &LlmConfig, key: &[u8]) -> (r: Result<String, StoreError>)
    requires
        key@.len() == 32,
    ensures
        r matches Ok(s) ==> exists|n: Seq<u8>|
            n.len() == 24 && s@ == blob_for(key@, n, spec_serialize(cfg@)) && xenc(
                key@,
                n,
                spec_serialize(cfg@),
            ).len() == spec_serialize(cfg@).len() + 16 && wf_view(cfg@),
        r is Ok <==> spec_serialize(cfg@).len() < XC_MAX_PT,
        r matches Err(e) ==> e == StoreError::IoFailure,
{
    let pt = serialize(cfg);
    match encrypt_config(key, pt.as_slice()) {
        Ok(s) => Ok(s),
        Err(_) => Err(StoreError::IoFailure),
    }
}

/// Opens a transport blob under the key and deserializes the record in
/// it.  Exactly the blobs sealed over a serialized record under this key
/// decode; everything else — wrong key, tampering, or bytes that are not
/// a record — is `Corrupt`.
pub fn decode_record(key: &[u8], blob: &str) -> (r: Result<LlmConfig, StoreError>)
    requires
        key@.len() == 32,
    ensures
        r matches Ok(c) ==> exists|n: Seq<u8>|
            n.len() == 24 && blob@ == blob_for(key@, n, spec_serialize(c@)) && wf_view(c@),
        forall|n: Seq<u8>, v: ConfigV|
            n.len() == 24 && wf_view(v) && spec_serialize(v).len() < XC_MAX_PT && blob@
                == blob_for(key@, n, spec_serialize(v)) ==> (r matches Ok(c) && c@ == v),
        r matches Err(e) ==> e == StoreError::Corrupt,
{
    let pt = match decrypt_config(key, blob) {
        Err(_) => {
            proof {
                assert forall|n: Seq<u8>, v: ConfigV|
                    n.len() == 24 && wf_view(v) && spec_serialize(v).len() < XC_MAX_PT implies blob@
                    != blob_for(key@, n, spec_serialize(v)) by {}
            }
            return Err(StoreError::Corrupt);
        },
        Ok(v) => v,
    };
    match deserialize(pt.as_slice()) {
        Err(_) => {
            proof {
                assert forall|n: Seq<u8>, v: ConfigV|
                    n.len() == 24 && wf_view(v) && spec_serialize(v).len() < XC_MAX_PT implies blob@
                    != blob_for(key@, n, spec_serialize(v)) by {
                    if blob@ == blob_for(key@, n, spec_serialize(v)) {
                        assert(pt@ == spec_serialize(v));
                        lemma_parse_serialize(v);
                    }
                }
            }
            Err(StoreError::Corrupt)
        },
        Ok(c) => {
            proof {
                lemma_serialize_parse(pt@, c@);
                assert forall|n: Seq<u8>, v: ConfigV|
                    n.len() == 24 && wf_view(v) && spec_serialize(v).len() < XC_MAX_PT && blob@
                        == blob_for(key@, n, spec_serialize(v)) implies c@ == v by {
                    assert(pt@ == spec_serialize(v));
                    lemma_parse_serialize(v);
                }
            }
            Ok(c)
        },
    }
}

/// Loads the configuration record.  With no blob on disk the first-run
/// defaults are substituted; otherwise the key is provisioned and the
/// blob decoded.
pub fn load_config(blob: Option<&str>) -> (r: Result<LlmConfig, StoreError>)
    ensures
        blob is None ==> (r matches Ok(c) && c@ == default_config_view()),
        blob matches Some(s) ==> (match r {
            Ok(c) => exists|k: Seq<u8>, n: Seq<u8>|
                k.len() == 32 && n.len() == 24 && s@ == blob_for(k, n, spec_serialize(c@))
                    && wf_view(c@),
            Err(e) => e == StoreError::Corrupt || e == StoreError::IoFailure,
        }),
{
    match blob {
        None => Ok(LlmConfig::default()),
        Some(s) => {
            let key = match get_or_create_key() {
                Err(e) => {
                    return Err(key_error_to_store(e));
                },
                Ok(k) => k,
            };
            decode_record(key.as_slice(), s)
        },
    }
}

/// Serializes and encrypts the whole record into the blob that replaces
/// the prior file content; the caller writes it atomically.
pub fn save_config(cfg: &LlmConfig) -> (r: Result<String, StoreError>)
    ensures
        r matches Ok(s) ==> exists|k: Seq<u8>, n: Seq<u8>|
            k.len() == 32 && n.len() == 24 && s@ == blob_for(k, n, spec_serialize(cfg@))
                && wf_view(cfg@),
        r matches Err(e) ==> e == StoreError::Corrupt || e == StoreError::IoFailure,
{
    let key = match get_or_create_key() {
        Err(e) => {
            return Err(key_error_to_store(e));
        },
        Ok(k) => k,
    };
    encode_record(cfg, key.as_slice())
}

/// The application directory under the user's home directory.
pub fn get_app_folder(home: &str) -> (r: String)
    ensures
        r@ == home@ + "/.llman"@,
{
    let mut p = String::from_str(home);
    p.append("/.llman");
    p
}

/// The configuration file inside the application directory.
pub fn get_config_path(home: &str) -> (r: String)
    ensures
        r@ == home@ + "/.llman"@ + "/.llman_config"@,
{
    let mut p = get_app_folder(home);
    p.append("/.llman_config");
    p
}

/// The directory-ensure decision: once any needed creation has been
/// attempted, a path that is a directory is in order and anything else
/// occupying the path is a conflict.
pub fn check_app_folder(is_dir: bool) -> (r: Result<(), StoreError>)
    ensures
        r is Ok <==> is_dir,
        r matches Err(e) ==> e == StoreError::PathConflict,
{
    if is_dir {
        Ok(())
    } else {
        Err(StoreError::PathConflict)
    }
}

} // verus!
