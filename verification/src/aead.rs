use vstd::prelude::*;
use vstd::slice::slice_subrange;
use chacha20poly1305::aead::Aead;
use chacha20poly1305::KeyInit;
use rand::Rng;
use crate::b64::{b64url, b64url_decode, b64url_encode};
use crate::errors::CodecError;

verus! {

/// What XChaCha20-Poly1305 produces for a key, nonce and plaintext: the
/// ciphertext with its 16-byte tag appended, a function of the three alone.
pub uninterp spec fn xenc(key: Seq<u8>, nonce: Seq<u8>, pt: Seq<u8>) -> Seq<u8>;

/// Longest plaintext the cipher accepts: one byte under 2^32 - 1 cipher
/// blocks of 64 bytes.
pub const XC_MAX_PT: u64 = 0x3FFFFFFFC0;

/// Relies on rand's thread-local CSPRNG (`rand::rng().fill_bytes`):
/// nothing is assumed of the bytes beyond their number.
#[verifier::external_body]
pub(crate) fn random_bytes(n: usize) -> (r: Vec<u8>)
    ensures
        r@.len() == n,
{
    let mut v = vec![0u8; n];
    rand::rng().fill_bytes(&mut v);
    v
}

/// Relies on chacha20poly1305's XChaCha20Poly1305 `encrypt`: deterministic
/// in key, nonce and plaintext; appends the 16-byte Poly1305 tag; fails
/// only on a plaintext of 2^32 - 1 or more 64-byte blocks.
#[verifier::external_body]
fn xchacha_encrypt(key: &[u8], nonce: &[u8], pt: &[u8]) -> (r: Option<Vec<u8>>)
    requires
        key@.len() == 32,
        nonce@.len() == 24,
    ensures
        r matches Some(v) ==> v@ == xenc(key@, nonce@, pt@) && v@.len() == pt@.len() + 16,
        r is Some <==> pt@.len() < XC_MAX_PT,
{
    let key_arr: &chacha20poly1305::Key = key.try_into().unwrap();
    let nonce_arr: &chacha20poly1305::XNonce = nonce.try_into().unwrap();
    let cipher = chacha20poly1305::XChaCha20Poly1305::new(key_arr);
    cipher.encrypt(nonce_arr, pt).ok()
}

/// Relies on XChaCha20Poly1305 `decrypt`: it verifies the Poly1305 tag and
/// inverts `encrypt`; a ciphertext that no plaintext encrypts to under the
/// given key and nonce is rejected with no partial output.
#[verifier::external_body]
fn xchacha_decrypt(key: &[u8], nonce: &[u8], ct: &[u8]) -> (r: Option<Vec<u8>>)
    requires
        key@.len() == 32,
        nonce@.len() == 24,
    ensures
        match r {
            Some(v) => ct@ == xenc(key@, nonce@, v@) && forall|pt: Seq<u8>|
                ct@ == xenc(key@, nonce@, pt) ==> pt == v@,
            None => forall|pt: Seq<u8>| pt.len() < XC_MAX_PT ==> ct@ != xenc(key@, nonce@, pt),
        },
{
    let key_arr: &chacha20poly1305::Key = key.try_into().unwrap();
    let nonce_arr: &chacha20poly1305::XNonce = nonce.try_into().unwrap();
    let cipher = chacha20poly1305::XChaCha20Poly1305::new(key_arr);
    cipher.decrypt(nonce_arr, ct).ok()
}

/// The transport blob carrying a plaintext encrypted under a key with a
/// nonce: url-safe unpadded base64 of nonce ‖ ciphertext ‖ tag.
pub open spec fn blob_for(key: Seq<u8>, nonce: Seq<u8>, pt: Seq<u8>) -> Seq<char> {
    b64url(nonce + xenc(key, nonce, pt))
}

/// Encrypts a payload under the key with a fresh random 24-byte nonce and
/// returns the self-contained transport blob: base64 of the nonce followed
/// by the ciphertext with its 16-byte tag.  Only a plaintext beyond the
/// cipher's block limit is refused.
pub fn encrypt_config(key: &[u8], plaintext: &[u8]) -> (r: Result<String, CodecError>)
    requires
        key@.len() == 32,
    ensures
        r matches Ok(s) ==> exists|n: Seq<u8>|
            n.len() == 24 && s@ == blob_for(key@, n, plaintext@) && xenc(key@, n, plaintext@).len()
                == plaintext@.len() + 16,
        r is Ok <==> plaintext@.len() < XC_MAX_PT,
        r matches Err(e) ==> e == CodecError::Malformed,
{
    let mut data = random_bytes(24);
    let ghost nonce = data@;
    let mut ct = match xchacha_encrypt(key, data.as_slice(), plaintext) {
        None => {
            return Err(CodecError::Malformed);
        },
        Some(v) => v,
    };
    proof {
        assert(ct@ == xenc(key@, nonce, plaintext@));
    }
    data.append(&mut ct);
    let s = b64url_encode(data.as_slice());
    proof {
        assert(data@ == nonce + xenc(key@, nonce, plaintext@));
        assert(s@ == blob_for(key@, nonce, plaintext@));
        assert(nonce.len() == 24);
        assert(xenc(key@, nonce, plaintext@).len() == plaintext@.len() + 16);
    }
    Ok(s)
}

/// Decrypts a transport blob under the key.  The blob is `Malformed` when
/// it is not canonical base64 or decodes to fewer bytes than a nonce;
/// otherwise a failing tag — wrong key, corruption or tampering — is
/// `AuthenticationFailed`, and no partial plaintext is ever returned.
pub fn decrypt_config(key: &[u8], blob: &str) -> (r: Result<Vec<u8>, CodecError>)
    requires
        key@.len() == 32,
    ensures
        r matches Ok(v) ==> exists|n: Seq<u8>| n.len() == 24 && blob@ == blob_for(key@, n, v@),
        forall|n: Seq<u8>, pt: Seq<u8>|
            n.len() == 24 && pt.len() < XC_MAX_PT && blob@ == blob_for(key@, n, pt) ==> (r matches
            Ok(v) && v@ == pt),
        r matches Err(e) ==> ((e == CodecError::Malformed) <==> ((forall|d: Seq<u8>|
            blob@ != b64url(d)) || (exists|d: Seq<u8>| blob@ == b64url(d) && d.len() < 24))),
{
    let data = match b64url_decode(blob) {
        None => {
            proof {
                assert forall|d: Seq<u8>| blob@ != b64url(d) by {}
            }
            return Err(CodecError::Malformed);
        },
        Some(v) => v,
    };
    proof {
        assert(blob@ == b64url(data@));
        assert forall|d: Seq<u8>| blob@ == b64url(d) implies d == data@ by {}
    }
    if data.len() < 24 {
        proof {
            assert forall|n: Seq<u8>, pt: Seq<u8>|
                n.len() == 24 && pt.len() < XC_MAX_PT implies blob@ != blob_for(
                key@,
                n,
                pt,
            ) by {
                if blob@ == b64url(n + xenc(key@, n, pt)) {
                    assert(n + xenc(key@, n, pt) == data@);
                    assert(data@.len() >= 24);
                }
            }
        }
        return Err(CodecError::Malformed);
    }
    let nonce = slice_subrange(data.as_slice(), 0, 24);
    let ct = slice_subrange(data.as_slice(), 24, data.len());
    proof {
        assert(nonce@ + ct@ =~= data@);
    }
    match xchacha_decrypt(key, nonce, ct) {
        Some(v) => {
            proof {
                assert(ct@ == xenc(key@, nonce@, v@));
                assert(blob@ == blob_for(key@, nonce@, v@));
                assert forall|n: Seq<u8>, pt: Seq<u8>|
                    n.len() == 24 && pt.len() < XC_MAX_PT && blob@ == blob_for(key@, n, pt)
                        implies v@ == pt by {
                    assert(n + xenc(key@, n, pt) == data@);
                    assert forall|i: int| 0 <= i < 24 implies n[i] == nonce@[i] by {
                        assert(data@[i] == n[i]);
                    }
                    assert(n =~= nonce@);
                    assert forall|i: int| 0 <= i < ct@.len() implies xenc(key@, n, pt)[i]
                        == ct@[i] by {
                        assert(data@[24 + i] == xenc(key@, n, pt)[i]);
                    }
                    assert(xenc(key@, n, pt) =~= ct@);
                }
            }
            Ok(v)
        },
        None => {
            proof {
                assert forall|n: Seq<u8>, pt: Seq<u8>|
                    n.len() == 24 && pt.len() < XC_MAX_PT implies blob@ != blob_for(
                    key@,
                    n,
                    pt,
                ) by {
                    if blob@ == b64url(n + xenc(key@, n, pt)) {
                        assert(n + xenc(key@, n, pt) == data@);
                        assert forall|i: int| 0 <= i < 24 implies n[i] == nonce@[i] by {
                            assert(data@[i] == n[i]);
                        }
                        assert(n =~= nonce@);
                        assert forall|i: int| 0 <= i < ct@.len() implies xenc(key@, n, pt)[i]
                            == ct@[i] by {
                            assert(data@[24 + i] == xenc(key@, n, pt)[i]);
                        }
                        assert(xenc(key@, n, pt) =~= ct@);
                    }
                }
                assert forall|d: Seq<u8>| blob@ == b64url(d) implies d.len() >= 24 by {
                    assert(d == data@);
                }
            }
            Err(CodecError::AuthenticationFailed)
        },
    }
}

} // verus!
