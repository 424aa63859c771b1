use vstd::prelude::*;
use base64::Engine;

verus! {

/// What base64's url-safe unpadded engine returns for a byte string.
pub uninterp spec fn b64url(bs: Seq<u8>) -> Seq<char>;

/// What base64's standard padded engine returns for a byte string.
pub uninterp spec fn b64std(bs: Seq<u8>) -> Seq<char>;

/// Relies on base64's URL_SAFE_NO_PAD engine: encoding is a function of
/// the bytes alone.
#[verifier::external_body]
pub fn b64url_encode(bs: &[u8]) -> (r: String)
    ensures
        r@ == b64url(bs@),
{
    base64::engine::general_purpose::URL_SAFE_NO_PAD.encode(bs)
}

/// Relies on base64's URL_SAFE_NO_PAD engine: it rejects padding and
/// non-zero trailing bits, so decoding succeeds exactly on the encodings
/// the engine itself produces, and inverts them.
#[verifier::external_body]
pub fn b64url_decode(s: &str) -> (r: Option<Vec<u8>>)
    ensures
        match r {
            Some(v) => s@ == b64url(v@) && forall|bs: Seq<u8>| s@ == b64url(bs) ==> bs == v@,
            None => forall|bs: Seq<u8>| s@ != b64url(bs),
        },
{
    base64::engine::general_purpose::URL_SAFE_NO_PAD.decode(s).ok()
}

/// Relies on base64's STANDARD engine: encoding is a function of the
/// bytes alone.
#[verifier::external_body]
pub fn b64std_encode(bs: &[u8]) -> (r: String)
    ensures
        r@ == b64std(bs@),
{
    base64::engine::general_purpose::STANDARD.encode(bs)
}

/// Relies on base64's STANDARD engine: it requires canonical padding and
/// rejects non-zero trailing bits, so decoding succeeds exactly on the
/// encodings the engine itself produces, and inverts them.
#[verifier::external_body]
pub fn b64std_decode(s: &str) -> (r: Option<Vec<u8>>)
    ensures
        match r {
            Some(v) => s@ == b64std(v@) && forall|bs: Seq<u8>| s@ == b64std(bs) ==> bs == v@,
            None => forall|bs: Seq<u8>| s@ != b64std(bs),
        },
{
    base64::engine::general_purpose::STANDARD.decode(s).ok()
}

} // verus!
