use std::collections::HashSet;

use base64::Engine as _;
use llman::aead::{decrypt_config, encrypt_config};
use llman::codec::serialize;
use llman::config::LlmConfig;
use llman::errors::{CodecError, KeyError, StoreError};
use llman::keys::{encode_key, parse_key};
use llman::store::{decode_record, encode_record};

const URL_SAFE: base64::engine::general_purpose::GeneralPurpose =
    base64::engine::general_purpose::URL_SAFE_NO_PAD;

fn key_a() -> [u8; 32] {
    [7u8; 32]
}

fn key_b() -> [u8; 32] {
    [8u8; 32]
}

#[test]
fn encrypt_decrypt_round_trip() {
    let pt = b"attack at dawn".to_vec();
    let blob = encrypt_config(&key_a(), &pt).unwrap();
    let back = decrypt_config(&key_a(), &blob).unwrap();
    assert_eq!(back, pt);
}

#[test]
fn encrypt_decrypt_round_trip_empty_payload() {
    let pt: Vec<u8> = Vec::new();
    let blob = encrypt_config(&key_a(), &pt).unwrap();
    assert_eq!(decrypt_config(&key_a(), &blob).unwrap(), pt);
}

#[test]
fn full_record_round_trip_through_encryption() {
    let mut cfg = LlmConfig::default();
    cfg.put_cached("gpt-4", "ls", "list files");
    cfg.openai_key = Some("sk-secret".to_string());
    let blob = encode_record(&cfg, &key_a()).unwrap();
    let back = decode_record(&key_a(), &blob).unwrap();
    assert_eq!(back.engine, cfg.engine);
    assert_eq!(back.model, cfg.model);
    assert_eq!(back.openai_key, cfg.openai_key);
    assert_eq!(back.gemini_key, cfg.gemini_key);
    assert_eq!(back.get_cached("gpt-4", "ls"), Some("list files".to_string()));
}

#[test]
fn blob_is_base64_of_nonce_and_tagged_ciphertext() {
    let pt = serialize(&LlmConfig::default());
    let blob = encrypt_config(&key_a(), &pt).unwrap();
    let decoded = URL_SAFE.decode(&blob).unwrap();
    assert_eq!(decoded.len(), 24 + pt.len() + 16);
}

#[test]
fn tampering_with_any_character_fails_authentication() {
    // 32 plaintext bytes make the combined nonce/ciphertext length a
    // multiple of three, so every blob character carries fully used bits
    // and any in-alphabet change survives decoding into changed bytes.
    let pt = b"0123456789abcdef0123456789abcdef".to_vec();
    let blob = encrypt_config(&key_a(), &pt).unwrap();
    let chars: Vec<char> = blob.chars().collect();
    for i in 0..chars.len() {
        let replacement = if chars[i] != 'A' { 'A' } else { 'B' };
        let mut tampered: Vec<char> = chars.clone();
        tampered[i] = replacement;
        let tampered: String = tampered.into_iter().collect();
        let r = decrypt_config(&key_a(), &tampered);
        assert_eq!(r, Err(CodecError::AuthenticationFailed), "position {}", i);
    }
}

#[test]
fn tampered_record_blob_is_corrupt_not_partial() {
    let cfg = LlmConfig::default();
    let blob = encode_record(&cfg, &key_a()).unwrap();
    let mut bytes: Vec<char> = blob.chars().collect();
    let i = bytes.len() / 2;
    bytes[i] = if bytes[i] != 'x' { 'x' } else { 'y' };
    let tampered: String = bytes.into_iter().collect();
    assert!(matches!(decode_record(&key_a(), &tampered), Err(StoreError::Corrupt)));
}

#[test]
fn wrong_key_fails_authentication() {
    let pt = b"under key A".to_vec();
    let blob = encrypt_config(&key_a(), &pt).unwrap();
    assert_eq!(decrypt_config(&key_b(), &blob), Err(CodecError::AuthenticationFailed));
}

#[test]
fn non_base64_blob_is_malformed() {
    assert_eq!(decrypt_config(&key_a(), "!!!not base64!!!"), Err(CodecError::Malformed));
    assert_eq!(decrypt_config(&key_a(), "QUJD===="), Err(CodecError::Malformed));
}

#[test]
fn blob_shorter_than_nonce_is_malformed() {
    let short = URL_SAFE.encode([1u8; 10]);
    assert_eq!(decrypt_config(&key_a(), &short), Err(CodecError::Malformed));
    assert_eq!(decrypt_config(&key_a(), ""), Err(CodecError::Malformed));
}

#[test]
fn random_bytes_after_nonce_fail_authentication() {
    let garbage = URL_SAFE.encode([3u8; 40]);
    assert_eq!(decrypt_config(&key_a(), &garbage), Err(CodecError::AuthenticationFailed));
}

#[test]
fn nonces_never_repeat_over_ten_thousand_calls() {
    let pt = b"nonce uniqueness".to_vec();
    let mut seen: HashSet<Vec<u8>> = HashSet::new();
    for _ in 0..10_000 {
        let blob = encrypt_config(&key_a(), &pt).unwrap();
        let decoded = URL_SAFE.decode(&blob).unwrap();
        let nonce = decoded[..24].to_vec();
        assert!(seen.insert(nonce), "a nonce repeated");
    }
}

#[test]
fn key_encoding_matches_standard_base64() {
    let key = [5u8; 32];
    let encoded = encode_key(&key);
    assert_eq!(encoded, base64::engine::general_purpose::STANDARD.encode(key));
    assert_eq!(parse_key(&encoded).unwrap(), key.to_vec());
}

#[test]
fn parse_key_rejects_wrong_length_and_bad_encoding() {
    let short = base64::engine::general_purpose::STANDARD.encode([5u8; 31]);
    assert_eq!(parse_key(&short), Err(KeyError::Corrupt));
    let long = base64::engine::general_purpose::STANDARD.encode([5u8; 33]);
    assert_eq!(parse_key(&long), Err(KeyError::Corrupt));
    assert_eq!(parse_key("*not base64*"), Err(KeyError::Corrupt));
    assert_eq!(parse_key(""), Err(KeyError::Corrupt));
}
