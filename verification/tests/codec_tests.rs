use llman::codec::{deserialize, serialize};
use llman::config::LlmConfig;
use llman::engine::Engine;
use llman::errors::StoreError;

fn sample_config() -> LlmConfig {
    let mut cfg = LlmConfig::default();
    cfg.engine = Engine::Google;
    cfg.model = "llama3".to_string();
    cfg.openai_key = Some("sk-abc".to_string());
    cfg.gemini_key = None;
    cfg.put_cached("llama3", "ls", "list files");
    cfg.put_cached("llama3", "cat", "concatenate");
    cfg.put_cached("gpt-4", "ls", "other text");
    cfg
}

fn assert_configs_equal(a: &LlmConfig, b: &LlmConfig) {
    assert_eq!(a.engine, b.engine);
    assert_eq!(a.model, b.model);
    assert_eq!(a.openai_key, b.openai_key);
    assert_eq!(a.gemini_key, b.gemini_key);
    assert_eq!(a.buffer.len(), b.buffer.len());
    for (ma, mb) in a.buffer.iter().zip(b.buffer.iter()) {
        assert_eq!(ma.model, mb.model);
        assert_eq!(ma.entries.len(), mb.entries.len());
        for (ea, eb) in ma.entries.iter().zip(mb.entries.iter()) {
            assert_eq!(ea.command, eb.command);
            assert_eq!(ea.text, eb.text);
        }
    }
}

#[test]
fn serialize_then_deserialize_is_identity() {
    let cfg = sample_config();
    let bytes = serialize(&cfg);
    let back = deserialize(&bytes).unwrap();
    assert_configs_equal(&cfg, &back);
}

#[test]
fn serialize_then_deserialize_default_record() {
    let cfg = LlmConfig::default();
    let bytes = serialize(&cfg);
    let back = deserialize(&bytes).unwrap();
    assert_configs_equal(&cfg, &back);
}

#[test]
fn serialized_default_record_has_expected_bytes() {
    let cfg = LlmConfig::default();
    let bytes = serialize(&cfg);
    let mut expected: Vec<u8> = Vec::new();
    expected.push(0); // openai
    expected.extend_from_slice(&11u64.to_le_bytes());
    expected.extend_from_slice(b"gpt-4-turbo");
    expected.push(0); // no openai key
    expected.push(0); // no gemini key
    expected.extend_from_slice(&0u64.to_le_bytes()); // empty cache
    assert_eq!(bytes, expected);
}

#[test]
fn deserialize_round_trips_unicode_strings() {
    let mut cfg = LlmConfig::default();
    cfg.model = "modèle-ünïcode-模型".to_string();
    cfg.put_cached("modèle-ünïcode-模型", "grêp", "exposé — 檔案");
    let bytes = serialize(&cfg);
    let back = deserialize(&bytes).unwrap();
    assert_configs_equal(&cfg, &back);
    assert_eq!(
        back.get_cached("modèle-ünïcode-模型", "grêp"),
        Some("exposé — 檔案".to_string())
    );
}

#[test]
fn round_trip_with_empty_strings() {
    let mut cfg = LlmConfig::default();
    cfg.model = String::new();
    cfg.openai_key = Some(String::new());
    cfg.put_cached("", "", "");
    let bytes = serialize(&cfg);
    let back = deserialize(&bytes).unwrap();
    assert_configs_equal(&cfg, &back);
    assert_eq!(back.get_cached("", ""), Some(String::new()));
}

#[test]
fn round_trip_with_large_cache() {
    let mut cfg = LlmConfig::default();
    for m in 0..20 {
        for c in 0..50 {
            cfg.put_cached(
                &format!("model-{}", m),
                &format!("cmd-{}", c),
                &"x".repeat(200),
            );
        }
    }
    let bytes = serialize(&cfg);
    let back = deserialize(&bytes).unwrap();
    assert_configs_equal(&cfg, &back);
    assert_eq!(back.get_cached("model-19", "cmd-49"), Some("x".repeat(200)));
}

#[test]
fn deserialize_rejects_garbage() {
    assert!(matches!(deserialize(&[1, 2, 3]), Err(StoreError::Corrupt)));
    assert!(matches!(deserialize(&[9]), Err(StoreError::Corrupt)));
    assert!(matches!(deserialize(&[]), Err(StoreError::Corrupt)));
}

#[test]
fn deserialize_rejects_bad_engine_tag() {
    let cfg = LlmConfig::default();
    let mut bytes = serialize(&cfg);
    bytes[0] = 7;
    assert!(matches!(deserialize(&bytes), Err(StoreError::Corrupt)));
}

#[test]
fn deserialize_rejects_truncated_input() {
    let cfg = sample_config();
    let bytes = serialize(&cfg);
    for cut in [1, bytes.len() / 2, bytes.len() - 1] {
        assert!(matches!(deserialize(&bytes[..cut]), Err(StoreError::Corrupt)));
    }
}

#[test]
fn deserialize_rejects_trailing_bytes() {
    let cfg = sample_config();
    let mut bytes = serialize(&cfg);
    bytes.push(0);
    assert!(matches!(deserialize(&bytes), Err(StoreError::Corrupt)));
}

#[test]
fn deserialize_rejects_invalid_utf8_in_model() {
    let mut bytes: Vec<u8> = Vec::new();
    bytes.push(0); // engine tag
    bytes.extend_from_slice(&1u64.to_le_bytes());
    bytes.push(0xFF); // not UTF-8
    bytes.push(0);
    bytes.push(0);
    bytes.extend_from_slice(&0u64.to_le_bytes());
    assert!(matches!(deserialize(&bytes), Err(StoreError::Corrupt)));
}
