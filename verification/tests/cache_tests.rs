use llman::config::LlmConfig;
use llman::engine::{parse_engine, Engine};
use llman::errors::StoreError;
use llman::store::{check_app_folder, get_app_folder, get_config_path, load_config};
use llman::text::{normalize_token, str_eq};

fn empty_config() -> LlmConfig {
    LlmConfig::default()
}

#[test]
fn put_then_get_same_model() {
    let mut cfg = empty_config();
    cfg.put_cached("gpt-4", "ls", "text");
    assert_eq!(cfg.get_cached("gpt-4", "ls"), Some("text".to_string()));
}

#[test]
fn get_other_model_is_empty() {
    let mut cfg = empty_config();
    cfg.put_cached("gpt-4", "ls", "text");
    assert_eq!(cfg.get_cached("llama3", "ls"), None);
}

#[test]
fn reset_all_clears_every_entry() {
    let mut cfg = empty_config();
    cfg.put_cached("gpt-4", "ls", "text");
    cfg.put_cached("llama3", "cat", "other");
    cfg.reset_all_buffer();
    assert_eq!(cfg.get_cached("gpt-4", "ls"), None);
    assert_eq!(cfg.get_cached("llama3", "cat"), None);
}

#[test]
fn reset_key_clears_across_models_and_keeps_others() {
    let mut cfg = empty_config();
    cfg.put_cached("gpt-4", "ls", "a");
    cfg.put_cached("llama3", "ls", "b");
    cfg.put_cached("gpt-4", "cat", "c");
    cfg.reset_buffer_key("ls");
    assert_eq!(cfg.get_cached("gpt-4", "ls"), None);
    assert_eq!(cfg.get_cached("llama3", "ls"), None);
    assert_eq!(cfg.get_cached("gpt-4", "cat"), Some("c".to_string()));
}

#[test]
fn put_overwrites_existing_entry() {
    let mut cfg = empty_config();
    cfg.put_cached("gpt-4", "ls", "old");
    cfg.put_cached("gpt-4", "ls", "new");
    assert_eq!(cfg.get_cached("gpt-4", "ls"), Some("new".to_string()));
}

#[test]
fn custom_prompt_bypasses_cache_read() {
    let mut cfg = empty_config();
    cfg.model = "gpt-4".to_string();
    cfg.put_cached("gpt-4", "ls", "cached");
    assert_eq!(cfg.lookup_response("ls", true), None);
    assert_eq!(cfg.lookup_response("ls", false), Some("cached".to_string()));
}

#[test]
fn custom_prompt_response_is_not_cached() {
    let mut cfg = empty_config();
    cfg.model = "gpt-4".to_string();
    cfg.record_response("ls", "ephemeral", true);
    assert_eq!(cfg.get_cached("gpt-4", "ls"), None);
    cfg.record_response("ls", "kept", false);
    assert_eq!(cfg.get_cached("gpt-4", "ls"), Some("kept".to_string()));
}

#[test]
fn custom_prompt_does_not_overwrite_cached_entry() {
    let mut cfg = empty_config();
    cfg.model = "gpt-4".to_string();
    cfg.put_cached("gpt-4", "ls", "default-answer");
    cfg.record_response("ls", "one-off", true);
    assert_eq!(cfg.get_cached("gpt-4", "ls"), Some("default-answer".to_string()));
}

#[test]
fn first_run_defaults() {
    let cfg = load_config(None).unwrap();
    assert_eq!(cfg.engine, Engine::Openai);
    assert_eq!(cfg.model, "gpt-4-turbo");
    assert_eq!(cfg.openai_key, None);
    assert_eq!(cfg.gemini_key, None);
    assert_eq!(cfg.get_cached("gpt-4-turbo", "ls"), None);
    assert!(cfg.buffer.is_empty());
}

#[test]
fn credential_follows_engine() {
    let mut cfg = empty_config();
    cfg.openai_key = Some("sk-one".to_string());
    cfg.gemini_key = Some("gm-two".to_string());
    cfg.engine = Engine::Openai;
    assert_eq!(cfg.credential_for(), Some("sk-one".to_string()));
    cfg.engine = Engine::Google;
    assert_eq!(cfg.credential_for(), Some("gm-two".to_string()));
    cfg.engine = Engine::Ollama;
    assert_eq!(cfg.credential_for(), None);
}

#[test]
fn parse_engine_accepts_the_three_backends() {
    assert_eq!(parse_engine("openai"), Some(Engine::Openai));
    assert_eq!(parse_engine("ollama"), Some(Engine::Ollama));
    assert_eq!(parse_engine("google"), Some(Engine::Google));
    assert_eq!(parse_engine("OpenAI"), None);
    assert_eq!(parse_engine("gpt"), None);
    assert_eq!(parse_engine(""), None);
}

#[test]
fn normalize_token_trims_and_lowercases() {
    assert_eq!(normalize_token(" GPT-4-Turbo "), "gpt-4-turbo");
    assert_eq!(normalize_token("\tOpenAI\n"), "openai");
    assert_eq!(normalize_token("llama3"), "llama3");
    assert_eq!(normalize_token("   "), "");
    assert_eq!(parse_engine(&normalize_token(" Google ")), Some(Engine::Google));
}

#[test]
fn str_eq_compares_by_characters() {
    assert!(str_eq("abc", "abc"));
    assert!(!str_eq("abc", "abd"));
    assert!(!str_eq("abc", "abcd"));
    assert!(str_eq("", ""));
}

#[test]
fn config_paths_live_under_home() {
    assert_eq!(get_app_folder("/home/u"), "/home/u/.llman");
    assert_eq!(get_config_path("/home/u"), "/home/u/.llman/.llman_config");
}

#[test]
fn folder_check_is_idempotent_and_fails_on_conflict() {
    assert_eq!(check_app_folder(true), Ok(()));
    assert_eq!(check_app_folder(true), Ok(()));
    assert_eq!(check_app_folder(false), Err(StoreError::PathConflict));
}
