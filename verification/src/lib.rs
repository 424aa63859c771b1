//! Encrypted local configuration store for an LLM-backed manual-page helper.
//!
//! The library keeps a user's engine selection, model name, API credentials
//! and a response cache in one configuration record, serializes that record
//! to a deterministic byte format, encrypts it under a 32-byte symmetric key
//! held in the OS credential store, and encodes the result as a single
//! filesystem-safe text blob.  All record handling, the byte codec, the cache
//! semantics and the blob framing are verified; the credential store, the
//! AEAD cipher, the base64 engines and the random generator are reached
//! through narrow trusted wrappers.

pub mod aead;
pub mod b64;
pub mod cache;
pub mod codec;
pub mod config;
pub mod engine;
pub mod errors;
pub mod keys;
pub mod store;
pub mod text;
