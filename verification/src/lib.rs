//! Gemini credential failover: which API key an interview uses, and when a
//! failed one comes back.

pub mod config;
pub mod cooldown;
pub mod failure;
pub mod json;
pub mod keys;
pub mod laws;
pub mod outcomes;
pub mod redact;
pub mod text;
