//! A local secret vault: a password-derived key hierarchy protecting a
//! random master encryption key, a time-boxed session cache of that key,
//! and per-entry encryption of stored credentials.

pub mod primitives;
pub mod codec;
pub mod keystore;
pub mod store;
pub mod order;
pub mod session;
pub mod crypto;
pub mod config;
pub mod vault;
pub mod input;
pub mod ui_state;
