//! AES-GCM with short IVs and truncated tags, and the Handoff advertisements
//! that are sealed with it.

pub mod advertise;
pub mod aes_cipher;
pub mod block;
pub mod error;
pub mod field;
pub mod gcm;
pub mod integrity;
pub mod laws;
pub mod layout;
pub mod primitives;
pub mod ring;
pub mod squaring;
