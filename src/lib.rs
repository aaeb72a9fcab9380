//! Search for two distinct generated samples whose truncated SHA-256
//! digests agree.

pub mod digest;
pub mod generator;
pub mod index;
pub mod partition;
pub mod search;
