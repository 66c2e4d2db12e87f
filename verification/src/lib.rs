//! Credential rotation for cloud access profiles: the on-disk stores, their
//! text format, and the policy that decides when a session is refreshed.

pub mod profile;
pub mod sts_client;
pub mod utils;
