//! Transactional storage of entity records in banks, and inspection of
//! external save files.
//!
//! Every function here works on plain values. Reading and writing files is
//! left to the caller, who performs the requests that the coordinator hands
//! out and reports how each one ended.

pub mod bank;
pub mod bank_manager;
pub mod bytes;
pub mod coordinator;
pub mod digest;
pub mod entity_store;
pub mod error;
pub mod manifest;
pub mod protocol;
pub mod save_inspector;
pub mod versioning;
