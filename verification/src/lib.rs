//! Compaction state tracker: an offset cursor and a tombstone set kept in
//! an injected key-value store under a fixed key namespace, together with
//! a cached credential-hash utility and a root-user check.

pub mod auth;
pub mod decimal;
pub mod file_list;
pub mod store;
pub mod text;
