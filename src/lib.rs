//! Disk-backed memory arenas and the typed, persistent containers built on them, with the
//! schema, authentication and configuration types that use them.
pub mod authentication;
pub mod block;
pub mod config;
pub mod fields;
pub mod lock_api;
pub mod merge_strategies;
pub mod persist;
pub mod persisted_cell;
pub mod persisted_raw_array;
pub mod persisted_vec;
pub mod schema;
pub mod segments;
pub mod split;
pub mod users;
