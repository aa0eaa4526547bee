//! Account store and background synchronization layer for a local
//! time-based one-time-password (TOTP) credential vault.
//!
//! Groups of accounts are kept in memory with value semantics, mirrored to an
//! embedded SQLite database, and can be exported to / imported from a
//! line-oriented text backup format.

pub mod codec;
pub mod db;
pub mod gateway;
pub mod migrate;
pub mod model;
pub mod store;
pub mod tasks;
