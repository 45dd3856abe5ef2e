//! A verified core for a dice-rolling service: rolling dice, encoding the
//! result as JSON, selecting a storage backend, planning table provisioning,
//! and building the record that is persisted.
pub mod codec;
pub mod config;
pub mod handler;
pub mod provision;
pub mod record;
pub mod roll;
