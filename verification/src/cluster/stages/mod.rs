//! The stages of a run.
pub mod broadcast;
pub mod diff;
pub mod download;
pub mod list;
pub mod owners;
pub mod presence;
pub mod shards;
pub mod verify;
