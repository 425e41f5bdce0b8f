//! Copying between local files and Azure Blob Storage: what is listed, selected, split, sent,
//! retried and compared, and what is said of it.
//!
//! The functions here decide and compute. Reading files, sending requests and waiting for them
//! is left to the programs that use them.
pub mod address;
pub mod auth;
pub mod binary64;
pub mod cli;
pub mod cluster;
pub mod config;
pub mod encoding;
pub mod engine;
pub mod error;
pub mod storage;
pub mod text;
pub mod units;

pub use auth::Credential;
pub use cluster::plan::DownloadRange;
pub use config::TransferConfig;
pub use engine::lpt::apply_shard;
pub use error::{AzcpError, Result};
pub use storage::blob::client::BlobClient;
pub use storage::blob::models::{BlobItem, BlobProperties};
pub use storage::location::{parse_location, BlobLocation, Location};

use vstd::prelude::*;

verus! {

/// What every request says of who sends it, in its `User-Agent` header.
pub const USER_AGENT: &'static str = "azcp/0.4.2";

} // verus!
