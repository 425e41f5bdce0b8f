pub mod client;
pub mod headers;
pub mod models;
