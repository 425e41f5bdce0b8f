//! Bringing a set of blobs to every node of a cluster: each is downloaded by one node and
//! broadcast to the rest.
pub mod cli;
pub mod filelist;
pub mod paths;
pub mod plan;
pub mod rails;
pub mod report;
pub mod stages;
pub mod transport;
