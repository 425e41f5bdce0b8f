pub mod blob;
pub mod local;
pub mod location;
