//! The vendored emUSB-Device files. Their license forbids redistribution, so every user
//! provides their own copy: which files are consumed, how they are taken out of the
//! evaluation bundle, and how a lock file pins their identity.

pub mod archive;
pub mod bindings;
pub mod digest;
pub mod files;
pub mod laws;
pub mod lock;
pub mod relock;
pub mod setup;
