//! A private, encrypted, content-addressed filesystem core: a persistent
//! forest maps privacy-preserving name labels to encrypted node blocks held
//! in a content-addressed block store, with a file/directory model on top.

pub mod blockstore;
pub mod crypto;
pub mod directory;
pub mod error;
pub mod file;
pub mod forest;
pub mod namelabel;
pub mod persist;
pub mod util;
