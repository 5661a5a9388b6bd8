//! Saving and loading documents.
pub mod local_storage;

pub use local_storage::LocalStorage;
