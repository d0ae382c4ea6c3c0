//! A local credential store: named API keys grouped by account, serialized
//! to a grouped key-value text file that is kept readable and writable by
//! the owning user only.

pub mod codec;
pub mod store;
