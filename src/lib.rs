//! A directory-scoped key/value store: values attached to a directory are
//! seen from that directory and every directory below it, the nearest
//! definition winning.

pub mod path;
pub mod scope;
pub mod store;
pub mod projector;
pub mod laws;
