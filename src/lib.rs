//! An in-memory static asset store: files read once at startup, keyed by
//! their root-joined path, each with a content type inferred from its name,
//! then served read-only by mapping request URLs onto those keys.

pub mod content_type;
pub mod laws;
pub mod order;
pub mod paths;
pub mod request;
pub mod store;
