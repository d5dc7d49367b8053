//! A federated-social-networking core: a JSON-like document model, a JSON-LD
//! context manager, an append-only time-versioned object store, and the
//! activity dispatch engine that interprets federation verbs over them.

pub mod chars;
pub mod context;
pub mod dispatch;
pub mod doc;
pub mod error;
pub mod negotiate;
pub mod oid;
pub mod store;
pub mod time;
pub mod util;
