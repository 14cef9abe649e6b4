//! Versioned public api namespaces. Re-exports let the implementation be
//! split into small modules that can be refactored without breaking callers.

pub mod v1;
