//! The v1 api names.

pub use crate::dialects::translate_zh_hans;
