//! A fixed-capacity least-recently-used store, with a plain-text mirror format
//! that lets its contents outlive the process.

pub mod key;
pub mod lru_cache_trait;
pub mod cache;
pub mod laws;
pub mod mirror;
pub mod mock_api;
