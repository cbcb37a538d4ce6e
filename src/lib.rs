//! A bounded key-value cache with least-recently-used eviction, and a durable
//! variant whose state is kept in a snapshot text that can be reloaded.
pub mod api_service;
pub mod cache;
pub mod error;
pub mod persistent_cache;
pub mod snapshot;

pub use api_service::ApiService;
pub use cache::Cache;
pub use error::CacheError;
pub use persistent_cache::PersistentCache;
