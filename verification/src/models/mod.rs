pub mod document;
pub mod engine;
pub mod errors;
pub mod search_cache;

pub use document::Document;
pub use document::EngineState;
pub use engine::SearchStep;
pub use engine::VectorEngine;
pub use errors::ErrorKind;
pub use errors::VectorEngineError;
pub use search_cache::CacheStats;
pub use search_cache::SearchCache;
