//! An in-process vector similarity search engine: an authoritative document
//! map, a bounded query cache with hit and miss accounting, the ranking of
//! nearest-neighbour candidates, and a lossless binary checkpoint format.
//!
//! Vector components and distances are carried as IEEE-754 single-precision
//! bit patterns (`u32`), so that every value in the library is an integer.
use vstd::prelude::*;

pub mod models;
pub mod ranking;
pub mod utils;
pub mod wire;

pub use models::document::Document;
pub use models::engine::VectorEngine;
pub use models::errors::VectorEngineError;

verus! {

/// Returns the library's greeting.
pub fn greet() -> (r: String)
    ensures
        r@ == "Hello, Jin!"@,
{
    "Hello, Jin!".to_string()
}

} // verus!
