//! Older paths kept for callers that reached the coarse-lock map and its
//! error type through this module; the same items now sit at the top level.

pub use crate::common::ThreadMapLockError;
pub use crate::thread_map_u::ThreadMap;
