//! Proof-of-work compute core: the canonical `Calculation` value and its byte
//! encoding, a bounded least-recently-used cache of epoch datasets, and the
//! per-worker binding state machine that decides when a dataset has to be
//! looked up, shared or built.

pub mod hash;
pub mod lru;
pub mod cache;
pub mod context;
pub mod calculation;

pub use crate::hash::H256;
pub use crate::cache::{ResourceCache, CACHE_CAPACITY};
pub use crate::context::{ExecutionContext, Action};
pub use crate::calculation::{Calculation, Difficulty};
