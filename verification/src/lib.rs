//! A paged key/value cache for inference agents, kept coherent by a MESI
//! protocol, with a scheduler and the logic of an HTTP service on top.

pub mod api;
pub mod coherence;
pub mod kv;
pub mod router;
pub mod scheduler;
