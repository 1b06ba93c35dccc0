//! An in-memory registry of validator stake weights: reports are parsed,
//! ranked and summarised into one snapshot that is replaced as a whole.

pub mod identity;
pub mod laws;
pub mod report;
pub mod snapshot;
pub mod stakes;
pub mod store;
