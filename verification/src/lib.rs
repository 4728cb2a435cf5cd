//! Core engine of a patch-mirror service: the upstream protocol
//! decoder, the manifest parser, the revision diff engine, the revision
//! registry, and the decision logic of the concurrency-bounded,
//! crash-safe downloader, the sync cycle and the serving layer's
//! admission pipeline.

pub mod admission;
pub mod asset;
pub mod diff;
pub mod downloader;
pub mod errors;
pub mod fsmodel;
pub mod manifest;
pub mod patch_info;
pub mod store;
pub mod sync;
