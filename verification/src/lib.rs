//! Content-fingerprint engine: hash every regular file under a directory
//! tree into a map from relative path to digest, and diff two such maps to
//! find the paths that are new or modified.

pub mod engine;
pub mod fingerprint;
pub mod hasher;
pub mod paths;

pub use engine::fingerprint_files;
pub use engine::Aggregator;
pub use engine::PendingQueue;
pub use engine::WorkMessage;
pub use fingerprint::get_difference;
pub use fingerprint::FingerprintMap;
pub use hasher::digest_string;
