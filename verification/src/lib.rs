//! Content-addressed mod synchronizer core.
//!
//! The library scans mod directories into SRF manifests (per-part, per-file
//! and per-mod MD5 fingerprints), encodes and decodes the two SRF formats
//! (canonical JSON and the legacy line-oriented text format), parses PBO
//! container headers, and computes the repository/mod diffs that drive a
//! sync run. All I/O stays with the caller: every function here works on
//! plain values.

pub mod checksum;
pub mod json;
pub mod md5_digest;
pub mod mod_cache;
pub mod pbo;
pub mod repository;
pub mod scan;
pub mod srf;
pub mod srf_json;
pub mod srf_legacy;
pub mod sync;
pub mod text;

