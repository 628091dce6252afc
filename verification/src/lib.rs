//! The search core of a personal document library: content extraction with
//! a fallback chain and an on-disk cache, a persistent full-text index with
//! full-rebuild and fingerprint-driven incremental updates, ranked queries,
//! and Unicode-safe snippet generation.
//!
//! Everything that decides or computes lives here, verified; the binary
//! around it only reads files, runs the worker pool, persists JSON, and
//! binds the native PDF renderer.
pub mod cache;
pub mod extract;
pub mod fingerprint;
pub mod index;
pub mod library;
pub mod pdf;
pub mod pdfium;
pub mod snippet;
pub mod text;

use vstd::prelude::*;

verus! {

/// Worker-pool width for parallel extraction: the available hardware
/// parallelism clamped to a floor of 2 and a ceiling of 8 threads.
pub fn worker_count(available: usize) -> (n: usize)
    ensures
        n == if available < 2 {
            2usize
        } else if available > 8 {
            8usize
        } else {
            available
        },
        2 <= n <= 8,
{
    if available < 2 {
        2
    } else if available > 8 {
        8
    } else {
        available
    }
}

} // verus!
