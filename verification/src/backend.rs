//! Tuning parameters for the approximate nearest-neighbor backend. The
//! backend itself works on floating-point coordinates and lives with the
//! caller that owns the points; only its tuning knobs are plain values.

use vstd::prelude::*;

verus! {

/// Tuning knobs for an HNSW-style approximate nearest-neighbor index.
#[derive(Debug, Clone, PartialEq, Eq, Structural)]
pub struct HnswParams {
    pub max_nb_connection: usize,
    pub ef_construction: usize,
    pub ef_search: usize,
    pub max_layer: usize,
    pub use_parallel_insert: bool,
}

impl Default for HnswParams {
    /// The tuning used when a caller states no preference.
    fn default() -> (d: HnswParams)
        ensures
            d.max_nb_connection == 24,
            d.ef_construction == 200,
            d.ef_search == 64,
            d.max_layer == 16,
            d.use_parallel_insert,
    {
        HnswParams {
            max_nb_connection: 24,
            ef_construction: 200,
            ef_search: 64,
            max_layer: 16,
            use_parallel_insert: true,
        }
    }
}

} // verus!
