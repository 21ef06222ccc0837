//! Names of the inputs a [`crate::model::CcaModel`] declares.
use vstd::prelude::*;

verus! {

/// `[n, 1]` noise level column.
pub const T_COL: &'static str = "cca.t";

/// `[n, 1]` per-row retrieval mask.
pub const RETRIEVAL_MASK: &'static str = "cca.retrieval_mask";

/// `[l * k * r, d]` encoded neighbours.
pub const NEIGHBOUR_KV: &'static str = "cca.neighbour_kv";

} // verus!
