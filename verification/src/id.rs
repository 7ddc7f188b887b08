//! Layer identity.
use vstd::prelude::*;

verus! {

/// Persistent identifier for a layer. Stable across saves and reorders; it is
/// not derived from a position in the graph's layer list.
#[derive(Clone, Copy, Debug, PartialEq, Eq, Structural, Hash, PartialOrd, Ord)]
pub struct LayerId(pub u64);

/// The raw numbers of a list of ids.
pub open spec fn raw_ids(ids: Seq<LayerId>) -> Seq<u64> {
    ids.map_values(|id: LayerId| id.0)
}

} // verus!
