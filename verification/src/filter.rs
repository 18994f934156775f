//! Metadata filters: a list of groups, of which one has to match; a group
//! is a map from keys to the values that the metadata must have for them.

use vstd::prelude::*;
use crate::strmap::StringMap;

verus! {

/// The maps that the groups of a filter stand for.
pub open spec fn filter_views(filter: Seq<StringMap>) -> Seq<Map<Seq<char>, Seq<char>>> {
    filter.map_values(|group: StringMap| group@)
}

/// The view of metadata that may be absent.
pub open spec fn metadata_view(metadata: Option<StringMap>) -> Option<Map<Seq<char>, Seq<char>>> {
    match metadata {
        Some(m) => Some(m@),
        None => None,
    }
}

/// Whether metadata passes a filter. A filter without groups lets
/// everything pass. Any other filter lets pass the metadata that has, for
/// one group at least, every key of the group with the value that the group
/// gives it; absent metadata never passes such a filter.
pub open spec fn matches_filter(
    metadata: Option<Map<Seq<char>, Seq<char>>>,
    filter: Seq<Map<Seq<char>, Seq<char>>>,
) -> bool {
    filter.len() == 0 || (metadata is Some && exists|g: int|
        0 <= g < filter.len() && (#[trigger] filter[g]).submap_of(metadata->0))
}

/// Whether metadata passes a filter.
pub fn matches_metadata(metadata: &Option<StringMap>, filter: &[StringMap]) -> (r: bool)
    ensures
        r == matches_filter(metadata_view(*metadata), filter_views(filter@)),
{
    if filter.len() == 0 {
        return true;
    }
    match metadata {
        None => false,
        Some(held) => {
            let mut g: usize = 0;
            while g < filter.len()
                invariant
                    g <= filter@.len(),
                    filter_views(filter@).len() == filter@.len(),
                    metadata_view(*metadata) == Some(held@),
                    forall|j: int| 0 <= j < g ==> !(#[trigger] filter_views(filter@)[j]).submap_of(held@),
                decreases filter@.len() - g,
            {
                if filter[g].is_submap_of(held) {
                    assert(filter_views(filter@)[g as int].submap_of(held@));
                    return true;
                }
                g += 1;
            }
            false
        },
    }
}

} // verus!
