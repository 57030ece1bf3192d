pub mod multimap;
pub mod sorting;
pub mod pairs;
pub mod subsets;

use vstd::prelude::*;

verus! {

/// The view of a vector of vectors as a sequence of sequences.
pub open spec fn nested_view<T>(v: Seq<Vec<T>>) -> Seq<Seq<T>> {
    v.map_values(|x: Vec<T>| x@)
}

} // verus!
pub mod queue;
