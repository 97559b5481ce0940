use vstd::prelude::*;

verus! {

/// What a sequence of vectors holds, one sequence per vector.
pub open spec fn rows_view<T>(v: Seq<Vec<T>>) -> Seq<Seq<T>> {
    v.map_values(|x: Vec<T>| x@)
}

} // verus!
