//! Square matrices held as vectors of rows.

use vstd::prelude::*;

verus! {

/// A matrix held as a vector of rows, seen as a sequence of sequences.
pub open spec fn rows_of<T>(m: Seq<Vec<T>>) -> Seq<Seq<T>> {
    Seq::new(m.len(), |i: int| m[i]@)
}

/// `m` has `n` rows of `n` entries each.
pub open spec fn is_square<T>(m: Seq<Seq<T>>, n: int) -> bool {
    m.len() == n && forall|i: int| 0 <= i < n ==> (#[trigger] m[i]).len() == n
}

} // verus!
