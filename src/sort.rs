//! Sorting nodes by column, through itertools.

use itertools::Itertools;
use vstd::prelude::*;

use crate::tile::Tile;

verus! {

/// Relies on itertools' `sorted_unstable_by_key`: the same items, in ascending
/// order of the key (here the column of the tile); equal keys in any order.
#[verifier::external_body]
pub(crate) fn sorted_by_column(items: Vec<(usize, Tile)>) -> (r: Vec<(usize, Tile)>)
    ensures
        r@.to_multiset() == items@.to_multiset(),
        forall|i: int, j: int| 0 <= i <= j < r@.len() ==> r@[i].1.x <= r@[j].1.x,
{
    items.into_iter().sorted_unstable_by_key(|it| it.1.x).collect()
}

} // verus!
