//! The two sorts the report needs, done by std's slice sorts.

use std::cmp::Ordering;
use vstd::prelude::*;

use crate::analyzer::{is_stable_desc_sort, sorted_asc};
use crate::counts::entries_view;

verus! {

/// Orders entries by descending count: the entry with the larger count comes
/// first.
fn by_count_desc(a: &(String, u64), b: &(String, u64)) -> (o: Ordering)
    ensures
        (o == Ordering::Less) <==> a.1 > b.1,
        (o == Ordering::Equal) <==> a.1 == b.1,
        (o == Ordering::Greater) <==> a.1 < b.1,
{
    if a.1 > b.1 {
        Ordering::Less
    } else if a.1 < b.1 {
        Ordering::Greater
    } else {
        Ordering::Equal
    }
}

/// `slice::sort_unstable` on integers: the vector ends in ascending order and
/// holds the same values as before.
#[verifier::external_body]
pub(crate) fn sort_ascending(v: &mut Vec<u64>)
    ensures
        sorted_asc(final(v)@),
        final(v)@.to_multiset() == old(v)@.to_multiset(),
{
    v.sort_unstable()
}

/// `slice::sort_by` (a stable sort) with [`by_count_desc`]: the vector ends as
/// the stable sort by descending count of what it held.
#[verifier::external_body]
pub(crate) fn sort_by_count_desc(v: &mut Vec<(String, u64)>)
    ensures
        is_stable_desc_sort(entries_view(final(v)@), entries_view(old(v)@)),
{
    v.sort_by(by_count_desc)
}

} // verus!
