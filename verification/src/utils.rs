//! Checks on already-sorted data.
use crate::first::SortOrder;
use vstd::prelude::*;
use vstd::std_specs::cmp::PartialOrdSpec;
use core::cmp::Ordering;

verus! {

/// Whether the neighbouring pair at `j` is ordered the requested way.
pub open spec fn spec_pair_ordered<T: PartialOrd>(s: Seq<T>, j: int, order: SortOrder) -> bool {
    match order {
        SortOrder::Ascending => s[j].partial_cmp_spec(&s[j + 1]) matches Some(
            Ordering::Less
            | Ordering::Equal,
        ),
        SortOrder::Descending => s[j].partial_cmp_spec(&s[j + 1]) matches Some(
            Ordering::Greater
            | Ordering::Equal,
        ),
    }
}

/// Whether every neighbouring pair of `s` is ordered the requested way.
pub open spec fn spec_is_sorted<T: PartialOrd>(s: Seq<T>, order: SortOrder) -> bool {
    forall|j: int| 0 <= j < s.len() - 1 ==> #[trigger] spec_pair_ordered(s, j, order)
}

/// Walk the neighbouring pairs of a slice and report whether every one
/// is ordered the requested way.
pub fn is_sorted<T: Ord>(x: &[T], order: &SortOrder) -> (r: bool)
    ensures
        T::obeys_partial_cmp_spec() ==> r == spec_is_sorted(x@, *order),
{
    let ascending = matches!(order, SortOrder::Ascending);
    let n = x.len();
    if n == 0 {
        return true;
    }
    let mut i: usize = 0;
    while i < n - 1
        invariant
            n == x@.len(),
            1 <= n,
            0 <= i <= n - 1,
            ascending == (*order is Ascending),
            T::obeys_partial_cmp_spec() ==> forall|j: int|
                0 <= j < i ==> #[trigger] spec_pair_ordered(x@, j, *order),
        decreases n - i,
    {
        let pair_ok = if ascending {
            x[i].le(&x[i + 1])
        } else {
            x[i].ge(&x[i + 1])
        };
        if !pair_ok {
            proof {
                if T::obeys_partial_cmp_spec() {
                    assert(!spec_pair_ordered(x@, i as int, *order));
                }
            }
            return false;
        }
        i = i + 1;
    }
    true
}

} // verus!
