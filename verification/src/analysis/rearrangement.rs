//! What does not depend on the order of samples.

use crate::analysis::order::{comes_before, is_kth_smallest, is_order_of};
use crate::number::Real;
use vstd::prelude::*;
use vstd::set_lib::{lemma_int_range, lemma_len_subset, lemma_subset_equality, set_int_range};

verus! {

/// Whether `listing` lists the numbers below `n`, each once.
pub open spec fn is_listing(listing: Seq<int>, n: int) -> bool {
    &&& listing.len() == n
    &&& listing.no_duplicates()
    &&& forall|i: int| 0 <= i < listing.len() ==> 0 <= #[trigger] listing[i] < n
}

/// Whether `b` holds the values of `a` in the order of the listing.
pub open spec fn is_rearranged_by(a: Seq<Real>, b: Seq<Real>, listing: Seq<int>) -> bool {
    &&& is_listing(listing, a.len() as int)
    &&& b.len() == a.len()
    &&& forall|i: int| 0 <= i < b.len() ==> #[trigger] b[i] == a[listing[i]]
}

/// Whether `b` holds the same values as `a`, in some order.
pub open spec fn are_rearranged(a: Seq<Real>, b: Seq<Real>) -> bool {
    exists|listing: Seq<int>| #[trigger] is_rearranged_by(a, b, listing)
}

/// Whether the listing goes through the values in ascending order.
spec fn ascends(values: Seq<Real>, listing: Seq<int>) -> bool {
    &&& is_listing(listing, values.len() as int)
    &&& forall|i: int, j: int|
        0 <= i <= j < listing.len() ==> values[#[trigger] listing[i]].rank()
            <= values[#[trigger] listing[j]].rank()
}

/// A listing leaves no number out.
pub(crate) proof fn lemma_listing_is_complete(listing: Seq<int>, n: int, x: int)
    requires
        is_listing(listing, n),
        0 <= x < n,
    ensures
        exists|i: int| 0 <= i < listing.len() && #[trigger] listing[i] == x,
{
    let range = set_int_range(0, n);
    listing.unique_seq_to_set();
    lemma_int_range(0, n);
    assert(listing.to_set().subset_of(range)) by {
        assert forall|y: int| listing.to_set().contains(y) implies range.contains(y) by {
            let i = choose|i: int| 0 <= i < listing.len() && listing[i] == y;
            assert(0 <= listing[i] < n);
        }
    }
    lemma_subset_equality(listing.to_set(), range);
    assert(range.contains(x));
    assert(listing.contains(x));
}

/// Of two ascending listings, neither has the larger value at any position.
proof fn lemma_ascending_listings_agree(values: Seq<Real>, p: Seq<int>, q: Seq<int>, k: int)
    requires
        ascends(values, p),
        ascends(values, q),
        0 <= k < p.len(),
    ensures
        values[p[k]].rank() <= values[q[k]].rank(),
{
    if values[p[k]].rank() > values[q[k]].rank() {
        let few = p.take(k);
        let many = q.take(k + 1);
        few.unique_seq_to_set();
        many.unique_seq_to_set();
        assert(many.to_set().subset_of(few.to_set())) by {
            assert forall|x: int| many.to_set().contains(x) implies few.to_set().contains(x) by {
                let j = choose|j: int| 0 <= j < many.len() && many[j] == x;
                assert(q[j] == x);
                assert(values[q[j]].rank() <= values[q[k]].rank());
                lemma_listing_is_complete(p, values.len() as int, x);
                let i = choose|i: int| 0 <= i < p.len() && #[trigger] p[i] == x;
                if i >= k {
                    assert(values[p[k]].rank() <= values[p[i]].rank());
                }
                assert(few[i] == x);
                assert(few.contains(x));
            }
        }
        few.lemma_cardinality_of_set();
        lemma_len_subset(many.to_set(), few.to_set());
    }
}

/// The order of the values, as a listing.
spec fn listed(order: Seq<usize>) -> Seq<int> {
    order.map_values(|i: usize| i as int)
}

proof fn lemma_order_ascends(values: Seq<Real>, order: Seq<usize>)
    requires
        is_order_of(values, order),
    ensures
        ascends(values, listed(order)),
{
    let listing = listed(order);
    assert forall|i: int, j: int| 0 <= i <= j < listing.len() implies values[
        #[trigger] listing[i]].rank() <= values[#[trigger] listing[j]].rank() by {
        if i < j {
            assert(comes_before(values, order[i], order[j]));
        }
    }
    assert forall|i: int, j: int|
        0 <= i < listing.len() && 0 <= j < listing.len() && i != j implies listing[i]
        != listing[j] by {
        if i < j {
            assert(comes_before(values, order[i], order[j]));
        } else {
            assert(comes_before(values, order[j], order[i]));
        }
    }
    assert forall|i: int| 0 <= i < listing.len() implies 0 <= #[trigger] listing[i]
        < values.len() by {
        assert(order[i] < values.len());
    }
}

/// Rearranging values does not change which value stands at a position once they are sorted. Zeros
/// count as the same value.
pub proof fn sorting_forgets_the_order(a: Seq<Real>, b: Seq<Real>, k: int, x: Real, y: Real)
    requires
        are_rearranged(a, b),
        0 <= k < a.len(),
        is_kth_smallest(a, k, x),
        is_kth_smallest(b, k, y),
    ensures
        x.rank() == y.rank(),
{
    let listing = choose|listing: Seq<int>| #[trigger] is_rearranged_by(a, b, listing);
    let p = choose|order: Seq<usize>|
        #[trigger] is_order_of(a, order) && x == a[order[k] as int];
    let q = choose|order: Seq<usize>|
        #[trigger] is_order_of(b, order) && y == b[order[k] as int];
    lemma_order_ascends(a, p);
    lemma_order_ascends(b, q);
    let through = Seq::new(q.len(), |i: int| listing[listed(q)[i]]);
    assert(ascends(a, through)) by {
        assert forall|i: int| 0 <= i < through.len() implies 0 <= #[trigger] through[i]
            < a.len() && a[through[i]] == b[listed(q)[i]] by {
            assert(0 <= listed(q)[i] < b.len());
        }
        assert forall|i: int, j: int|
            0 <= i < through.len() && 0 <= j < through.len() && i != j implies through[i]
            != through[j] by {
            assert(listed(q)[i] != listed(q)[j]);
        }
        assert forall|i: int, j: int| 0 <= i <= j < through.len() implies a[
            #[trigger] through[i]].rank() <= a[#[trigger] through[j]].rank() by {
            assert(b[listed(q)[i]].rank() <= b[listed(q)[j]].rank());
        }
    }
    lemma_ascending_listings_agree(a, listed(p), through, k);
    lemma_ascending_listings_agree(a, through, listed(p), k);
    assert(listed(p)[k] == p[k]);
    assert(listed(q)[k] == q[k]);
    assert(through[k] == listing[q[k] as int]);
    assert(0 <= listed(q)[k] < b.len());
    assert(b[q[k] as int] == a[through[k]]);
}

} // verus!
