//! Sorting numbers by their place in the order of all numbers.

use crate::number::Real;
use vstd::prelude::*;

verus! {

/// Whether the value at `i` belongs before the value at `j` in a stable ascending sort.
pub open spec fn comes_before(values: Seq<Real>, i: usize, j: usize) -> bool {
    ||| values[i as int].rank() < values[j as int].rank()
    ||| values[i as int].rank() == values[j as int].rank() && i < j
}

/// Whether `order` lists the indices `first..last`, each once, as a stable ascending sort of the
/// values there does.
pub open spec fn is_order_between(
    values: Seq<Real>,
    order: Seq<usize>,
    first: int,
    last: int,
) -> bool {
    &&& order.len() == last - first
    &&& forall|k: int| 0 <= k < order.len() ==> first <= #[trigger] order[k] < last
    &&& forall|a: int, b: int|
        0 <= a < b < order.len() ==> comes_before(values, #[trigger] order[a], #[trigger] order[b])
}

/// Whether `order` lists the indices of all values as a stable ascending sort does.
pub open spec fn is_order_of(values: Seq<Real>, order: Seq<usize>) -> bool {
    is_order_between(values, order, 0, values.len() as int)
}

/// Whether `value` stands at position `k` once the values are sorted in ascending order.
pub open spec fn is_kth_smallest(values: Seq<Real>, k: int, value: Real) -> bool {
    exists|order: Seq<usize>|
        #[trigger] is_order_of(values, order) && value == values[order[k] as int]
}

/// Merges two sorted lists of indices, all those on the left being smaller than all on the right.
fn merge(
    values: &[Real],
    left: &Vec<usize>,
    right: &Vec<usize>,
    Ghost(first): Ghost<int>,
    Ghost(middle): Ghost<int>,
    Ghost(last): Ghost<int>,
) -> (order: Vec<usize>)
    requires
        0 <= first <= middle <= last <= values@.len(),
        is_order_between(values@, left@, first, middle),
        is_order_between(values@, right@, middle, last),
        last - first <= usize::MAX,
    ensures
        is_order_between(values@, order@, first, last),
{
    let mut order: Vec<usize> = Vec::with_capacity(left.len() + right.len());
    let mut i: usize = 0;
    let mut j: usize = 0;
    while i < left.len() || j < right.len()
        invariant
            0 <= first <= middle <= last <= values@.len(),
            is_order_between(values@, left@, first, middle),
            is_order_between(values@, right@, middle, last),
            i <= left@.len(),
            j <= right@.len(),
            order@.len() == i + j,
            last - first <= usize::MAX,
            forall|k: int| 0 <= k < order@.len() ==> first <= #[trigger] order@[k] < last,
            forall|a: int, b: int|
                0 <= a < b < order@.len() ==> comes_before(
                    values@,
                    #[trigger] order@[a],
                    #[trigger] order@[b],
                ),
            forall|a: int, k: int|
                0 <= a < order@.len() && i <= k < left@.len() ==> comes_before(
                    values@,
                    #[trigger] order@[a],
                    #[trigger] left@[k],
                ),
            forall|a: int, k: int|
                0 <= a < order@.len() && j <= k < right@.len() ==> comes_before(
                    values@,
                    #[trigger] order@[a],
                    #[trigger] right@[k],
                ),
        decreases left@.len() + right@.len() - i - j,
    {
        let take_left = if i < left.len() {
            if j < right.len() {
                !values[right[j]].ranks_before(&values[left[i]])
            } else {
                true
            }
        } else {
            false
        };
        if take_left {
            order.push(left[i]);
            i = i + 1;
        } else {
            order.push(right[j]);
            j = j + 1;
        }
    }
    order
}

/// The indices from `first` up to `last` in the order of a stable ascending sort.
fn order_between(values: &[Real], first: usize, last: usize) -> (order: Vec<usize>)
    requires
        first <= last <= values@.len(),
    ensures
        is_order_between(values@, order@, first as int, last as int),
    decreases last - first,
{
    if last - first == 0 {
        Vec::new()
    } else if last - first == 1 {
        let mut order: Vec<usize> = Vec::with_capacity(1);
        order.push(first);
        order
    } else {
        let middle: usize = first + (last - first) / 2;
        let left = order_between(values, first, middle);
        let right = order_between(values, middle, last);
        merge(
            values,
            &left,
            &right,
            Ghost(first as int),
            Ghost(middle as int),
            Ghost(last as int),
        )
    }
}

/// The indices of the values in the order of a stable ascending sort.
pub fn order_of(values: &[Real]) -> (order: Vec<usize>)
    ensures
        is_order_of(values@, order@),
{
    order_between(values, 0, values.len())
}

/// A list of as many different indices as there are values leaves none of them out.
proof fn lemma_order_is_complete(values: Seq<Real>, order: Seq<usize>, x: usize)
    requires
        is_order_of(values, order),
        x < values.len(),
    ensures
        exists|k: int| 0 <= k < order.len() && #[trigger] order[k] == x,
{
    let ints = order.map_values(|i: usize| i as int);
    assert(ints.no_duplicates()) by {
        assert forall|a: int, b: int| 0 <= a < ints.len() && 0 <= b < ints.len() && a != b implies
            ints[a] != ints[b] by {
            if a < b {
                assert(comes_before(values, order[a], order[b]));
            } else {
                assert(comes_before(values, order[b], order[a]));
            }
        }
    }
    let range = vstd::set_lib::set_int_range(0, values.len() as int);
    ints.unique_seq_to_set();
    vstd::set_lib::lemma_int_range(0, values.len() as int);
    assert(ints.to_set().subset_of(range)) by {
        assert forall|y: int| ints.to_set().contains(y) implies range.contains(y) by {
            let k = choose|k: int| 0 <= k < ints.len() && ints[k] == y;
            assert(order[k] < values.len());
        }
    }
    vstd::set_lib::lemma_subset_equality(ints.to_set(), range);
    assert(range.contains(x as int));
    assert(ints.contains(x as int));
    let k = choose|k: int| 0 <= k < ints.len() && ints[k] == x as int;
    assert(order[k] == x);
}

/// The first position at which two orders differ would hold indices that each come before the
/// other.
proof fn lemma_orders_agree(values: Seq<Real>, p: Seq<usize>, q: Seq<usize>, k: int)
    requires
        is_order_of(values, p),
        is_order_of(values, q),
        0 <= k < p.len(),
        forall|a: int| 0 <= a < k ==> p[a] == q[a],
    ensures
        p[k] == q[k],
{
    assert(p[k] < values.len());
    assert(q[k] < values.len());
    lemma_order_is_complete(values, q, p[k]);
    lemma_order_is_complete(values, p, q[k]);
    let in_q = choose|a: int| 0 <= a < q.len() && #[trigger] q[a] == p[k];
    let in_p = choose|a: int| 0 <= a < p.len() && #[trigger] p[a] == q[k];
    if in_q < k {
        assert(comes_before(values, p[in_q], p[k]));
    }
    if in_p < k {
        assert(comes_before(values, q[in_p], q[k]));
    }
    if in_q > k && in_p > k {
        assert(comes_before(values, q[k], q[in_q]));
        assert(comes_before(values, p[k], p[in_p]));
    }
}

/// Values have one stable ascending order only.
pub proof fn order_is_unique(values: Seq<Real>, p: Seq<usize>, q: Seq<usize>)
    requires
        is_order_of(values, p),
        is_order_of(values, q),
    ensures
        p == q,
{
    lemma_prefixes_agree(values, p, q, p.len() as int);
    assert(p =~= q);
}

proof fn lemma_prefixes_agree(values: Seq<Real>, p: Seq<usize>, q: Seq<usize>, k: int)
    requires
        is_order_of(values, p),
        is_order_of(values, q),
        0 <= k <= p.len(),
    ensures
        forall|a: int| 0 <= a < k ==> p[a] == q[a],
    decreases k,
{
    if k > 0 {
        lemma_prefixes_agree(values, p, q, k - 1);
        lemma_orders_agree(values, p, q, k - 1);
    }
}

/// Only one value stands at a given position of the sorted values.
pub proof fn kth_smallest_is_unique(values: Seq<Real>, k: int, a: Real, b: Real)
    requires
        is_kth_smallest(values, k, a),
        is_kth_smallest(values, k, b),
    ensures
        a == b,
{
    let p = choose|order: Seq<usize>|
        #[trigger] is_order_of(values, order) && a == values[order[k] as int];
    let q = choose|order: Seq<usize>|
        #[trigger] is_order_of(values, order) && b == values[order[k] as int];
    order_is_unique(values, p, q);
}

/// A later position of the sorted values never holds a smaller value.
pub proof fn kth_smallest_ascends(values: Seq<Real>, j: int, k: int, a: Real, b: Real)
    requires
        0 <= j <= k < values.len(),
        is_kth_smallest(values, j, a),
        is_kth_smallest(values, k, b),
    ensures
        a.rank() <= b.rank(),
{
    let p = choose|order: Seq<usize>|
        #[trigger] is_order_of(values, order) && a == values[order[j] as int];
    let q = choose|order: Seq<usize>|
        #[trigger] is_order_of(values, order) && b == values[order[k] as int];
    order_is_unique(values, p, q);
    if j < k {
        assert(comes_before(values, p[j], p[k]));
    }
}

/// An order of values lists as many places as there are values, and no place twice. The values there
/// ascend, and where two are equal the earlier place comes first.
pub proof fn an_order_ascends(values: Seq<Real>, order: Seq<usize>, a: int, b: int)
    requires
        is_order_of(values, order),
        0 <= a < b < values.len(),
    ensures
        order.len() == values.len(),
        order[a] < values.len(),
        order[b] < values.len(),
        order[a] != order[b],
        values[order[a] as int].rank() <= values[order[b] as int].rank(),
        values[order[a] as int].rank() == values[order[b] as int].rank() ==> order[a] < order[b],
{
    assert(comes_before(values, order[a], order[b]));
}

/// The value at position `k` of the sorted values is one of them. At `k + 1` different places stand
/// values that are no larger, and at as many places as remain, itself among them, values that are no
/// smaller.
pub proof fn kth_smallest_divides_the_values(values: Seq<Real>, k: int, value: Real) -> (places: (
    Seq<usize>,
    Seq<usize>,
))
    requires
        0 <= k < values.len(),
        is_kth_smallest(values, k, value),
    ensures
        values.contains(value),
        places.0.len() == k + 1,
        places.0.no_duplicates(),
        forall|j: int|
            0 <= j <= k ==> #[trigger] places.0[j] < values.len() && values[places.0[j] as int].rank()
                <= value.rank(),
        places.1.len() == values.len() - k,
        places.1.no_duplicates(),
        forall|j: int|
            0 <= j < values.len() - k ==> #[trigger] places.1[j] < values.len() && value.rank()
                <= values[places.1[j] as int].rank(),
{
    let order = choose|order: Seq<usize>|
        #[trigger] is_order_of(values, order) && value == values[order[k] as int];
    let low = order.take(k + 1);
    let high = order.skip(k);
    assert(order[k] < values.len());
    assert(values[order[k] as int] == value);
    assert forall|j: int| 0 <= j <= k implies #[trigger] low[j] < values.len()
        && values[low[j] as int].rank() <= value.rank() by {
        assert(low[j] == order[j]);
        if j < k {
            assert(comes_before(values, order[j], order[k]));
        }
    }
    assert forall|j: int| 0 <= j < values.len() - k implies #[trigger] high[j] < values.len()
        && value.rank() <= values[high[j] as int].rank() by {
        assert(high[j] == order[k + j]);
        if j > 0 {
            assert(comes_before(values, order[k], order[k + j]));
        }
    }
    assert forall|a: int, b: int| 0 <= a < low.len() && 0 <= b < low.len() && a != b implies low[a]
        != low[b] by {
        if a < b {
            assert(comes_before(values, order[a], order[b]));
        } else {
            assert(comes_before(values, order[b], order[a]));
        }
    }
    assert forall|a: int, b: int|
        0 <= a < high.len() && 0 <= b < high.len() && a != b implies high[a] != high[b] by {
        if a < b {
            assert(comes_before(values, order[k + a], order[k + b]));
        } else {
            assert(comes_before(values, order[k + b], order[k + a]));
        }
    }
    (low, high)
}

} // verus!
