//! Ascending order and the median of a list of integers.

use vstd::prelude::*;
use vstd::relations::*;
use vstd::seq_lib::*;

verus! {

/// The order `<=` on integers, as a relation.
pub open spec fn ascending() -> spec_fn(i64, i64) -> bool {
    |a: i64, b: i64| a <= b
}

/// The median of a non-empty list: the element at index `len / 2`, rounded
/// down, of the list in ascending order. No two elements are averaged.
pub open spec fn median(values: Seq<i64>) -> i64 {
    values.sort_by(ascending())[values.len() as int / 2]
}

/// The values in ascending order.
pub fn sorted(values: &Vec<i64>) -> (result: Vec<i64>)
    ensures
        result@ == values@.sort_by(ascending()),
        result.len() == values.len(),
{
    let mut result: Vec<i64> = Vec::new();
    let mut i: usize = 0;
    proof {
        assert(values@.take(0) =~= result@);
    }
    while i < values.len()
        invariant
            i <= values.len(),
            result.len() == i,
            sorted_by(result@, ascending()),
            result@.to_multiset() == values@.take(i as int).to_multiset(),
        decreases values.len() - i,
    {
        let x = values[i];
        let mut k: usize = 0;
        while k < result.len() && result[k] <= x
            invariant
                k <= result.len(),
                forall|q: int| 0 <= q < k ==> #[trigger] result@[q] <= x,
            decreases result.len() - k,
        {
            k = k + 1;
        }
        let ghost before = result@;
        result.insert(k, x);
        proof {
            let after = result@;
            assert forall|a: int, b: int| 0 <= a < b < after.len() implies #[trigger] ascending()(
                after[a],
                after[b],
            ) by {
                if b == k {
                } else if a == k {
                    if b - 1 > k {
                        assert(ascending()(before[k as int], before[b - 1]));
                    }
                } else {
                    let a0 = if a < k { a } else { a - 1 };
                    let b0 = if b < k { b } else { b - 1 };
                    assert(ascending()(before[a0], before[b0]));
                }
            }
            to_multiset_insert(before, k as int, x);
            assert(values@.take(i + 1) =~= values@.take(i as int).push(x));
            to_multiset_build(values@.take(i as int), x);
        }
        i = i + 1;
    }
    proof {
        assert(values@.take(i as int) =~= values@);
        assert(total_ordering(ascending()));
        values@.lemma_sort_by_ensures(ascending());
        lemma_sorted_unique(result@, values@.sort_by(ascending()), ascending());
    }
    result
}

/// The median of a non-empty list.
pub fn median_of(values: &Vec<i64>) -> (m: i64)
    requires
        values.len() > 0,
    ensures
        m == median(values@),
{
    let ordered = sorted(values);
    ordered[ordered.len() / 2]
}

} // verus!
