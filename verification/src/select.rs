//! The indices below a bound that satisfy a predicate, in ascending order.

use vstd::prelude::*;

verus! {

/// The indices `0..n` for which `keep` holds, ascending.
pub open spec fn select(n: int, keep: spec_fn(int) -> bool) -> Seq<int> {
    Seq::new(n as nat, |k: int| k).filter(keep)
}

/// No index lies below zero.
pub proof fn lemma_select_none(keep: spec_fn(int) -> bool)
    ensures
        select(0, keep) == Seq::<int>::empty(),
{
    reveal(Seq::filter);
    assert(select(0, keep) =~= Seq::<int>::empty());
}

/// The selection below `n + 1` is the selection below `n`, followed by `n`
/// if `keep` holds for it.
pub proof fn lemma_select_step(n: int, keep: spec_fn(int) -> bool)
    requires
        0 <= n,
    ensures
        select(n + 1, keep) == if keep(n) {
            select(n, keep).push(n)
        } else {
            select(n, keep)
        },
{
    reveal(Seq::filter);
    let all = Seq::new((n + 1) as nat, |k: int| k);
    assert(all.drop_last() =~= Seq::new(n as nat, |k: int| k));
}

/// The selection holds exactly the indices below `n` for which `keep` holds.
pub proof fn lemma_select_contains(n: int, keep: spec_fn(int) -> bool, x: int)
    requires
        0 <= n,
    ensures
        select(n, keep).contains(x) <==> 0 <= x < n && keep(x),
    decreases n,
{
    if n == 0 {
        lemma_select_none(keep);
    } else {
        lemma_select_step(n - 1, keep);
        lemma_select_contains(n - 1, keep, x);
        let before = select(n - 1, keep);
        let now = select(n, keep);
        if keep(n - 1) {
            if before.contains(x) {
                let i = choose|i: int| 0 <= i < before.len() && before[i] == x;
                assert(now[i] == x);
            }
            if x == n - 1 {
                assert(now[now.len() - 1] == x);
            }
            if now.contains(x) {
                let i = choose|i: int| 0 <= i < now.len() && now[i] == x;
                if i < before.len() {
                    assert(before[i] == x);
                }
            }
        }
    }
}

/// The selection is strictly ascending, and its entries are indices below
/// `n` for which `keep` holds.
pub proof fn lemma_select_ascending(n: int, keep: spec_fn(int) -> bool)
    requires
        0 <= n,
    ensures
        forall|i: int|
            0 <= i < select(n, keep).len() ==> 0 <= #[trigger] select(n, keep)[i] < n && keep(
                select(n, keep)[i],
            ),
        forall|i: int, j: int|
            0 <= i < j < select(n, keep).len() ==> #[trigger] select(n, keep)[i]
                < #[trigger] select(n, keep)[j],
    decreases n,
{
    if n == 0 {
        lemma_select_none(keep);
    } else {
        lemma_select_step(n - 1, keep);
        lemma_select_ascending(n - 1, keep);
    }
}

} // verus!
