//! The groups of a batch do not depend on the order of its items.

use vstd::prelude::*;
use vstd::relations::injective_on;
use vstd::seq_lib::*;
use vstd::set_lib::{lemma_int_range, lemma_len_subset, lemma_map_size, set_int_range};
use crate::connectivity::{
    connected, is_chain, lemma_connected_symmetric, lemma_connected_transitive, similar,
};
use crate::duplicate::{
    component, connected_to, expected_groups, leaders, member_paths, ImageInfo,
};
use crate::partition::{
    group_has, group_index, leader_of, lemma_component_members, lemma_group_index,
    lemma_group_invariants, lemma_group_shape, lemma_groups_disjoint, lemma_leader_of,
    lemma_leader_position,
};
use crate::select::lemma_select_ascending;
use crate::text::{lemma_sorted_texts, lemma_text_order_total, text_order};

verus! {

/// Whether `to` and `back` are rearrangements of `0..n` that undo each
/// other.
pub open spec fn inverse_permutations(to: Seq<int>, back: Seq<int>) -> bool {
    &&& to.len() == back.len()
    &&& forall|i: int| 0 <= i < to.len() ==> 0 <= #[trigger] to[i] < to.len() && back[to[i]] == i
    &&& forall|j: int|
        0 <= j < back.len() ==> 0 <= #[trigger] back[j] < back.len() && to[back[j]] == j
}

/// Whether batch `b` holds the items of batch `a` in another order: item
/// `i` of `a` stands at position `to[i]` of `b`, with the same identifier
/// and the same fingerprint.
pub open spec fn reordered(
    a: Seq<ImageInfo>,
    b: Seq<ImageInfo>,
    to: Seq<int>,
    back: Seq<int>,
) -> bool {
    &&& a.len() == b.len()
    &&& a.len() == to.len()
    &&& inverse_permutations(to, back)
    &&& forall|i: int|
        0 <= i < a.len() ==> b[#[trigger] to[i]].path@ == a[i].path@ && b[to[i]].hash@
            == a[i].hash@
}

/// Where `b` is `a` in another order, `a` is `b` in another order.
pub proof fn lemma_reordered_symmetric(
    a: Seq<ImageInfo>,
    b: Seq<ImageInfo>,
    to: Seq<int>,
    back: Seq<int>,
)
    requires
        reordered(a, b, to, back),
    ensures
        reordered(b, a, back, to),
{
    assert forall|j: int| 0 <= j < b.len() implies a[#[trigger] back[j]].path@ == b[j].path@
        && a[back[j]].hash@ == b[j].hash@ by {
        let i = back[j];
        assert(to[i] == j);
    }
}

/// A chain of similar items is a chain in the reordered batch.
proof fn lemma_connected_moved(
    a: Seq<ImageInfo>,
    b: Seq<ImageInfo>,
    to: Seq<int>,
    back: Seq<int>,
    threshold: u32,
    i: int,
    j: int,
)
    requires
        reordered(a, b, to, back),
        connected(a, threshold, i, j),
    ensures
        connected(b, threshold, to[i], to[j]),
{
    let chain = choose|chain: Seq<int>|
        #[trigger] is_chain(a, threshold, chain) && chain.first() == i && chain.last() == j;
    let moved = Seq::new(chain.len(), |k: int| to[chain[k]]);
    assert forall|k: int| 0 <= k < moved.len() - 1 implies similar(
        b,
        threshold,
        #[trigger] moved[k],
        moved[k + 1],
    ) by {
        assert(similar(a, threshold, chain[k], chain[k + 1]));
        assert(0 <= chain[k] < a.len() && 0 <= chain[k + 1] < a.len());
    }
    assert(is_chain(b, threshold, moved));
}

/// Items are connected in a batch exactly when they are in the reordered
/// batch.
pub proof fn lemma_connected_reordered(
    a: Seq<ImageInfo>,
    b: Seq<ImageInfo>,
    to: Seq<int>,
    back: Seq<int>,
    threshold: u32,
    i: int,
    j: int,
)
    requires
        reordered(a, b, to, back),
        0 <= i < a.len(),
        0 <= j < a.len(),
    ensures
        connected(a, threshold, i, j) <==> connected(b, threshold, to[i], to[j]),
{
    if connected(a, threshold, i, j) {
        lemma_connected_moved(a, b, to, back, threshold, i, j);
    }
    if connected(b, threshold, to[i], to[j]) {
        lemma_reordered_symmetric(a, b, to, back);
        lemma_connected_moved(b, a, back, to, threshold, to[i], to[j]);
    }
}

/// Lists of items that hold the same items equally often have identifiers
/// that occur equally often.
proof fn lemma_member_paths_permuted(images: Seq<ImageInfo>, s1: Seq<int>, s2: Seq<int>)
    requires
        s1.to_multiset() == s2.to_multiset(),
    ensures
        member_paths(images, s1).to_multiset() == member_paths(images, s2).to_multiset(),
    decreases s1.len(),
{
    to_multiset_len(s1);
    to_multiset_len(s2);
    if s1.len() == 0 {
        assert(member_paths(images, s1) =~= member_paths(images, s2));
    } else {
        let x = s1.last();
        let rest1 = s1.drop_last();
        assert(s1 =~= rest1.push(x));
        to_multiset_build(rest1, x);
        to_multiset_contains(s1, x);
        to_multiset_contains(s2, x);
        assert(s1.contains(x)) by {
            assert(s1[s1.len() - 1] == x);
        }
        let j = choose|j: int| 0 <= j < s2.len() && s2[j] == x;
        let rest2 = s2.remove(j);
        to_multiset_remove(s2, j);
        assert(rest1.to_multiset() =~= s1.to_multiset().remove(x));
        lemma_member_paths_permuted(images, rest1, rest2);
        let p = images[x].path@;
        assert(member_paths(images, s1) =~= member_paths(images, rest1).push(p));
        to_multiset_build(member_paths(images, rest1), p);
        assert(member_paths(images, s2) =~= member_paths(images, rest2).insert(j, p));
        to_multiset_insert(member_paths(images, rest2), j, p);
    }
}

/// Lists without repetitions that hold the same items hold them equally
/// often.
proof fn lemma_same_items(s1: Seq<int>, s2: Seq<int>)
    requires
        s1.no_duplicates(),
        s2.no_duplicates(),
        forall|x: int| s1.contains(x) <==> s2.contains(x),
    ensures
        s1.to_multiset() == s2.to_multiset(),
{
    s1.lemma_multiset_has_no_duplicates();
    s2.lemma_multiset_has_no_duplicates();
    assert forall|x: int| s1.to_multiset().count(x) == s2.to_multiset().count(x) by {
        to_multiset_contains(s1, x);
        to_multiset_contains(s2, x);
    }
    assert(s1.to_multiset() =~= s2.to_multiset());
}

/// Reordering a batch leaves its groups as they are: to each group of the
/// batch belongs a group of the reordered batch that has the same members
/// and lists their identifiers in the same order.
pub proof fn lemma_reordering(
    a: Seq<ImageInfo>,
    b: Seq<ImageInfo>,
    to: Seq<int>,
    back: Seq<int>,
    threshold: u32,
    k: int,
) -> (k2: int)
    requires
        reordered(a, b, to, back),
        0 <= k < expected_groups(a, threshold).len(),
    ensures
        0 <= k2 < expected_groups(b, threshold).len(),
        forall|m: int|
            0 <= m < a.len() ==> (group_has(a, threshold, k, m) <==> group_has(
                b,
                threshold,
                k2,
                #[trigger] to[m],
            )),
        expected_groups(b, threshold)[k2].paths == expected_groups(a, threshold)[k].paths,
{
    assert(expected_groups(a, threshold).len() == leaders(a, threshold).len());
    lemma_group_shape(a, threshold, k);
    let l = leaders(a, threshold)[k];
    let l2 = leader_of(b, threshold, to[l]);
    lemma_leader_of(b, threshold, to[l]);
    let k2 = lemma_leader_position(b, threshold, l2);
    lemma_group_shape(b, threshold, k2);
    let ca = component(a, threshold, l);
    let cb = component(b, threshold, l2);
    assert forall|m: int| 0 <= m < a.len() implies (ca.contains(m) <==> cb.contains(
        #[trigger] to[m],
    )) by {
        lemma_component_members(a, threshold, l, m);
        lemma_component_members(b, threshold, l2, to[m]);
        lemma_connected_reordered(a, b, to, back, threshold, l, m);
        if connected(b, threshold, to[l], to[m]) {
            lemma_connected_transitive(b, threshold, l2, to[l], to[m]);
        }
        if connected(b, threshold, l2, to[m]) {
            lemma_connected_symmetric(b, threshold, l2, to[l]);
            lemma_connected_transitive(b, threshold, to[l], l2, to[m]);
        }
    }
    lemma_select_ascending(a.len() as int, connected_to(a, threshold, l));
    lemma_select_ascending(b.len() as int, connected_to(b, threshold, l2));
    let moved = Seq::new(ca.len(), |q: int| to[ca[q]]);
    assert(moved.no_duplicates()) by {
        assert forall|p: int, q: int| 0 <= p < moved.len() && 0 <= q < moved.len() && p
            != q implies moved[p] != moved[q] by {
            if p < q {
                assert(ca[p] < ca[q]);
            } else {
                assert(ca[q] < ca[p]);
            }
            assert(back[to[ca[p]]] == ca[p]);
            assert(back[to[ca[q]]] == ca[q]);
        }
    }
    assert(cb.no_duplicates()) by {
        assert forall|p: int, q: int| 0 <= p < cb.len() && 0 <= q < cb.len() && p
            != q implies cb[p] != cb[q] by {
            if p < q {
                assert(cb[p] < cb[q]);
            } else {
                assert(cb[q] < cb[p]);
            }
        }
    }
    assert forall|y: int| moved.contains(y) <==> cb.contains(y) by {
        if moved.contains(y) {
            let q = choose|q: int| 0 <= q < moved.len() && moved[q] == y;
            assert(ca.contains(ca[q]));
            assert(cb.contains(to[ca[q]]));
        }
        if cb.contains(y) {
            let q = choose|q: int| 0 <= q < cb.len() && cb[q] == y;
            assert(0 <= y < b.len());
            let x = back[y];
            assert(to[x] == y);
            assert(ca.contains(x));
            let p = choose|p: int| 0 <= p < ca.len() && ca[p] == x;
            assert(moved[p] == y);
        }
    }
    lemma_same_items(moved, cb);
    lemma_member_paths_permuted(b, moved, cb);
    assert(member_paths(b, moved) =~= member_paths(a, ca)) by {
        assert forall|q: int| 0 <= q < ca.len() implies member_paths(b, moved)[q] == member_paths(
            a,
            ca,
        )[q] by {
            assert(0 <= ca[q] < a.len());
            assert(b[to[ca[q]]].path@ == a[ca[q]].path@);
        }
    }
    lemma_sorted_texts(member_paths(a, ca));
    lemma_sorted_texts(member_paths(b, cb));
    lemma_text_order_total();
    lemma_sorted_unique(
        member_paths(a, ca).sort_by(text_order()),
        member_paths(b, cb).sort_by(text_order()),
        text_order(),
    );
    assert forall|m: int| 0 <= m < a.len() implies (group_has(a, threshold, k, m) <==> group_has(
        b,
        threshold,
        k2,
        #[trigger] to[m],
    )) by {
        assert(ca.contains(m) <==> cb.contains(to[m]));
    }
    k2
}

/// The group of the reordered batch that belongs to group `k` of the
/// batch: the one that holds the first item of group `k`.
spec fn moved_group(
    a: Seq<ImageInfo>,
    b: Seq<ImageInfo>,
    to: Seq<int>,
    threshold: u32,
) -> spec_fn(int) -> int {
    |k: int| group_index(b, threshold, to[leaders(a, threshold)[k]])
}

/// A reordered batch has at least as many groups as the batch.
proof fn lemma_no_fewer_groups(
    a: Seq<ImageInfo>,
    b: Seq<ImageInfo>,
    to: Seq<int>,
    back: Seq<int>,
    threshold: u32,
)
    requires
        reordered(a, b, to, back),
    ensures
        leaders(a, threshold).len() <= leaders(b, threshold).len(),
{
    let count_a = leaders(a, threshold).len() as int;
    let count_b = leaders(b, threshold).len() as int;
    let f = moved_group(a, b, to, threshold);
    let from = set_int_range(0, count_a);
    let into = set_int_range(0, count_b);
    lemma_int_range(0, count_a);
    lemma_int_range(0, count_b);
    assert(expected_groups(a, threshold).len() == count_a);
    assert forall|k: int| from.contains(k) implies into.contains(#[trigger] f(k)) && group_has(
        a,
        threshold,
        k,
        leaders(a, threshold)[k],
    ) && group_has(b, threshold, f(k), to[leaders(a, threshold)[k]]) by {
        let l = leaders(a, threshold)[k];
        let best = lemma_group_invariants(a, threshold, k);
        lemma_group_shape(a, threshold, k);
        lemma_group_index(b, threshold, to[l]);
    }
    assert forall|k1: int, k2: int|
        from.contains(k1) && from.contains(k2) && #[trigger] f(k1) == #[trigger] f(
            k2,
        ) implies k1 == k2 by {
        let l1 = leaders(a, threshold)[k1];
        let l2 = leaders(a, threshold)[k2];
        lemma_group_shape(a, threshold, k1);
        lemma_group_shape(a, threshold, k2);
        let m1 = lemma_reordering(a, b, to, back, threshold, k1);
        let m2 = lemma_reordering(a, b, to, back, threshold, k2);
        assert(group_has(b, threshold, m1, to[l1]));
        assert(group_has(b, threshold, m2, to[l2]));
        lemma_groups_disjoint(b, threshold, m1, f(k1), to[l1]);
        lemma_groups_disjoint(b, threshold, m2, f(k2), to[l2]);
        assert(group_has(b, threshold, m1, to[l2]));
        assert(group_has(a, threshold, k1, l2));
        lemma_groups_disjoint(a, threshold, k1, k2, l2);
    }
    assert(injective_on(f, from));
    let image = from.map(f);
    lemma_map_size(from, image, f);
    assert(image.subset_of(into)) by {
        assert forall|y: int| image.contains(y) implies into.contains(y) by {
            let k = choose|k: int| from.contains(k) && f(k) == y;
            assert(into.contains(f(k)));
        }
    }
    lemma_len_subset(image, into);
}

/// Reordering a batch leaves the number of its groups as it is.
pub proof fn lemma_reordering_keeps_count(
    a: Seq<ImageInfo>,
    b: Seq<ImageInfo>,
    to: Seq<int>,
    back: Seq<int>,
    threshold: u32,
)
    requires
        reordered(a, b, to, back),
    ensures
        expected_groups(a, threshold).len() == expected_groups(b, threshold).len(),
{
    lemma_no_fewer_groups(a, b, to, back, threshold);
    lemma_reordered_symmetric(a, b, to, back);
    lemma_no_fewer_groups(b, a, back, to, threshold);
    assert(expected_groups(a, threshold).len() == leaders(a, threshold).len());
    assert(expected_groups(b, threshold).len() == leaders(b, threshold).len());
}

} // verus!
