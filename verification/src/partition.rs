//! What the groups of a batch are like: they split the batch into the
//! classes of connected items.

use vstd::prelude::*;
use vstd::relations::sorted_by;
use crate::connectivity::{
    connected, is_chain, lemma_connected_reflexive, lemma_connected_symmetric,
    lemma_connected_transitive, lemma_similar_connected, similar,
};
use crate::duplicate::{
    best_member, component, connected_to, expected_groups, group_of, is_best_at, is_leader,
    leaders, leading, lemma_best_unique, member_paths, GroupView, ImageInfo,
};
use crate::hex::hex_encode;
use crate::select::{lemma_select_ascending, lemma_select_contains, lemma_select_none};
use crate::text::{lemma_sorted_texts, text_order};

verus! {

/// Whether item `m` is a member of group `k` of the batch.
pub open spec fn group_has(images: Seq<ImageInfo>, threshold: u32, k: int, m: int) -> bool {
    &&& 0 <= k < leaders(images, threshold).len()
    &&& component(images, threshold, leaders(images, threshold)[k]).contains(m)
}

/// The first item from `j` on that is connected to item `m`, which is `m`
/// itself if none comes before it.
pub open spec fn first_connected(images: Seq<ImageInfo>, threshold: u32, m: int, j: int) -> int
    decreases m - j,
{
    if j >= m {
        m
    } else if connected(images, threshold, j, m) {
        j
    } else {
        first_connected(images, threshold, m, j + 1)
    }
}

/// The first item of the group of item `m`.
pub open spec fn leader_of(images: Seq<ImageInfo>, threshold: u32, m: int) -> int {
    first_connected(images, threshold, m, 0)
}

proof fn lemma_first_connected(images: Seq<ImageInfo>, threshold: u32, m: int, j: int)
    requires
        0 <= j <= m < images.len(),
        forall|i: int| 0 <= i < j ==> !connected(images, threshold, i, m),
    ensures
        j <= first_connected(images, threshold, m, j) <= m,
        connected(images, threshold, first_connected(images, threshold, m, j), m),
        forall|i: int|
            0 <= i < first_connected(images, threshold, m, j) ==> !connected(
                images,
                threshold,
                i,
                m,
            ),
    decreases m - j,
{
    if j >= m {
        lemma_connected_reflexive(images, threshold, m);
    } else if !connected(images, threshold, j, m) {
        lemma_first_connected(images, threshold, m, j + 1);
    }
}

/// The first item of the group of `m` is a leader, connected to `m`, and
/// does not come after `m`.
pub proof fn lemma_leader_of(images: Seq<ImageInfo>, threshold: u32, m: int)
    requires
        0 <= m < images.len(),
    ensures
        0 <= leader_of(images, threshold, m) <= m,
        connected(images, threshold, leader_of(images, threshold, m), m),
        is_leader(images, threshold, leader_of(images, threshold, m)),
{
    let l = leader_of(images, threshold, m);
    lemma_first_connected(images, threshold, m, 0);
    assert forall|j: int| 0 <= j < l implies !connected(images, threshold, j, l) by {
        if connected(images, threshold, j, l) {
            lemma_connected_transitive(images, threshold, j, l, m);
        }
    }
}

/// The members of a group are the items that are connected to its leader.
pub proof fn lemma_component_members(images: Seq<ImageInfo>, threshold: u32, l: int, m: int)
    ensures
        component(images, threshold, l).contains(m) <==> 0 <= m < images.len() && connected(
            images,
            threshold,
            l,
            m,
        ),
{
    lemma_select_contains(images.len() as int, connected_to(images, threshold, l), m);
}

/// Group `k` is the group of the `k`-th leader, and the leaders are the
/// first items of their groups, ascending.
pub proof fn lemma_group_shape(images: Seq<ImageInfo>, threshold: u32, k: int)
    requires
        0 <= k < leaders(images, threshold).len(),
    ensures
        expected_groups(images, threshold).len() == leaders(images, threshold).len(),
        expected_groups(images, threshold)[k] == group_of(
            images,
            threshold,
            leaders(images, threshold)[k],
        ),
        0 <= leaders(images, threshold)[k] < images.len(),
        is_leader(images, threshold, leaders(images, threshold)[k]),
        forall|j: int|
            0 <= j < k ==> #[trigger] leaders(images, threshold)[j] < leaders(images, threshold)[k],
{
    lemma_select_ascending(images.len() as int, leading(images, threshold));
}

/// Every leader has a group.
pub proof fn lemma_leader_position(images: Seq<ImageInfo>, threshold: u32, l: int) -> (k: int)
    requires
        0 <= l < images.len(),
        is_leader(images, threshold, l),
    ensures
        0 <= k < leaders(images, threshold).len(),
        leaders(images, threshold)[k] == l,
{
    lemma_select_contains(images.len() as int, leading(images, threshold), l);
    let first = leaders(images, threshold);
    choose|k: int| 0 <= k < first.len() && first[k] == l
}

/// An empty batch has no groups.
pub proof fn lemma_empty_batch(images: Seq<ImageInfo>, threshold: u32)
    requires
        images.len() == 0,
    ensures
        expected_groups(images, threshold) == Seq::<GroupView>::empty(),
{
    lemma_select_none(leading(images, threshold));
    assert(expected_groups(images, threshold) =~= Seq::<GroupView>::empty());
}

/// Every item of the batch is a member of a group.
pub proof fn lemma_every_item_grouped(images: Seq<ImageInfo>, threshold: u32, m: int) -> (k: int)
    requires
        0 <= m < images.len(),
    ensures
        group_has(images, threshold, k, m),
{
    let l = leader_of(images, threshold, m);
    lemma_leader_of(images, threshold, m);
    let k = lemma_leader_position(images, threshold, l);
    lemma_component_members(images, threshold, l, m);
    k
}

/// The number of the group that holds item `m`.
pub open spec fn group_index(images: Seq<ImageInfo>, threshold: u32, m: int) -> int {
    choose|k: int| group_has(images, threshold, k, m)
}

/// Every item of the batch is a member of the group with its group index.
pub proof fn lemma_group_index(images: Seq<ImageInfo>, threshold: u32, m: int)
    requires
        0 <= m < images.len(),
    ensures
        group_has(images, threshold, group_index(images, threshold, m), m),
{
    let k = lemma_every_item_grouped(images, threshold, m);
}

/// No item is a member of two groups.
pub proof fn lemma_groups_disjoint(
    images: Seq<ImageInfo>,
    threshold: u32,
    k1: int,
    k2: int,
    m: int,
)
    requires
        group_has(images, threshold, k1, m),
        group_has(images, threshold, k2, m),
    ensures
        k1 == k2,
{
    let l1 = leaders(images, threshold)[k1];
    let l2 = leaders(images, threshold)[k2];
    lemma_component_members(images, threshold, l1, m);
    lemma_component_members(images, threshold, l2, m);
    lemma_connected_symmetric(images, threshold, l2, m);
    lemma_connected_transitive(images, threshold, l1, m, l2);
    lemma_connected_symmetric(images, threshold, l1, l2);
    lemma_group_shape(images, threshold, k1);
    lemma_group_shape(images, threshold, k2);
    if k1 < k2 {
        assert(leaders(images, threshold)[k1] < leaders(images, threshold)[k2]);
    } else if k2 < k1 {
        assert(leaders(images, threshold)[k2] < leaders(images, threshold)[k1]);
    }
}

/// Two items are members of one group exactly when a chain of similar
/// items leads from one to the other.
pub proof fn lemma_same_group_iff_connected(images: Seq<ImageInfo>, threshold: u32, a: int, b: int)
    requires
        0 <= a < images.len(),
        0 <= b < images.len(),
    ensures
        connected(images, threshold, a, b) <==> exists|k: int|
            group_has(images, threshold, k, a) && group_has(images, threshold, k, b),
{
    if connected(images, threshold, a, b) {
        let l = leader_of(images, threshold, a);
        lemma_leader_of(images, threshold, a);
        let k = lemma_leader_position(images, threshold, l);
        lemma_connected_transitive(images, threshold, l, a, b);
        lemma_component_members(images, threshold, l, a);
        lemma_component_members(images, threshold, l, b);
        assert(group_has(images, threshold, k, a) && group_has(images, threshold, k, b));
    }
    if exists|k: int| group_has(images, threshold, k, a) && group_has(images, threshold, k, b) {
        let k = choose|k: int|
            group_has(images, threshold, k, a) && group_has(images, threshold, k, b);
        let l = leaders(images, threshold)[k];
        lemma_component_members(images, threshold, l, a);
        lemma_component_members(images, threshold, l, b);
        lemma_connected_symmetric(images, threshold, l, a);
        lemma_connected_transitive(images, threshold, a, l, b);
    }
}

/// Where item `a` is similar to item `b` and `b` to item `c`, all three are
/// members of one group, whether or not `a` and `c` are similar.
pub proof fn lemma_chain_shares_group(
    images: Seq<ImageInfo>,
    threshold: u32,
    a: int,
    b: int,
    c: int,
) -> (k: int)
    requires
        0 <= a < images.len(),
        0 <= b < images.len(),
        0 <= c < images.len(),
        similar(images, threshold, a, b),
        similar(images, threshold, b, c),
    ensures
        group_has(images, threshold, k, a),
        group_has(images, threshold, k, b),
        group_has(images, threshold, k, c),
{
    let l = leader_of(images, threshold, a);
    lemma_leader_of(images, threshold, a);
    let k = lemma_leader_position(images, threshold, l);
    lemma_similar_connected(images, threshold, a, b);
    lemma_similar_connected(images, threshold, b, c);
    lemma_connected_transitive(images, threshold, l, a, b);
    lemma_connected_transitive(images, threshold, l, b, c);
    lemma_component_members(images, threshold, l, a);
    lemma_component_members(images, threshold, l, b);
    lemma_component_members(images, threshold, l, c);
    k
}

/// The identifiers of a group are those of its members: as many, and each
/// member's among them.
pub proof fn lemma_group_paths(images: Seq<ImageInfo>, threshold: u32, k: int, m: int)
    requires
        group_has(images, threshold, k, m),
    ensures
        expected_groups(images, threshold)[k].paths.len() == component(
            images,
            threshold,
            leaders(images, threshold)[k],
        ).len(),
        expected_groups(images, threshold)[k].paths.contains(images[m].path@),
{
    lemma_group_shape(images, threshold, k);
    let members = component(images, threshold, leaders(images, threshold)[k]);
    let unsorted = member_paths(images, members);
    lemma_sorted_texts(unsorted);
    let i = choose|i: int| 0 <= i < members.len() && members[i] == m;
    assert(unsorted[i] == images[m].path@);
    assert(unsorted.contains(images[m].path@));
}

/// Among the first `n` members, some position holds the first item with
/// the most pixels.
proof fn lemma_best_position(images: Seq<ImageInfo>, members: Seq<int>, n: int) -> (p: int)
    requires
        0 < n <= members.len(),
    ensures
        0 <= p < n,
        forall|q: int|
            0 <= q < n ==> images[#[trigger] members[q]].resolution
                <= images[members[p]].resolution,
        forall|q: int|
            0 <= q < p ==> images[#[trigger] members[q]].resolution < images[members[p]].resolution,
    decreases n,
{
    if n == 1 {
        0
    } else {
        let before = lemma_best_position(images, members, n - 1);
        if images[members[n - 1]].resolution > images[members[before]].resolution {
            n - 1
        } else {
            before
        }
    }
}

/// The best of a non-empty list of members is one of them, and none of
/// them has more pixels.
pub proof fn lemma_best_is_member(images: Seq<ImageInfo>, members: Seq<int>)
    requires
        members.len() > 0,
    ensures
        members.contains(best_member(images, members)),
        forall|q: int|
            0 <= q < members.len() ==> images[#[trigger] members[q]].resolution
                <= images[best_member(images, members)].resolution,
{
    let p = lemma_best_position(images, members, members.len() as int);
    assert(is_best_at(images, members, p));
    lemma_best_unique(images, members, p);
}

/// Every group has its leader as a member, so that it is not empty; it
/// carries the fingerprint of its leader; its best member is one of its
/// members, none of which has more pixels; and its identifiers are in
/// lexicographic order.
pub proof fn lemma_group_invariants(images: Seq<ImageInfo>, threshold: u32, k: int) -> (best: int)
    requires
        0 <= k < expected_groups(images, threshold).len(),
    ensures
        group_has(images, threshold, k, leaders(images, threshold)[k]),
        expected_groups(images, threshold)[k].paths.len() > 0,
        expected_groups(images, threshold)[k].hash == hex_encode(
            images[leaders(images, threshold)[k]].hash@,
        ),
        group_has(images, threshold, k, best),
        expected_groups(images, threshold)[k].best_path == images[best].path@,
        forall|m: int|
            group_has(images, threshold, k, m) ==> images[m].resolution <= images[best].resolution,
        expected_groups(images, threshold)[k].paths.contains(
            expected_groups(images, threshold)[k].best_path,
        ),
        sorted_by(expected_groups(images, threshold)[k].paths, text_order()),
{
    assert(expected_groups(images, threshold).len() == leaders(images, threshold).len());
    lemma_group_shape(images, threshold, k);
    let l = leaders(images, threshold)[k];
    let members = component(images, threshold, l);
    lemma_component_members(images, threshold, l, l);
    lemma_connected_reflexive(images, threshold, l);
    assert(members.len() > 0) by {
        let i = choose|i: int| 0 <= i < members.len() && members[i] == l;
    }
    lemma_best_is_member(images, members);
    let best = best_member(images, members);
    lemma_group_paths(images, threshold, k, best);
    lemma_group_paths(images, threshold, k, l);
    lemma_sorted_texts(member_paths(images, members));
    assert forall|m: int| group_has(images, threshold, k, m) implies images[m].resolution
        <= images[best].resolution by {
        let q = choose|q: int| 0 <= q < members.len() && members[q] == m;
        assert(images[members[q]].resolution <= images[best].resolution);
    }
    best
}

/// Whether item `m` has no other item of the batch within the threshold.
pub open spec fn isolated(images: Seq<ImageInfo>, threshold: u32, m: int) -> bool {
    forall|j: int| 0 <= j < images.len() && j != m ==> !similar(images, threshold, m, j)
}

/// A chain that starts at an isolated item never leaves it.
proof fn lemma_chain_stays(
    images: Seq<ImageInfo>,
    threshold: u32,
    chain: Seq<int>,
    m: int,
    k: int,
)
    requires
        isolated(images, threshold, m),
        is_chain(images, threshold, chain),
        chain[0] == m,
        0 <= k < chain.len(),
    ensures
        chain[k] == m,
    decreases k,
{
    if k > 0 {
        lemma_chain_stays(images, threshold, chain, m, k - 1);
        assert(similar(images, threshold, chain[k - 1], chain[k]));
    }
}

/// An isolated item is connected to itself only.
proof fn lemma_isolated_connected(images: Seq<ImageInfo>, threshold: u32, m: int, j: int)
    requires
        isolated(images, threshold, m),
        connected(images, threshold, m, j) || connected(images, threshold, j, m),
    ensures
        j == m,
{
    if connected(images, threshold, j, m) {
        lemma_connected_symmetric(images, threshold, j, m);
    }
    let chain = choose|chain: Seq<int>|
        #[trigger] is_chain(images, threshold, chain) && chain.first() == m && chain.last() == j;
    lemma_chain_stays(images, threshold, chain, m, chain.len() - 1);
}

/// The only item connected to an isolated item is the item itself.
proof fn lemma_isolated_component(images: Seq<ImageInfo>, threshold: u32, m: int)
    requires
        0 <= m < images.len(),
        isolated(images, threshold, m),
    ensures
        component(images, threshold, m) == seq![m],
        is_leader(images, threshold, m),
{
    assert forall|j: int| 0 <= j < m implies !connected(images, threshold, j, m) by {
        if connected(images, threshold, j, m) {
            lemma_isolated_connected(images, threshold, m, j);
        }
    }
    let members = component(images, threshold, m);
    assert forall|x: int| members.contains(x) <==> x == m by {
        lemma_component_members(images, threshold, m, x);
        lemma_connected_reflexive(images, threshold, m);
        if connected(images, threshold, m, x) {
            lemma_isolated_connected(images, threshold, m, x);
        }
    }
    lemma_select_ascending(images.len() as int, connected_to(images, threshold, m));
    assert(members.contains(m));
    assert(members.len() > 0);
    assert(members.contains(members[0]));
    if members.len() >= 2 {
        assert(members.contains(members[1]));
        assert(members[0] < members[1]);
    }
    assert(members =~= seq![m]);
}

/// The group of a leader that is the only member of its group.
proof fn lemma_group_of_one(images: Seq<ImageInfo>, threshold: u32, m: int)
    requires
        component(images, threshold, m) == seq![m],
    ensures
        group_of(images, threshold, m) == (GroupView {
            paths: seq![images[m].path@],
            hash: hex_encode(images[m].hash@),
            best_path: images[m].path@,
        }),
{
    let members = component(images, threshold, m);
    let unsorted = member_paths(images, members);
    assert(unsorted =~= seq![images[m].path@]);
    lemma_sorted_texts(unsorted);
    let ordered = unsorted.sort_by(text_order());
    assert(unsorted.contains(images[m].path@)) by {
        assert(unsorted[0] == images[m].path@);
    }
    assert(ordered.contains(images[m].path@));
    assert(ordered =~= seq![images[m].path@]);
    assert(is_best_at(images, members, 0));
    lemma_best_unique(images, members, 0);
}

/// An item with no other item within the threshold is the only member of
/// its group: the group holds its identifier alone, names it as the best
/// member, and carries its fingerprint.
pub proof fn lemma_isolated_item_alone(images: Seq<ImageInfo>, threshold: u32, m: int) -> (k: int)
    requires
        0 <= m < images.len(),
        isolated(images, threshold, m),
    ensures
        0 <= k < expected_groups(images, threshold).len(),
        forall|x: int| group_has(images, threshold, k, x) <==> x == m,
        expected_groups(images, threshold)[k] == (GroupView {
            paths: seq![images[m].path@],
            hash: hex_encode(images[m].hash@),
            best_path: images[m].path@,
        }),
{
    lemma_isolated_component(images, threshold, m);
    lemma_group_of_one(images, threshold, m);
    let k = lemma_leader_position(images, threshold, m);
    lemma_group_shape(images, threshold, k);
    assert forall|x: int| group_has(images, threshold, k, x) <==> x == m by {
        assert(seq![m][0] == m);
    }
    k
}

} // verus!
