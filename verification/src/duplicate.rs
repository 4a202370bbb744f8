//! Grouping of near-duplicate images: items whose fingerprints lie within a
//! threshold of each other, directly or through a chain of such items, form
//! one group.

use vstd::prelude::*;
use vstd::relations::*;
use vstd::seq_lib::*;
use crate::connectivity::{
    connected, is_chain, lemma_connected_reflexive, lemma_connected_symmetric,
    lemma_connected_transitive, lemma_similar_connected, lemma_similar_symmetric, similar,
};
use crate::error::HashError;
use crate::hash::ImageHash;
use crate::hex::hex_encode;
use crate::select::{lemma_select_none, lemma_select_step, select};
use crate::text::{
    le, lemma_text_le_total, lemma_text_le_transitive, lemma_text_order_total, text_le, text_order,
};
use crate::union_find::DisjointSets;

verus! {

/// An image of a batch: its identifier, its fingerprint, and its number of
/// pixels.
#[derive(Debug, Clone)]
pub struct ImageInfo {
    /// The identifier of the image, such as its file path.
    pub path: String,
    /// The fingerprint of the image.
    pub hash: ImageHash,
    /// The width of the image times its height.
    pub resolution: u64,
}

/// A set of images that are near-duplicates of each other.
#[derive(Debug, Clone)]
pub struct DuplicateGroup {
    /// The identifiers of all members, in lexicographic order.
    pub paths: Vec<String>,
    /// The hexadecimal fingerprint of the member that came first in the batch.
    pub hash: String,
    /// The identifier of the member with the most pixels.
    pub best_path: String,
}

/// What a [`DuplicateGroup`] holds, as plain texts.
pub struct GroupView {
    /// The identifiers of all members, in lexicographic order.
    pub paths: Seq<Seq<char>>,
    /// The hexadecimal fingerprint of the member that came first in the batch.
    pub hash: Seq<char>,
    /// The identifier of the member with the most pixels.
    pub best_path: Seq<char>,
}

/// The texts of a sequence of strings.
pub open spec fn texts(strings: Seq<String>) -> Seq<Seq<char>> {
    strings.map_values(|s: String| s@)
}

impl View for DuplicateGroup {
    type V = GroupView;

    open spec fn view(&self) -> GroupView {
        GroupView { paths: texts(self.paths@), hash: self.hash@, best_path: self.best_path@ }
    }
}

/// The views of a sequence of groups.
pub open spec fn group_views(groups: Seq<DuplicateGroup>) -> Seq<GroupView> {
    groups.map_values(|g: DuplicateGroup| g@)
}

/// Whether all fingerprints of the batch have the same byte length.
pub open spec fn uniform(images: Seq<ImageInfo>) -> bool {
    forall|i: int, j: int|
        0 <= i < images.len() && 0 <= j < images.len() ==> (#[trigger] images[i]).hash@.len() == (
        #[trigger] images[j]).hash@.len()
}

/// Whether the sets of `sets` are exactly the classes of connected items.
pub open spec fn clusters(sets: DisjointSets, images: Seq<ImageInfo>, threshold: u32) -> bool {
    &&& sets.wf()
    &&& sets.spec_len() == images.len()
    &&& forall|a: int, b: int|
        0 <= a < images.len() && 0 <= b < images.len() ==> (#[trigger] sets.same_set(a, b)
            <==> connected(images, threshold, a, b))
}

/// Whether the sets of `sets` join all similar pairs `(a, b)` with `a < b`
/// that come before the pair `(i, j)`, and only connected items.
spec fn partly_clustered(
    sets: DisjointSets,
    images: Seq<ImageInfo>,
    threshold: u32,
    i: int,
    j: int,
) -> bool {
    &&& sets.wf()
    &&& sets.spec_len() == images.len()
    &&& forall|a: int, b: int|
        0 <= a < images.len() && 0 <= b < images.len() && #[trigger] sets.same_set(a, b)
            ==> connected(images, threshold, a, b)
    &&& forall|a: int, b: int|
        0 <= a < b < images.len() && (a < i || (a == i && b < j)) && similar(
            images,
            threshold,
            a,
            b,
        ) ==> #[trigger] sets.same_set(a, b)
    &&& forall|a: int, b: int|
        0 <= a < b < images.len() && (a < i || (a == i && b < j)) ==> (#[trigger] images[a]).hash@.len()
            == (#[trigger] images[b]).hash@.len()
}

/// Along a chain, sets that join all similar pairs join the first item with
/// every other.
proof fn lemma_chain_in_one_set(
    sets: DisjointSets,
    images: Seq<ImageInfo>,
    threshold: u32,
    chain: Seq<int>,
    k: int,
)
    requires
        partly_clustered(sets, images, threshold, images.len() as int, 0),
        is_chain(images, threshold, chain),
        0 <= k < chain.len(),
    ensures
        sets.same_set(chain[0], chain[k]),
    decreases k,
{
    if k > 0 {
        lemma_chain_in_one_set(sets, images, threshold, chain, k - 1);
        let a = chain[k - 1];
        let b = chain[k];
        assert(0 <= a < images.len() && 0 <= b < images.len());
        assert(similar(images, threshold, a, b));
        if a < b {
            assert(sets.same_set(a, b));
        } else if b < a {
            lemma_similar_symmetric(images, threshold, a, b);
            assert(sets.same_set(b, a));
        }
    }
}

/// Sets that join all similar pairs, and only connected items, are the
/// classes of connected items.
proof fn lemma_fully_clustered(sets: DisjointSets, images: Seq<ImageInfo>, threshold: u32)
    requires
        partly_clustered(sets, images, threshold, images.len() as int, 0),
    ensures
        clusters(sets, images, threshold),
        uniform(images),
{
    assert forall|a: int, b: int|
        0 <= a < images.len() && 0 <= b < images.len() && connected(
            images,
            threshold,
            a,
            b,
        ) implies #[trigger] sets.same_set(a, b) by {
        let chain = choose|chain: Seq<int>|
            #[trigger] is_chain(images, threshold, chain) && chain.first() == a && chain.last()
                == b;
        lemma_chain_in_one_set(sets, images, threshold, chain, chain.len() - 1);
    }
    assert forall|i: int, j: int| 0 <= i < images.len() && 0 <= j < images.len() implies (
    #[trigger] images[i]).hash@.len() == (#[trigger] images[j]).hash@.len() by {
        if i < j {
            assert(images[i].hash@.len() == images[j].hash@.len());
        } else if j < i {
            assert(images[j].hash@.len() == images[i].hash@.len());
        }
    }
}

/// Joins every pair of items whose fingerprints lie within `threshold` of
/// each other. Fails if two fingerprints differ in length.
pub fn cluster(images: &Vec<ImageInfo>, threshold: u32) -> (result: Result<DisjointSets, HashError>)
    requires
        forall|i: int| 0 <= i < images.len() ==> 8 * (#[trigger] images[i]).hash@.len() <= u32::MAX,
    ensures
        match result {
            Ok(sets) => uniform(images@) && clusters(sets, images@, threshold),
            Err(e) => !uniform(images@) && e == HashError::LengthMismatch,
        },
{
    let n = images.len();
    let mut sets = DisjointSets::new(n);
    proof {
        assert forall|a: int, b: int|
            0 <= a < n && 0 <= b < n && #[trigger] sets.same_set(a, b) implies connected(
            images@,
            threshold,
            a,
            b,
        ) by {
            assert(sets.rep(a) == a && sets.rep(b) == b);
            lemma_connected_reflexive(images@, threshold, a);
        }
    }
    let mut i: usize = 0;
    while i < n
        invariant
            n == images.len(),
            i <= n,
            partly_clustered(sets, images@, threshold, i as int, 0),
            forall|k: int| 0 <= k < images.len() ==> 8 * (#[trigger] images[k]).hash@.len() <= u32::MAX,
        decreases n - i,
    {
        let mut j: usize = i + 1;
        while j < n
            invariant
                n == images.len(),
                i < n,
                i < j <= n,
                partly_clustered(sets, images@, threshold, i as int, j as int),
                forall|k: int|
                    0 <= k < images.len() ==> 8 * (#[trigger] images[k]).hash@.len() <= u32::MAX,
            decreases n - j,
        {
            let ghost before = sets;
            match images[i].hash.distance(&images[j].hash) {
                Ok(d) => {
                    if d <= threshold {
                        sets.union(i, j);
                        proof {
                            lemma_similar_connected(images@, threshold, i as int, j as int);
                            lemma_connected_symmetric(images@, threshold, i as int, j as int);
                            assert forall|a: int, b: int|
                                0 <= a < n && 0 <= b < n && #[trigger] sets.same_set(
                                    a,
                                    b,
                                ) implies connected(images@, threshold, a, b) by {
                                if before.same_set(a, b) {
                                } else if before.same_set(a, i as int) && before.same_set(
                                    j as int,
                                    b,
                                ) {
                                    lemma_connected_transitive(
                                        images@,
                                        threshold,
                                        a,
                                        i as int,
                                        j as int,
                                    );
                                    lemma_connected_transitive(images@, threshold, a, j as int, b);
                                } else {
                                    assert(before.same_set(a, j as int) && before.same_set(
                                        i as int,
                                        b,
                                    ));
                                    lemma_connected_transitive(
                                        images@,
                                        threshold,
                                        a,
                                        j as int,
                                        i as int,
                                    );
                                    lemma_connected_transitive(images@, threshold, a, i as int, b);
                                }
                            }
                            assert forall|a: int, b: int|
                                0 <= a < b < n && (a < i || (a == i && b < j + 1)) && similar(
                                    images@,
                                    threshold,
                                    a,
                                    b,
                                ) implies #[trigger] sets.same_set(a, b) by {
                                if a == i && b == j {
                                    assert(before.same_set(a, i as int));
                                    assert(before.same_set(j as int, b));
                                } else {
                                    assert(before.same_set(a, b));
                                }
                            }
                        }
                    }
                },
                Err(e) => {
                    return Err(e);
                },
            }
            j = j + 1;
        }
        i = i + 1;
    }
    proof {
        lemma_fully_clustered(sets, images@, threshold);
    }
    Ok(sets)
}

/// The predicate "is connected to item `l`".
pub open spec fn connected_to(images: Seq<ImageInfo>, threshold: u32, l: int) -> spec_fn(int) -> bool {
    |j: int| connected(images, threshold, l, j)
}

/// All items that are connected to item `l`, ascending.
pub open spec fn component(images: Seq<ImageInfo>, threshold: u32, l: int) -> Seq<int> {
    select(images.len() as int, connected_to(images, threshold, l))
}

/// Whether no item before `l` is connected to item `l`: `l` is the first
/// item of its group.
pub open spec fn is_leader(images: Seq<ImageInfo>, threshold: u32, l: int) -> bool {
    forall|j: int| 0 <= j < l ==> !connected(images, threshold, j, l)
}

/// The predicate "is the first item of its group".
pub open spec fn leading(images: Seq<ImageInfo>, threshold: u32) -> spec_fn(int) -> bool {
    |l: int| is_leader(images, threshold, l)
}

/// The first items of all groups, ascending.
pub open spec fn leaders(images: Seq<ImageInfo>, threshold: u32) -> Seq<int> {
    select(images.len() as int, leading(images, threshold))
}

/// Whether position `p` of `members` holds the first item with the greatest
/// number of pixels.
pub open spec fn is_best_at(images: Seq<ImageInfo>, members: Seq<int>, p: int) -> bool {
    &&& 0 <= p < members.len()
    &&& forall|q: int|
        0 <= q < members.len() ==> images[#[trigger] members[q]].resolution
            <= images[members[p]].resolution
    &&& forall|q: int|
        0 <= q < p ==> images[#[trigger] members[q]].resolution < images[members[p]].resolution
}

/// The first of `members` with the greatest number of pixels.
pub open spec fn best_member(images: Seq<ImageInfo>, members: Seq<int>) -> int {
    members[choose|p: int| is_best_at(images, members, p)]
}

/// The identifiers of `members`, in their order.
pub open spec fn member_paths(images: Seq<ImageInfo>, members: Seq<int>) -> Seq<Seq<char>> {
    members.map_values(|m: int| images[m].path@)
}

/// The group of the leader `l`: the identifiers of the items connected to
/// it in lexicographic order, the fingerprint of `l` itself, and the
/// identifier of the first member with the most pixels.
pub open spec fn group_of(images: Seq<ImageInfo>, threshold: u32, l: int) -> GroupView {
    let members = component(images, threshold, l);
    GroupView {
        paths: member_paths(images, members).sort_by(text_order()),
        hash: hex_encode(images[l].hash@),
        best_path: images[best_member(images, members)].path@,
    }
}

/// The groups of the given leaders, in their order.
pub open spec fn groups_of(images: Seq<ImageInfo>, threshold: u32, first: Seq<int>) -> Seq<
    GroupView,
> {
    first.map_values(|l: int| group_of(images, threshold, l))
}

/// The groups of a batch: one for each class of connected items, in the
/// order in which their first items stand in the batch.
pub open spec fn expected_groups(images: Seq<ImageInfo>, threshold: u32) -> Seq<GroupView> {
    groups_of(images, threshold, leaders(images, threshold))
}

/// Only one position holds the first item with the most pixels.
pub proof fn lemma_best_unique(images: Seq<ImageInfo>, members: Seq<int>, p: int)
    requires
        is_best_at(images, members, p),
    ensures
        best_member(images, members) == members[p],
{
    let c = choose|c: int| is_best_at(images, members, c);
    if c < p {
        assert(images[members[c]].resolution < images[members[p]].resolution);
        assert(images[members[p]].resolution <= images[members[c]].resolution);
    } else if p < c {
        assert(images[members[p]].resolution < images[members[c]].resolution);
        assert(images[members[c]].resolution <= images[members[p]].resolution);
    }
}

/// The indices of a sequence of machine integers.
pub open spec fn ints(values: Seq<usize>) -> Seq<int> {
    values.map_values(|v: usize| v as int)
}

/// Collects the items that are in one set with `leader`, ascending.
fn members_of(
    sets: &mut DisjointSets,
    leader: usize,
    Ghost(images): Ghost<Seq<ImageInfo>>,
    Ghost(threshold): Ghost<u32>,
) -> (members: Vec<usize>)
    requires
        clusters(*old(sets), images, threshold),
        leader < images.len(),
    ensures
        final(sets).wf(),
        final(sets).spec_len() == old(sets).spec_len(),
        forall|k: int| 0 <= k < images.len() ==> #[trigger] final(sets).rep(k) == old(sets).rep(k),
        ints(members@) == component(images, threshold, leader as int),
        forall|k: int| 0 <= k < members.len() ==> #[trigger] members[k] < images.len(),
        members.len() > 0,
{
    let n = sets.len();
    let root = sets.find(leader);
    let mut members: Vec<usize> = Vec::new();
    let mut j: usize = 0;
    proof {
        lemma_select_none(connected_to(images, threshold, leader as int));
        assert(ints(members@) =~= Seq::<int>::empty());
    }
    while j < n
        invariant
            n == images.len(),
            j <= n,
            leader < n,
            clusters(*old(sets), images, threshold),
            sets.wf(),
            sets.spec_len() == n,
            forall|k: int| 0 <= k < n ==> #[trigger] sets.rep(k) == old(sets).rep(k),
            root == old(sets).rep(leader as int),
            ints(members@) == select(j as int, connected_to(images, threshold, leader as int)),
            forall|k: int| 0 <= k < members.len() ==> #[trigger] members[k] < n,
            j > leader ==> members.len() > 0,
        decreases n - j,
    {
        let r = sets.find(j);
        proof {
            lemma_select_step(j as int, connected_to(images, threshold, leader as int));
            assert(old(sets).same_set(leader as int, j as int) <==> connected(
                images,
                threshold,
                leader as int,
                j as int,
            ));
            if j == leader {
                lemma_connected_reflexive(images, threshold, leader as int);
            }
        }
        if r == root {
            let ghost before = members@;
            members.push(j);
            proof {
                assert(ints(members@) =~= ints(before).push(j as int));
            }
        }
        j = j + 1;
    }
    members
}

/// The identifiers of `members` in lexicographic order.
fn sorted_paths(images: &Vec<ImageInfo>, members: &Vec<usize>) -> (paths: Vec<String>)
    requires
        forall|k: int| 0 <= k < members.len() ==> #[trigger] members[k] < images.len(),
    ensures
        texts(paths@) == member_paths(images@, ints(members@)).sort_by(text_order()),
{
    let ghost all = member_paths(images@, ints(members@));
    let mut paths: Vec<String> = Vec::new();
    let mut i: usize = 0;
    proof {
        assert(all.take(0) =~= texts(paths@));
    }
    while i < members.len()
        invariant
            i <= members.len(),
            all == member_paths(images@, ints(members@)),
            forall|k: int| 0 <= k < members.len() ==> #[trigger] members[k] < images.len(),
            sorted_by(texts(paths@), text_order()),
            texts(paths@).to_multiset() == all.take(i as int).to_multiset(),
        decreases members.len() - i,
    {
        let path = &images[members[i]].path;
        let mut k: usize = 0;
        while k < paths.len() && le(paths[k].as_str(), path.as_str())
            invariant
                k <= paths.len(),
                forall|q: int| 0 <= q < k ==> text_le(#[trigger] texts(paths@)[q], path@),
            decreases paths.len() - k,
        {
            k = k + 1;
        }
        let ghost before = texts(paths@);
        paths.insert(k, path.clone());
        proof {
            let after = texts(paths@);
            assert(after =~= before.insert(k as int, path@));
            assert forall|a: int, b: int| 0 <= a < b < after.len() implies #[trigger] text_order()(
                after[a],
                after[b],
            ) by {
                if b == k {
                    assert(text_le(before[a], path@));
                } else if a == k {
                    assert(!text_le(before[k as int], path@));
                    lemma_text_le_total(before[k as int], path@);
                    if b - 1 > k {
                        assert(text_order()(before[k as int], before[b - 1]));
                        lemma_text_le_transitive(path@, before[k as int], before[b - 1]);
                    }
                } else {
                    let a0 = if a < k { a } else { a - 1 };
                    let b0 = if b < k { b } else { b - 1 };
                    assert(text_order()(before[a0], before[b0]));
                }
            }
            to_multiset_insert(before, k as int, path@);
            assert(all.take(i + 1) =~= all.take(i as int).push(path@));
            to_multiset_build(all.take(i as int), path@);
        }
        i = i + 1;
    }
    proof {
        assert(all.take(i as int) =~= all);
        lemma_text_order_total();
        all.lemma_sort_by_ensures(text_order());
        lemma_sorted_unique(texts(paths@), all.sort_by(text_order()), text_order());
    }
    paths
}

/// The first of `members` with the greatest number of pixels.
fn best_of(images: &Vec<ImageInfo>, members: &Vec<usize>) -> (best: usize)
    requires
        members.len() > 0,
        forall|k: int| 0 <= k < members.len() ==> #[trigger] members[k] < images.len(),
    ensures
        best < images.len(),
        best == best_member(images@, ints(members@)),
{
    let mut p: usize = 0;
    let mut k: usize = 1;
    while k < members.len()
        invariant
            0 <= p < k <= members.len(),
            forall|q: int| 0 <= q < members.len() ==> #[trigger] members[q] < images.len(),
            forall|q: int|
                0 <= q < k ==> images[#[trigger] members[q] as int].resolution
                    <= images[members[p as int] as int].resolution,
            forall|q: int|
                0 <= q < p ==> images[#[trigger] members[q] as int].resolution
                    < images[members[p as int] as int].resolution,
        decreases members.len() - k,
    {
        if images[members[k]].resolution > images[members[p]].resolution {
            p = k;
        }
        k = k + 1;
    }
    proof {
        let m = ints(members@);
        assert forall|q: int| 0 <= q < m.len() implies images@[#[trigger] m[q]].resolution
            <= images@[m[p as int]].resolution by {
            assert(m[q] == members[q]);
        }
        assert forall|q: int| 0 <= q < p implies images@[#[trigger] m[q]].resolution
            < images@[m[p as int]].resolution by {
            assert(m[q] == members[q]);
        }
        lemma_best_unique(images@, m, p as int);
    }
    members[p]
}

/// Groups the images of a batch into sets of near-duplicates.
///
/// Two images are in one group exactly when a chain of images leads from
/// one to the other in which each fingerprint lies within `threshold` of
/// the next. Every image is in one group, alone if it has no such
/// neighbour. The groups come in the order in which their first images
/// stand in the batch.
///
/// A batch with fingerprints of different lengths is rejected as a whole
/// with [`HashError::LengthMismatch`].
pub fn group_duplicates(images: Vec<ImageInfo>, threshold: u32) -> (result: Result<
    Vec<DuplicateGroup>,
    HashError,
>)
    requires
        forall|i: int| 0 <= i < images.len() ==> 8 * (#[trigger] images[i]).hash@.len() <= u32::MAX,
    ensures
        match result {
            Ok(groups) => {
                &&& uniform(images@)
                &&& group_views(groups@) == expected_groups(images@, threshold)
                &&& groups.len() == leaders(images@, threshold).len()
            },
            Err(e) => !uniform(images@) && e == HashError::LengthMismatch,
        },
        images.len() == 0 ==> result is Ok && result->Ok_0.len() == 0,
{
    let n = images.len();
    let mut sets = match cluster(&images, threshold) {
        Ok(sets) => sets,
        Err(e) => {
            return Err(e);
        },
    };
    let ghost start = sets;
    let mut seen: Vec<bool> = Vec::new();
    let mut z: usize = 0;
    while z < n
        invariant
            z <= n,
            seen@.len() == z,
            forall|k: int| 0 <= k < z ==> !(#[trigger] seen@[k]),
        decreases n - z,
    {
        seen.push(false);
        z = z + 1;
    }
    let mut groups: Vec<DuplicateGroup> = Vec::new();
    let mut i: usize = 0;
    proof {
        lemma_select_none(leading(images@, threshold));
        assert(group_views(groups@) =~= groups_of(
            images@,
            threshold,
            select(0, leading(images@, threshold)),
        ));
    }
    while i < n
        invariant
            n == images.len(),
            i <= n,
            clusters(start, images@, threshold),
            sets.wf(),
            sets.spec_len() == n,
            forall|k: int| 0 <= k < n ==> #[trigger] sets.rep(k) == start.rep(k),
            seen@.len() == n,
            forall|r: int|
                0 <= r < n ==> (#[trigger] seen@[r] <==> exists|k: int|
                    0 <= k < i && #[trigger] start.rep(k) == r),
            group_views(groups@) == groups_of(
                images@,
                threshold,
                select(i as int, leading(images@, threshold)),
            ),
        decreases n - i,
    {
        let r = sets.find(i);
        proof {
            lemma_select_step(i as int, leading(images@, threshold));
            start.lemma_rep(i as int);
            if seen@[r as int] {
                let k = choose|k: int| 0 <= k < i && #[trigger] start.rep(k) == r;
                assert(start.same_set(k, i as int));
                assert(!is_leader(images@, threshold, i as int));
            } else {
                assert forall|j: int| 0 <= j < i implies !connected(
                    images@,
                    threshold,
                    j,
                    i as int,
                ) by {
                    assert(start.same_set(j, i as int) <==> connected(
                        images@,
                        threshold,
                        j,
                        i as int,
                    ));
                    assert(start.rep(j) != r);
                }
            }
        }
        if !seen[r] {
            proof {
                assert forall|a: int, b: int|
                    0 <= a < n && 0 <= b < n implies (#[trigger] sets.same_set(a, b) <==> connected(
                    images@,
                    threshold,
                    a,
                    b,
                )) by {
                    assert(start.same_set(a, b) <==> connected(images@, threshold, a, b));
                }
            }
            let ghost mid = sets;
            let members = members_of(&mut sets, i, Ghost(images@), Ghost(threshold));
            proof {
                assert forall|k: int| 0 <= k < n implies #[trigger] sets.rep(k) == start.rep(k) by {
                    assert(mid.rep(k) == start.rep(k));
                }
            }
            let paths = sorted_paths(&images, &members);
            let best = best_of(&images, &members);
            let group = DuplicateGroup {
                paths,
                hash: images[i].hash.to_hex(),
                best_path: images[best].path.clone(),
            };
            assert(group@ == group_of(images@, threshold, i as int));
            let ghost before = groups@;
            let ghost added = group@;
            groups.push(group);
            proof {
                assert(group_views(groups@) =~= group_views(before).push(added));
                assert(groups_of(
                    images@,
                    threshold,
                    select(i as int, leading(images@, threshold)).push(i as int),
                ) =~= groups_of(
                    images@,
                    threshold,
                    select(i as int, leading(images@, threshold)),
                ).push(added));
            }
        }
        let ghost seen_before = seen@;
        seen.set(r, true);
        proof {
            assert forall|q: int| 0 <= q < n implies (#[trigger] seen@[q] <==> exists|k: int|
                0 <= k < i + 1 && #[trigger] start.rep(k) == q) by {
                if q == r {
                    assert(start.rep(i as int) == q);
                } else {
                    if seen_before[q] {
                        let k = choose|k: int| 0 <= k < i && #[trigger] start.rep(k) == q;
                        assert(0 <= k < i + 1 && start.rep(k) == q);
                    }
                    if exists|k: int| 0 <= k < i + 1 && #[trigger] start.rep(k) == q {
                        let k = choose|k: int| 0 <= k < i + 1 && #[trigger] start.rep(k) == q;
                        assert(k != i);
                        assert(0 <= k < i && start.rep(k) == q);
                    }
                }
            }
        }
        i = i + 1;
    }
    assert(group_views(groups@).len() == groups@.len());
    proof {
        if n == 0 {
            lemma_select_none(leading(images@, threshold));
        }
    }
    Ok(groups)
}

/// The predicate "has more than one member".
pub open spec fn has_duplicates() -> spec_fn(DuplicateGroup) -> bool {
    |group: DuplicateGroup| group.paths@.len() > 1
}

/// Keeps the groups with more than one member, in their order: the sets of
/// true duplicates.
pub fn duplicates_only(groups: Vec<DuplicateGroup>) -> (kept: Vec<DuplicateGroup>)
    ensures
        kept@ == groups@.filter(has_duplicates()),
{
    let mut kept: Vec<DuplicateGroup> = Vec::new();
    proof {
        reveal(Seq::filter);
        assert(groups@.take(0).filter(has_duplicates()) =~= kept@);
    }
    for group in rest: groups.into_iter()
        invariant
            kept@ == groups@.take(rest.index() as int).filter(has_duplicates()),
            rest.seq() == groups@,
    {
        proof {
            reveal(Seq::filter);
            let i = rest.index() as int;
            assert(groups@.take(i + 1).drop_last() =~= groups@.take(i));
        }
        if group.paths.len() > 1 {
            kept.push(group);
        }
    }
    proof {
        assert(groups@.take(groups@.len() as int) =~= groups@);
    }
    kept
}

/// The pixel count of an image of the given width and height.
pub fn pixel_count(width: u32, height: u32) -> (pixels: u64)
    ensures
        pixels == width * height,
{
    assert(width * height <= 0xffff_ffff * 0xffff_ffff) by (nonlinear_arith)
        requires
            width <= 0xffff_ffff,
            height <= 0xffff_ffff,
    ;
    (width as u64) * (height as u64)
}

} // verus!
