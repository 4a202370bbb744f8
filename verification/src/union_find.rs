//! A disjoint-set forest over the indices `0..n`, with union by rank and
//! path compression.

use vstd::prelude::*;

verus! {

/// The number of indices that are their own parent.
pub closed spec fn root_count(parent: Seq<usize>) -> nat
    decreases parent.len(),
{
    if parent.len() == 0 {
        0
    } else {
        root_count(parent.drop_last()) + if parent.last() == parent.len() - 1 {
            1nat
        } else {
            0nat
        }
    }
}

/// Redirecting one index changes the number of roots by what that index
/// was and what it becomes.
proof fn lemma_root_count_update(parent: Seq<usize>, i: int, p: usize)
    requires
        0 <= i < parent.len(),
    ensures
        root_count(parent.update(i, p)) + (if parent[i] == i { 1nat } else { 0nat })
            == root_count(parent) + (if p == i { 1nat } else { 0nat }),
    decreases parent.len(),
{
    let updated = parent.update(i, p);
    if i == parent.len() - 1 {
        assert(updated.drop_last() =~= parent.drop_last());
    } else {
        assert(updated.drop_last() =~= parent.drop_last().update(i, p));
        lemma_root_count_update(parent.drop_last(), i, p);
    }
}

/// A forest with a root has a positive root count.
proof fn lemma_root_count_positive(parent: Seq<usize>, i: int)
    requires
        0 <= i < parent.len(),
        parent[i] == i,
    ensures
        root_count(parent) >= 1,
    decreases parent.len(),
{
    if i < parent.len() - 1 {
        lemma_root_count_positive(parent.drop_last(), i);
    }
}

/// A forest in which every index is its own parent has as many roots as
/// indices.
proof fn lemma_root_count_identity(parent: Seq<usize>)
    requires
        forall|i: int| 0 <= i < parent.len() ==> #[trigger] parent[i] == i,
    ensures
        root_count(parent) == parent.len(),
    decreases parent.len(),
{
    if parent.len() > 0 {
        lemma_root_count_identity(parent.drop_last());
    }
}

/// The shape that `parent` and `rank` keep: parents are indices, ranks grow
/// strictly towards the root, and no rank exceeds the number of merges made
/// so far.
pub closed spec fn forest(parent: Seq<usize>, rank: Seq<usize>) -> bool {
    &&& parent.len() == rank.len()
    &&& forall|i: int| 0 <= i < parent.len() ==> (#[trigger] parent[i]) < parent.len()
    &&& forall|i: int|
        0 <= i < parent.len() && (#[trigger] parent[i]) != i ==> rank[i] < rank[parent[i] as int]
    &&& forall|i: int|
        0 <= i < parent.len() ==> (#[trigger] rank[i]) + root_count(parent) <= parent.len()
}

/// The root of the tree that holds index `i`.
pub closed spec fn root(parent: Seq<usize>, rank: Seq<usize>, i: int) -> int
    decreases parent.len() - rank[i],
    when forest(parent, rank) && 0 <= i < parent.len()
{
    if parent[i] == i {
        i
    } else {
        root(parent, rank, parent[i] as int)
    }
}

/// The root of an index is an index, is its own parent, and has at least
/// the rank of the index.
proof fn lemma_root_is_root(parent: Seq<usize>, rank: Seq<usize>, i: int)
    requires
        forest(parent, rank),
        0 <= i < parent.len(),
    ensures
        0 <= root(parent, rank, i) < parent.len(),
        parent[root(parent, rank, i)] == root(parent, rank, i),
        rank[i] <= rank[root(parent, rank, i)],
        parent[i] != i ==> rank[i] < rank[root(parent, rank, i)],
    decreases parent.len() - rank[i],
{
    if parent[i] != i {
        lemma_root_is_root(parent, rank, parent[i] as int);
    }
}

/// Pointing a non-root index straight at its root keeps the forest and
/// every root.
proof fn lemma_compress(parent: Seq<usize>, rank: Seq<usize>, i: int, k: int)
    requires
        forest(parent, rank),
        0 <= i < parent.len(),
        0 <= k < parent.len(),
        parent[i] != i,
    ensures
        forest(parent.update(i, root(parent, rank, i) as usize), rank),
        root(parent.update(i, root(parent, rank, i) as usize), rank, k) == root(parent, rank, k),
    decreases parent.len() - rank[k],
{
    let r = root(parent, rank, i);
    lemma_root_is_root(parent, rank, i);
    let after = parent.update(i, r as usize);
    lemma_root_count_update(parent, i, r as usize);
    assert(forest(after, rank));
    if parent[k] == k {
    } else if k == i {
        assert(root(after, rank, r) == r);
    } else {
        lemma_compress(parent, rank, i, parent[k] as int);
    }
}

/// Hanging the root `x` below the root `y` sends the indices of the tree
/// of `x` to `y` and leaves every other root.
proof fn lemma_link(
    parent: Seq<usize>,
    rank: Seq<usize>,
    after_rank: Seq<usize>,
    x: int,
    y: int,
    k: int,
)
    requires
        forest(parent, rank),
        0 <= x < parent.len(),
        0 <= y < parent.len(),
        0 <= k < parent.len(),
        x != y,
        parent[x] == x,
        parent[y] == y,
        forest(parent.update(x, y as usize), after_rank),
        forall|m: int| 0 <= m < parent.len() ==> rank[m] <= #[trigger] after_rank[m],
    ensures
        root(parent.update(x, y as usize), after_rank, k) == if root(parent, rank, k) == x {
            y
        } else {
            root(parent, rank, k)
        },
    decreases parent.len() - rank[k],
{
    let after = parent.update(x, y as usize);
    if k == x {
        assert(root(after, after_rank, y) == y);
    } else if parent[k] == k {
    } else {
        lemma_link(parent, rank, after_rank, x, y, parent[k] as int);
    }
}

/// A partition of the indices `0..len` into disjoint sets, each with one
/// representative.
pub struct DisjointSets {
    parent: Vec<usize>,
    rank: Vec<usize>,
}

impl DisjointSets {
    /// The invariant of the structure.
    pub closed spec fn wf(&self) -> bool {
        forest(self.parent@, self.rank@)
    }

    /// The number of indices.
    pub closed spec fn spec_len(&self) -> nat {
        self.parent@.len()
    }

    /// The representative of the set that holds `i`.
    pub closed spec fn rep(&self, i: int) -> int {
        root(self.parent@, self.rank@, i)
    }

    /// Whether `a` and `b` are in one set.
    pub open spec fn same_set(&self, a: int, b: int) -> bool {
        self.rep(a) == self.rep(b)
    }

    /// Representatives are indices and represent themselves.
    pub proof fn lemma_rep(&self, i: int)
        requires
            self.wf(),
            0 <= i < self.spec_len(),
        ensures
            0 <= self.rep(i) < self.spec_len(),
            self.rep(self.rep(i)) == self.rep(i),
    {
        lemma_root_is_root(self.parent@, self.rank@, i);
        lemma_root_is_root(self.parent@, self.rank@, self.rep(i));
    }

    /// The partition of `0..n` into singletons.
    pub fn new(n: usize) -> (sets: DisjointSets)
        ensures
            sets.wf(),
            sets.spec_len() == n,
            forall|i: int| 0 <= i < n ==> #[trigger] sets.rep(i) == i,
    {
        let mut parent: Vec<usize> = Vec::new();
        let mut rank: Vec<usize> = Vec::new();
        let mut i: usize = 0;
        while i < n
            invariant
                i <= n,
                parent@.len() == i,
                rank@.len() == i,
                forall|k: int| 0 <= k < i ==> #[trigger] parent@[k] == k,
                forall|k: int| 0 <= k < i ==> #[trigger] rank@[k] == 0,
            decreases n - i,
        {
            parent.push(i);
            rank.push(0);
            i = i + 1;
        }
        proof {
            lemma_root_count_identity(parent@);
        }
        DisjointSets { parent, rank }
    }

    /// The number of indices.
    pub fn len(&self) -> (n: usize)
        ensures
            n == self.spec_len(),
    {
        self.parent.len()
    }

    /// Finds the representative of `i` and points every index on the way
    /// straight at it.
    fn compress(&mut self, i: usize) -> (r: usize)
        requires
            old(self).wf(),
            i < old(self).spec_len(),
        ensures
            final(self).wf(),
            final(self).rank@ == old(self).rank@,
            final(self).parent@.len() == old(self).parent@.len(),
            r == old(self).rep(i as int),
            r < old(self).spec_len(),
            final(self).parent@[r as int] == r,
            forall|k: int|
                0 <= k < old(self).spec_len() ==> #[trigger] final(self).rep(k) == old(self).rep(k),
        decreases old(self).parent@.len() - old(self).rank@[i as int],
    {
        let p = self.parent[i];
        if p == i {
            return i;
        }
        let r = self.compress(p);
        let ghost mid = *self;
        proof {
            let parent = self.parent@;
            let rank = self.rank@;
            assert(old(self).rep(i as int) == old(self).rep(p as int));
            lemma_root_is_root(old(self).parent@, old(self).rank@, i as int);
            assert(mid.rep(i as int) == r);
            assert(parent[i as int] != i);
            lemma_compress(parent, rank, i as int, i as int);
        }
        self.parent.set(i, r);
        proof {
            assert forall|k: int| 0 <= k < old(self).spec_len() implies #[trigger] self.rep(k)
                == old(self).rep(k) by {
                lemma_compress(mid.parent@, mid.rank@, i as int, k);
                assert(mid.rep(k) == old(self).rep(k));
            }
        }
        r
    }

    /// The representative of the set that holds `i`. The partition is left
    /// as it was.
    pub fn find(&mut self, i: usize) -> (r: usize)
        requires
            old(self).wf(),
            i < old(self).spec_len(),
        ensures
            final(self).wf(),
            final(self).spec_len() == old(self).spec_len(),
            r == old(self).rep(i as int),
            r < old(self).spec_len(),
            forall|k: int|
                0 <= k < old(self).spec_len() ==> #[trigger] final(self).rep(k) == old(self).rep(k),
    {
        self.compress(i)
    }

    /// Merges the set of `i` with the set of `j`.
    pub fn union(&mut self, i: usize, j: usize)
        requires
            old(self).wf(),
            i < old(self).spec_len(),
            j < old(self).spec_len(),
        ensures
            final(self).wf(),
            final(self).spec_len() == old(self).spec_len(),
            forall|a: int, b: int|
                0 <= a < old(self).spec_len() && 0 <= b < old(self).spec_len() ==> (
                #[trigger] final(self).same_set(a, b) <==> {
                    ||| old(self).same_set(a, b)
                    ||| old(self).same_set(a, i as int) && old(self).same_set(j as int, b)
                    ||| old(self).same_set(a, j as int) && old(self).same_set(i as int, b)
                }),
    {
        let pi = self.compress(i);
        let ghost first = *self;
        let pj = self.compress(j);
        let ghost mid = *self;
        proof {
            assert forall|k: int| 0 <= k < mid.spec_len() implies #[trigger] mid.rep(k) == old(
                self,
            ).rep(k) by {
                assert(first.rep(k) == old(self).rep(k));
            }
            assert(mid.rep(i as int) == pi);
            assert(mid.rep(j as int) == pj);
        }
        if pi == pj {
            return ;
        }
        let ghost parent = self.parent@;
        let ghost rank = self.rank@;
        let n = self.parent.len();
        let rank_i = self.rank[pi];
        let rank_j = self.rank[pj];
        proof {
            lemma_root_is_root(parent, rank, i as int);
            lemma_root_is_root(parent, rank, j as int);
        }
        if rank_i < rank_j {
            proof {
                lemma_root_count_update(parent, pi as int, pj);
            }
            self.parent.set(pi, pj);
            proof {
                assert forall|k: int| 0 <= k < n implies #[trigger] self.rep(k) == if mid.rep(k)
                    == pi {
                    pj as int
                } else {
                    mid.rep(k)
                } by {
                    lemma_link(parent, rank, rank, pi as int, pj as int, k);
                }
            }
        } else {
            proof {
                lemma_root_count_update(parent, pj as int, pi);
                lemma_root_count_positive(parent, pi as int);
                assert(rank[pi as int] + root_count(parent) <= n);
            }
            if rank_i == rank_j {
                self.rank.set(pi, rank_i + 1);
            }
            self.parent.set(pj, pi);
            proof {
                assert forall|k: int| 0 <= k < n implies #[trigger] self.rep(k) == if mid.rep(k)
                    == pj {
                    pi as int
                } else {
                    mid.rep(k)
                } by {
                    lemma_link(parent, rank, self.rank@, pj as int, pi as int, k);
                }
            }
        }
        proof {
            assert forall|a: int, b: int|
                0 <= a < old(self).spec_len() && 0 <= b < old(self).spec_len() implies (
            #[trigger] self.same_set(a, b) <==> {
                ||| old(self).same_set(a, b)
                ||| old(self).same_set(a, i as int) && old(self).same_set(j as int, b)
                ||| old(self).same_set(a, j as int) && old(self).same_set(i as int, b)
            }) by {
                assert(mid.rep(a) == old(self).rep(a));
                assert(mid.rep(b) == old(self).rep(b));
                assert(mid.rep(i as int) == old(self).rep(i as int));
                assert(mid.rep(j as int) == old(self).rep(j as int));
            }
        }
    }
}

} // verus!
