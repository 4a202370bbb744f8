//! Similarity of the items of a batch, and the chains of similar items that
//! connect them.

use vstd::prelude::*;
use crate::bits::{hamming, lemma_hamming_symmetric};
use crate::duplicate::ImageInfo;

verus! {

/// Whether the items `i` and `j` have fingerprints of one length that lie
/// within `threshold` of each other.
pub open spec fn similar(images: Seq<ImageInfo>, threshold: u32, i: int, j: int) -> bool {
    &&& images[i].hash@.len() == images[j].hash@.len()
    &&& hamming(images[i].hash@, images[j].hash@) <= threshold
}

/// Whether `chain` is a non-empty sequence of items of the batch in which
/// each is similar to the next.
pub open spec fn is_chain(images: Seq<ImageInfo>, threshold: u32, chain: Seq<int>) -> bool {
    &&& chain.len() > 0
    &&& forall|k: int| 0 <= k < chain.len() ==> 0 <= #[trigger] chain[k] < images.len()
    &&& forall|k: int|
        0 <= k < chain.len() - 1 ==> similar(images, threshold, #[trigger] chain[k], chain[k + 1])
}

/// Whether a chain of similar items leads from item `i` to item `j`.
pub open spec fn connected(images: Seq<ImageInfo>, threshold: u32, i: int, j: int) -> bool {
    exists|chain: Seq<int>|
        #[trigger] is_chain(images, threshold, chain) && chain.first() == i && chain.last() == j
}

/// Similarity does not depend on the order of the two items.
pub proof fn lemma_similar_symmetric(images: Seq<ImageInfo>, threshold: u32, i: int, j: int)
    requires
        similar(images, threshold, i, j),
    ensures
        similar(images, threshold, j, i),
{
    lemma_hamming_symmetric(images[i].hash@, images[j].hash@);
}

/// Every item is connected to itself.
pub proof fn lemma_connected_reflexive(images: Seq<ImageInfo>, threshold: u32, i: int)
    requires
        0 <= i < images.len(),
    ensures
        connected(images, threshold, i, i),
{
    assert(is_chain(images, threshold, seq![i]));
}

/// Similar items are connected.
pub proof fn lemma_similar_connected(images: Seq<ImageInfo>, threshold: u32, i: int, j: int)
    requires
        0 <= i < images.len(),
        0 <= j < images.len(),
        similar(images, threshold, i, j),
    ensures
        connected(images, threshold, i, j),
{
    assert(is_chain(images, threshold, seq![i, j]));
}

/// Connected items are items of the batch.
pub proof fn lemma_connected_in_range(images: Seq<ImageInfo>, threshold: u32, i: int, j: int)
    requires
        connected(images, threshold, i, j),
    ensures
        0 <= i < images.len(),
        0 <= j < images.len(),
{
    let chain = choose|chain: Seq<int>|
        #[trigger] is_chain(images, threshold, chain) && chain.first() == i && chain.last() == j;
    assert(0 <= chain[0] < images.len());
    assert(0 <= chain[chain.len() - 1] < images.len());
}

/// A chain read backwards is a chain.
pub proof fn lemma_connected_symmetric(images: Seq<ImageInfo>, threshold: u32, i: int, j: int)
    requires
        connected(images, threshold, i, j),
    ensures
        connected(images, threshold, j, i),
{
    let chain = choose|chain: Seq<int>|
        #[trigger] is_chain(images, threshold, chain) && chain.first() == i && chain.last() == j;
    let back = chain.reverse();
    assert forall|k: int| 0 <= k < back.len() - 1 implies similar(
        images,
        threshold,
        #[trigger] back[k],
        back[k + 1],
    ) by {
        let m = chain.len() - 2 - k;
        assert(similar(images, threshold, chain[m], chain[m + 1]));
        lemma_similar_symmetric(images, threshold, chain[m], chain[m + 1]);
    }
    assert(is_chain(images, threshold, back));
}

/// Two chains that meet make one chain.
pub proof fn lemma_connected_transitive(
    images: Seq<ImageInfo>,
    threshold: u32,
    i: int,
    j: int,
    k: int,
)
    requires
        connected(images, threshold, i, j),
        connected(images, threshold, j, k),
    ensures
        connected(images, threshold, i, k),
{
    let left = choose|chain: Seq<int>|
        #[trigger] is_chain(images, threshold, chain) && chain.first() == i && chain.last() == j;
    let right = choose|chain: Seq<int>|
        #[trigger] is_chain(images, threshold, chain) && chain.first() == j && chain.last() == k;
    let whole = left.drop_last() + right;
    assert forall|m: int| 0 <= m < whole.len() - 1 implies similar(
        images,
        threshold,
        #[trigger] whole[m],
        whole[m + 1],
    ) by {
        if m < left.len() - 2 {
            assert(similar(images, threshold, left[m], left[m + 1]));
        } else if m == left.len() - 2 {
            assert(similar(images, threshold, left[m], left[m + 1]));
            assert(whole[m + 1] == right[0]);
        } else {
            let r = m - (left.len() - 1);
            assert(similar(images, threshold, right[r], right[r + 1]));
        }
    }
    assert(is_chain(images, threshold, whole));
    assert(whole.first() == i) by {
        if left.len() == 1 {
            assert(whole[0] == right[0]);
        }
    }
}

} // verus!
