//! Bit-level arithmetic on bytes and byte strings.

use vstd::prelude::*;

verus! {

/// The value (0 or 1) of bit `k` of `x`, counted from the least significant bit.
pub open spec fn bit(x: u8, k: u8) -> nat {
    ((x >> k) & 1u8) as nat
}

/// The number of bits that are set in `x`.
pub open spec fn popcount(x: u8) -> nat {
    bit(x, 0) + bit(x, 1) + bit(x, 2) + bit(x, 3) + bit(x, 4) + bit(x, 5) + bit(x, 6) + bit(x, 7)
}

/// The Hamming distance of two byte strings of equal length: the
/// population counts of the bytewise exclusive-or, summed over all positions.
pub open spec fn hamming(a: Seq<u8>, b: Seq<u8>) -> nat
    recommends
        a.len() == b.len(),
    decreases a.len(),
{
    if a.len() == 0 {
        0
    } else {
        hamming(a.drop_last(), b.drop_last()) + popcount(a.last() ^ b.last())
    }
}

/// Every bit is 0 or 1.
pub proof fn lemma_bit_bound(x: u8, k: u8)
    requires
        k < 8,
    ensures
        bit(x, k) <= 1,
{
    assert(((x >> k) & 1u8) <= 1u8) by (bit_vector)
        requires
            k < 8u8,
    ;
}

/// A byte has at most eight set bits.
pub proof fn lemma_popcount_bound(x: u8)
    ensures
        popcount(x) <= 8,
{
    lemma_bit_bound(x, 0);
    lemma_bit_bound(x, 1);
    lemma_bit_bound(x, 2);
    lemma_bit_bound(x, 3);
    lemma_bit_bound(x, 4);
    lemma_bit_bound(x, 5);
    lemma_bit_bound(x, 6);
    lemma_bit_bound(x, 7);
}

/// A byte string has distance zero to itself.
pub proof fn lemma_hamming_identity(a: Seq<u8>)
    ensures
        hamming(a, a) == 0,
    decreases a.len(),
{
    if a.len() > 0 {
        lemma_hamming_identity(a.drop_last());
        let x = a.last();
        assert(x ^ x == 0u8) by (bit_vector);
        assert(popcount(0u8) == 0) by {
            assert(forall|k: u8| k < 8 ==> #[trigger] ((0u8 >> k) & 1u8) == 0u8) by (bit_vector);
        }
    }
}

/// The distance does not depend on the order of its arguments.
pub proof fn lemma_hamming_symmetric(a: Seq<u8>, b: Seq<u8>)
    requires
        a.len() == b.len(),
    ensures
        hamming(a, b) == hamming(b, a),
    decreases a.len(),
{
    if a.len() > 0 {
        lemma_hamming_symmetric(a.drop_last(), b.drop_last());
        let x = a.last();
        let y = b.last();
        assert(x ^ y == y ^ x) by (bit_vector);
    }
}

/// The distance of two byte strings is at most the number of their bits.
pub proof fn lemma_hamming_bound(a: Seq<u8>, b: Seq<u8>)
    requires
        a.len() == b.len(),
    ensures
        hamming(a, b) <= 8 * a.len(),
    decreases a.len(),
{
    if a.len() > 0 {
        lemma_hamming_bound(a.drop_last(), b.drop_last());
        lemma_popcount_bound(a.last() ^ b.last());
    }
}

/// The byte string with bit `i` inverted, where bit 0 is the most
/// significant bit of the first byte.
pub open spec fn flip_bit(bytes: Seq<u8>, i: int) -> Seq<u8> {
    bytes.update(i / 8, bytes[i / 8] ^ (0x80u8 >> ((i % 8) as u8)))
}

/// Inverting bit `k` of a byte, counted from the most significant, inverts
/// that bit and leaves the others.
proof fn lemma_flip_one_bit(z: u8, k: u8, q: u8)
    by (bit_vector)
    requires
        k < 8,
        q < 8,
    ensures
        q == 7 - k ==> ((z ^ (0x80u8 >> k)) >> q) & 1u8 == 1 - ((z >> q) & 1u8),
        q != 7 - k ==> ((z ^ (0x80u8 >> k)) >> q) & 1u8 == (z >> q) & 1u8,
        ((z >> q) & 1u8) <= 1u8,
{
}

/// Inverting one bit of a byte changes its population count by one.
proof fn lemma_popcount_flip(z: u8, k: u8)
    requires
        k < 8,
    ensures
        popcount(z ^ (0x80u8 >> k)) == popcount(z) + 1 || popcount(z ^ (0x80u8 >> k)) + 1
            == popcount(z),
{
    lemma_flip_one_bit(z, k, 0);
    lemma_flip_one_bit(z, k, 1);
    lemma_flip_one_bit(z, k, 2);
    lemma_flip_one_bit(z, k, 3);
    lemma_flip_one_bit(z, k, 4);
    lemma_flip_one_bit(z, k, 5);
    lemma_flip_one_bit(z, k, 6);
    lemma_flip_one_bit(z, k, 7);
}

/// Replacing one byte changes the distance by what that byte contributes.
proof fn lemma_hamming_update(a: Seq<u8>, b: Seq<u8>, j: int, x: u8)
    requires
        a.len() == b.len(),
        0 <= j < a.len(),
    ensures
        hamming(a.update(j, x), b) + popcount(a[j] ^ b[j]) == hamming(a, b) + popcount(x ^ b[j]),
    decreases a.len(),
{
    let changed = a.update(j, x);
    if j == a.len() - 1 {
        assert(changed.drop_last() =~= a.drop_last());
    } else {
        assert(changed.drop_last() =~= a.drop_last().update(j, x));
        lemma_hamming_update(a.drop_last(), b.drop_last(), j, x);
    }
}

/// Inverting one bit of a byte string moves it by exactly one bit against
/// any byte string of the same length: the distance grows or shrinks by one.
pub proof fn lemma_flip_changes_distance_by_one(a: Seq<u8>, b: Seq<u8>, i: int)
    requires
        a.len() == b.len(),
        0 <= i < 8 * a.len(),
    ensures
        hamming(flip_bit(a, i), b) == hamming(a, b) + 1 || hamming(flip_bit(a, i), b) + 1
            == hamming(a, b),
{
    let j = i / 8;
    let k = (i % 8) as u8;
    let mask = 0x80u8 >> k;
    let x = a[j];
    let y = b[j];
    lemma_hamming_update(a, b, j, x ^ mask);
    assert((x ^ mask) ^ y == (x ^ y) ^ mask) by (bit_vector);
    lemma_popcount_flip(x ^ y, k);
}

/// A byte string with one bit inverted has distance one to the byte string
/// it was made from.
pub proof fn lemma_flip_distance_one(a: Seq<u8>, i: int)
    requires
        0 <= i < 8 * a.len(),
    ensures
        hamming(flip_bit(a, i), a) == 1,
        hamming(a, flip_bit(a, i)) == 1,
{
    lemma_flip_changes_distance_by_one(a, a, i);
    lemma_hamming_identity(a);
    lemma_hamming_symmetric(flip_bit(a, i), a);
}

/// Counts the set bits of a byte.
pub fn count_ones(x: u8) -> (n: u32)
    ensures
        n == popcount(x),
        n <= 8,
{
    proof {
        lemma_popcount_bound(x);
        lemma_bit_bound(x, 0);
        lemma_bit_bound(x, 1);
        lemma_bit_bound(x, 2);
        lemma_bit_bound(x, 3);
        lemma_bit_bound(x, 4);
        lemma_bit_bound(x, 5);
        lemma_bit_bound(x, 6);
        lemma_bit_bound(x, 7);
    }
    let low: u8 = ((x >> 0u8) & 1u8) + ((x >> 1u8) & 1u8) + ((x >> 2u8) & 1u8) + ((x >> 3u8) & 1u8);
    let high: u8 = ((x >> 4u8) & 1u8) + ((x >> 5u8) & 1u8) + ((x >> 6u8) & 1u8) + ((x >> 7u8) & 1u8);
    (low + high) as u32
}

/// `weight` if bit `i` of the bit string is set, and 0 if it is clear or
/// lies past the end.
pub open spec fn weight_if(bits: Seq<bool>, i: int, weight: int) -> int {
    if 0 <= i < bits.len() && bits[i] {
        weight
    } else {
        0
    }
}

/// Byte `j` of a packed bit string: the bits `8 * j .. 8 * j + 8`, the first
/// of them as the most significant bit, with zeros past the end.
pub open spec fn packed_byte(bits: Seq<bool>, j: int) -> int {
    weight_if(bits, 8 * j, 128) + weight_if(bits, 8 * j + 1, 64) + weight_if(bits, 8 * j + 2, 32)
        + weight_if(bits, 8 * j + 3, 16) + weight_if(bits, 8 * j + 4, 8) + weight_if(
        bits,
        8 * j + 5,
        4,
    ) + weight_if(bits, 8 * j + 6, 2) + weight_if(bits, 8 * j + 7, 1)
}

/// The number of bytes that hold `n` bits.
pub open spec fn packed_len(n: nat) -> nat {
    (n + 7) / 8
}

/// A bit string packed into bytes, most significant bit first, the last
/// byte filled up with zeros.
pub open spec fn pack_bits(bits: Seq<bool>) -> Seq<u8> {
    Seq::new(packed_len(bits.len()), |j: int| packed_byte(bits, j) as u8)
}

/// `weight` if the bit at `base + offset` is set, and 0 if it is clear or
/// lies past the end.
fn weight_at(bits: &[bool], base: usize, offset: usize, weight: u8) -> (w: u8)
    requires
        base < bits.len(),
        offset < 8,
    ensures
        w == weight_if(bits@, base + offset, weight as int),
{
    if offset < bits.len() - base && bits[base + offset] {
        weight
    } else {
        0
    }
}

/// Packs a bit string into bytes, most significant bit first. The last byte
/// is filled up with zero bits.
pub fn pack(bits: &[bool]) -> (bytes: Vec<u8>)
    ensures
        bytes@ == pack_bits(bits@),
{
    let n = bits.len();
    let count = n / 8 + if n % 8 == 0 { 0 } else { 1 };
    assert(count == packed_len(n as nat));
    let mut bytes: Vec<u8> = Vec::new();
    let mut j: usize = 0;
    while j < count
        invariant
            n == bits.len(),
            count == packed_len(n as nat),
            j <= count,
            bytes.len() == j,
            forall|k: int| 0 <= k < j ==> #[trigger] bytes@[k] == packed_byte(bits@, k) as u8,
        decreases count - j,
    {
        let base = 8 * j;
        let high = weight_at(bits, base, 0, 128) + weight_at(bits, base, 1, 64) + weight_at(
            bits,
            base,
            2,
            32,
        ) + weight_at(bits, base, 3, 16);
        let low = weight_at(bits, base, 4, 8) + weight_at(bits, base, 5, 4) + weight_at(
            bits,
            base,
            6,
            2,
        ) + weight_at(bits, base, 7, 1);
        bytes.push(high + low);
        j = j + 1;
    }
    assert(bytes@ =~= pack_bits(bits@));
    bytes
}

/// Bit `i` of a byte string, where bit 0 is the most significant bit of
/// the first byte.
pub open spec fn bit_at(bytes: Seq<u8>, i: int) -> bool {
    bytes[i / 8] & (0x80u8 >> ((i % 8) as u8)) != 0
}

/// The bits of a byte string, most significant bit first.
pub open spec fn unpack_bits(bytes: Seq<u8>) -> Seq<bool> {
    Seq::new(8 * bytes.len(), |i: int| bit_at(bytes, i))
}

/// The number of positions in which two bit strings of equal length differ.
pub open spec fn differing_bits(x: Seq<bool>, y: Seq<bool>) -> nat
    recommends
        x.len() == y.len(),
    decreases x.len(),
{
    if x.len() == 0 {
        0
    } else {
        differing_bits(x.drop_last(), y.drop_last()) + if x.last() != y.last() {
            1nat
        } else {
            0nat
        }
    }
}

/// Bit `k` from the top of a byte that is a sum of distinct bit weights is
/// set exactly when the weight of that bit is part of the sum.
proof fn lemma_weights(w0: u8, w1: u8, w2: u8, w3: u8, w4: u8, w5: u8, w6: u8, w7: u8, k: u8)
    by (bit_vector)
    requires
        w0 == 0 || w0 == 128,
        w1 == 0 || w1 == 64,
        w2 == 0 || w2 == 32,
        w3 == 0 || w3 == 16,
        w4 == 0 || w4 == 8,
        w5 == 0 || w5 == 4,
        w6 == 0 || w6 == 2,
        w7 == 0 || w7 == 1,
        k < 8,
    ensures
        w0 + w1 + w2 + w3 + w4 + w5 + w6 + w7 < 256,
        k == 0 ==> (((w0 + w1 + w2 + w3 + w4 + w5 + w6 + w7) as u8) & (0x80u8 >> k) != 0) == (w0
            != 0),
        k == 1 ==> (((w0 + w1 + w2 + w3 + w4 + w5 + w6 + w7) as u8) & (0x80u8 >> k) != 0) == (w1
            != 0),
        k == 2 ==> (((w0 + w1 + w2 + w3 + w4 + w5 + w6 + w7) as u8) & (0x80u8 >> k) != 0) == (w2
            != 0),
        k == 3 ==> (((w0 + w1 + w2 + w3 + w4 + w5 + w6 + w7) as u8) & (0x80u8 >> k) != 0) == (w3
            != 0),
        k == 4 ==> (((w0 + w1 + w2 + w3 + w4 + w5 + w6 + w7) as u8) & (0x80u8 >> k) != 0) == (w4
            != 0),
        k == 5 ==> (((w0 + w1 + w2 + w3 + w4 + w5 + w6 + w7) as u8) & (0x80u8 >> k) != 0) == (w5
            != 0),
        k == 6 ==> (((w0 + w1 + w2 + w3 + w4 + w5 + w6 + w7) as u8) & (0x80u8 >> k) != 0) == (w6
            != 0),
        k == 7 ==> (((w0 + w1 + w2 + w3 + w4 + w5 + w6 + w7) as u8) & (0x80u8 >> k) != 0) == (w7
            != 0),
{
}

/// Packing keeps every bit at its position and fills up with clear bits.
pub proof fn lemma_pack_keeps_bits(bits: Seq<bool>, i: int)
    requires
        0 <= i < 8 * packed_len(bits.len()),
    ensures
        bit_at(pack_bits(bits), i) == (i < bits.len() && bits[i]),
{
    let j = i / 8;
    let k = (i % 8) as u8;
    lemma_weights(
        weight_if(bits, 8 * j, 128) as u8,
        weight_if(bits, 8 * j + 1, 64) as u8,
        weight_if(bits, 8 * j + 2, 32) as u8,
        weight_if(bits, 8 * j + 3, 16) as u8,
        weight_if(bits, 8 * j + 4, 8) as u8,
        weight_if(bits, 8 * j + 5, 4) as u8,
        weight_if(bits, 8 * j + 6, 2) as u8,
        weight_if(bits, 8 * j + 7, 1) as u8,
        k,
    );
}

/// Unpacking the packed bits gives the bits back, filled up with clear bits
/// to a whole number of bytes.
pub proof fn lemma_unpack_pack(bits: Seq<bool>)
    ensures
        unpack_bits(pack_bits(bits)).len() == 8 * packed_len(bits.len()),
        forall|i: int|
            0 <= i < 8 * packed_len(bits.len()) ==> #[trigger] unpack_bits(pack_bits(bits))[i] == (i
                < bits.len() && bits[i]),
{
    assert forall|i: int| 0 <= i < 8 * packed_len(bits.len()) implies #[trigger] unpack_bits(
        pack_bits(bits),
    )[i] == (i < bits.len() && bits[i]) by {
        lemma_pack_keeps_bits(bits, i);
    }
}

/// Inverting bit `k` of a byte inverts that bit and no other.
proof fn lemma_flip_mask(x: u8, k: u8, q: u8)
    by (bit_vector)
    requires
        k < 8,
        q < 8,
    ensures
        ((x ^ (0x80u8 >> k)) & (0x80u8 >> q) != 0) == ((x & (0x80u8 >> q) != 0) != (k == q)),
{
}

/// Inverting bit `i` of a byte string inverts that bit and no other.
pub proof fn lemma_flip_inverts_one_bit(bytes: Seq<u8>, i: int, j: int)
    requires
        0 <= i < 8 * bytes.len(),
        0 <= j < 8 * bytes.len(),
    ensures
        bit_at(flip_bit(bytes, i), j) == (bit_at(bytes, j) != (i == j)),
{
    if i / 8 == j / 8 {
        lemma_flip_mask(bytes[i / 8], (i % 8) as u8, (j % 8) as u8);
    }
}

/// A bit of the exclusive-or of two bytes is set exactly where the bytes
/// differ in that bit.
proof fn lemma_xor_bit(u: u8, v: u8, k: u8)
    by (bit_vector)
    requires
        k < 8,
    ensures
        ((((u ^ v) >> (7 - k) as u8) & 1u8) == 1u8) == ((u & (0x80u8 >> k) != 0) != (v & (0x80u8
            >> k) != 0)),
        (((u ^ v) >> (7 - k) as u8) & 1u8) <= 1u8,
{
}

/// The population count of the exclusive-or of two bytes is the number of
/// bits in which they differ.
proof fn lemma_byte_distance(u: u8, v: u8)
    ensures
        popcount(u ^ v) == differing_bits(unpack_bits(seq![u]), unpack_bits(seq![v])),
{
    let x = unpack_bits(seq![u]);
    let y = unpack_bits(seq![v]);
    reveal_with_fuel(differing_bits, 9);
    lemma_xor_bit(u, v, 0);
    lemma_xor_bit(u, v, 1);
    lemma_xor_bit(u, v, 2);
    lemma_xor_bit(u, v, 3);
    lemma_xor_bit(u, v, 4);
    lemma_xor_bit(u, v, 5);
    lemma_xor_bit(u, v, 6);
    lemma_xor_bit(u, v, 7);
    let x7 = x.drop_last();
    let x6 = x7.drop_last();
    let x5 = x6.drop_last();
    let x4 = x5.drop_last();
    let x3 = x4.drop_last();
    let x2 = x3.drop_last();
    let x1 = x2.drop_last();
    let y7 = y.drop_last();
    let y6 = y7.drop_last();
    let y5 = y6.drop_last();
    let y4 = y5.drop_last();
    let y3 = y4.drop_last();
    let y2 = y3.drop_last();
    let y1 = y2.drop_last();
    assert(x.last() == bit_at(seq![u], 7) && y.last() == bit_at(seq![v], 7));
    assert(x7.last() == bit_at(seq![u], 6) && y7.last() == bit_at(seq![v], 6));
    assert(x6.last() == bit_at(seq![u], 5) && y6.last() == bit_at(seq![v], 5));
    assert(x5.last() == bit_at(seq![u], 4) && y5.last() == bit_at(seq![v], 4));
    assert(x4.last() == bit_at(seq![u], 3) && y4.last() == bit_at(seq![v], 3));
    assert(x3.last() == bit_at(seq![u], 2) && y3.last() == bit_at(seq![v], 2));
    assert(x2.last() == bit_at(seq![u], 1) && y2.last() == bit_at(seq![v], 1));
    assert(x1.last() == bit_at(seq![u], 0) && y1.last() == bit_at(seq![v], 0));
    assert(x1.drop_last().len() == 0);
}

/// The differing positions of two concatenations are those of the parts.
proof fn lemma_differing_concat(x1: Seq<bool>, x2: Seq<bool>, y1: Seq<bool>, y2: Seq<bool>)
    requires
        x1.len() == y1.len(),
        x2.len() == y2.len(),
    ensures
        differing_bits(x1 + x2, y1 + y2) == differing_bits(x1, y1) + differing_bits(x2, y2),
    decreases x2.len(),
{
    if x2.len() == 0 {
        assert(x1 + x2 =~= x1);
        assert(y1 + y2 =~= y1);
    } else {
        assert((x1 + x2).drop_last() =~= x1 + x2.drop_last());
        assert((y1 + y2).drop_last() =~= y1 + y2.drop_last());
        lemma_differing_concat(x1, x2.drop_last(), y1, y2.drop_last());
    }
}

/// The Hamming distance of two byte strings of equal length is the number
/// of bit positions in which they differ.
pub proof fn lemma_hamming_counts_bits(a: Seq<u8>, b: Seq<u8>)
    requires
        a.len() == b.len(),
    ensures
        hamming(a, b) == differing_bits(unpack_bits(a), unpack_bits(b)),
    decreases a.len(),
{
    if a.len() == 0 {
        assert(unpack_bits(a).len() == 0);
    } else {
        let a0 = a.drop_last();
        let b0 = b.drop_last();
        lemma_hamming_counts_bits(a0, b0);
        lemma_byte_distance(a.last(), b.last());
        let la = unpack_bits(seq![a.last()]);
        let lb = unpack_bits(seq![b.last()]);
        assert(unpack_bits(a) =~= unpack_bits(a0) + la) by {
            assert forall|i: int| 0 <= i < 8 * a.len() implies unpack_bits(a)[i] == (unpack_bits(a0)
                + la)[i] by {
                if i >= 8 * a0.len() {
                    let r = i - 8 * a0.len();
                    assert(i / 8 == a.len() - 1 && i % 8 == r % 8 && r / 8 == 0);
                } else {
                    assert(a[i / 8] == a0[i / 8]);
                }
            }
        }
        assert(unpack_bits(b) =~= unpack_bits(b0) + lb) by {
            assert forall|i: int| 0 <= i < 8 * b.len() implies unpack_bits(b)[i] == (unpack_bits(b0)
                + lb)[i] by {
                if i >= 8 * b0.len() {
                    let r = i - 8 * b0.len();
                    assert(i / 8 == b.len() - 1 && i % 8 == r % 8 && r / 8 == 0);
                } else {
                    assert(b[i / 8] == b0[i / 8]);
                }
            }
        }
        lemma_differing_concat(unpack_bits(a0), la, unpack_bits(b0), lb);
    }
}

} // verus!
