//! Fingerprints: construction from hexadecimal text, serialisation, and the
//! Hamming distance between two of them.

use vstd::prelude::*;
use crate::bits::{count_ones, hamming, pack, pack_bits, packed_len};
use crate::error::HashError;
use crate::hex::{
    decode, encode, hex_decode, hex_encode, hex_error, lemma_decode_encode, lemma_hex_text_length,
};
use crate::median::{median, median_of};

verus! {

/// The threshold under which only identical fingerprints are similar.
pub const THRESHOLD_IDENTICAL: u32 = 0;

/// The recommended threshold for very similar images.
pub const THRESHOLD_VERY_SIMILAR: u32 = 5;

/// The recommended threshold for similar images.
pub const THRESHOLD_SIMILAR: u32 = 10;

/// The recommended threshold for somewhat similar images.
pub const THRESHOLD_SOMEWHAT_SIMILAR: u32 = 15;

/// The side length of the square to which an image is reduced before its
/// frequency transform is taken.
pub const DCT_SIZE: usize = 32;

/// The side length of the coefficient grid of a 64-bit fingerprint.
pub const DEFAULT_HASH_SIZE: usize = 8;

/// The hash family of a fingerprint. Only the frequency-domain perceptual
/// hash is supported.
#[derive(Debug, Clone, Copy, PartialEq, Eq, Structural)]
pub enum HashAlgorithm {
    /// Perceptual hash over the low frequencies of a cosine transform.
    PHash,
}

/// The lower-case form of a text.
pub uninterp spec fn lowercase_of(text: Seq<char>) -> Seq<char>;

/// Calls `str::to_lowercase` of the standard library, which returns the
/// lower-case equivalent of a text as a new string. The result depends on
/// the characters of the text alone.
#[verifier::external_body]
fn to_lowercase(text: &str) -> (lower: String)
    ensures
        lower@ == lowercase_of(text@),
{
    text.to_lowercase()
}

/// The algorithm that a lower-case name selects, if any.
pub open spec fn algorithm_named(lower: Seq<char>) -> Option<HashAlgorithm> {
    if lower == "phash"@ || lower == "perceptual"@ {
        Some(HashAlgorithm::PHash)
    } else {
        None
    }
}

impl HashAlgorithm {
    /// The algorithm that a lower-case name selects: `phash` or `perceptual`
    /// for the perceptual hash. Any other name gives
    /// [`HashError::UnknownAlgorithm`].
    pub fn from_lowercase_name(lower: &str) -> (result: Result<HashAlgorithm, HashError>)
        ensures
            match result {
                Ok(algorithm) => algorithm_named(lower@) == Some(algorithm),
                Err(e) => algorithm_named(lower@) is None && e == HashError::UnknownAlgorithm,
            },
    {
        let name = lower.to_owned();
        if name == "phash".to_owned() || name == "perceptual".to_owned() {
            Ok(HashAlgorithm::PHash)
        } else {
            Err(HashError::UnknownAlgorithm)
        }
    }

    /// The algorithm that a name selects, whatever the case of its letters.
    pub fn from_name(name: &str) -> (result: Result<HashAlgorithm, HashError>)
        ensures
            match result {
                Ok(algorithm) => algorithm_named(lowercase_of(name@)) == Some(algorithm),
                Err(e) => algorithm_named(lowercase_of(name@)) is None && e
                    == HashError::UnknownAlgorithm,
            },
    {
        let lower = to_lowercase(name);
        HashAlgorithm::from_lowercase_name(lower.as_str())
    }
}

/// A perceptual fingerprint: a bit string packed into bytes, most
/// significant bit first, together with the side length of the square
/// coefficient grid it was taken from.
#[derive(Debug, Clone)]
pub struct ImageHash {
    bits: Vec<u8>,
    size: usize,
}

impl View for ImageHash {
    type V = Seq<u8>;

    /// The packed bytes of the fingerprint.
    closed spec fn view(&self) -> Seq<u8> {
        self.bits@
    }
}

/// Whether `root` is the integer square root of `n`.
pub open spec fn is_isqrt(n: nat, root: nat) -> bool {
    root * root <= n < (root + 1) * (root + 1)
}

/// The integer square root of `8 * len`.
fn bit_count_root(len: usize) -> (root: usize)
    ensures
        is_isqrt(8 * len as nat, root as nat),
{
    let n: u128 = 8 * (len as u128);
    let mut lo: u128 = 0;
    let mut hi: u128 = 0x8_0000_0000;
    assert(hi * hi == 0x40_0000_0000_0000_0000) by (nonlinear_arith)
        requires
            hi == 0x8_0000_0000,
    ;
    while hi - lo > 1
        invariant
            lo < hi <= 0x8_0000_0000,
            lo * lo <= n < hi * hi,
            n == 8 * len,
        decreases hi - lo,
    {
        let mid: u128 = lo + (hi - lo) / 2;
        assert(mid * mid <= 0x8_0000_0000 * 0x8_0000_0000) by (nonlinear_arith)
            requires
                0 <= mid <= 0x8_0000_0000,
        ;
        if mid * mid <= n {
            lo = mid;
        } else {
            hi = mid;
        }
    }
    assert(lo <= usize::MAX) by (nonlinear_arith)
        requires
            lo * lo <= 8 * len,
            len <= usize::MAX,
            usize::MAX >= 0xffff_ffff,
            lo >= 0,
    ;
    lo as usize
}

/// Where the coefficient of row `k / grid` and column `k % grid` stands in
/// a matrix with `side` columns that is stored row by row.
pub open spec fn block_index(k: int, side: int, grid: int) -> int {
    (k / grid) * side + k % grid
}

/// The coefficients of the top-left `grid` by `grid` block of a `side` by
/// `side` matrix, row by row, without the first one (the constant term).
pub open spec fn low_frequencies(coefficients: Seq<i64>, side: int, grid: int) -> Seq<i64> {
    Seq::new((grid * grid - 1) as nat, |k: int| coefficients[block_index(k + 1, side, grid)])
}

/// The bits of a fingerprint: one for each coefficient of the top-left
/// block, row by row, set where the coefficient is strictly greater than the
/// median of the block without its constant term. The bit of the constant
/// term is always clear.
pub open spec fn threshold_bits(coefficients: Seq<i64>, side: int, grid: int) -> Seq<bool> {
    Seq::new(
        (grid * grid) as nat,
        |k: int|
            k != 0 && coefficients[block_index(k, side, grid)] > median(
                low_frequencies(coefficients, side, grid),
            ),
    )
}

/// The position `k` of a block lies inside the matrix.
proof fn lemma_block_index(k: int, side: int, grid: int)
    requires
        0 < grid <= side,
        0 <= k < grid * grid,
    ensures
        0 <= k / grid < grid,
        0 <= k % grid < grid,
        0 <= (k / grid) * side,
        0 <= block_index(k, side, grid) < side * side,
{
    let q = k / grid;
    let r = k % grid;
    assert(0 <= q < grid) by (nonlinear_arith)
        requires
            q == k / grid,
            0 < grid,
            0 <= k < grid * grid,
    ;
    assert(0 <= q * side && q * side + r < side * side) by (nonlinear_arith)
        requires
            0 <= q < grid,
            0 <= r < grid,
            grid <= side,
    ;
}

impl ImageHash {
    /// The side length of the coefficient grid of the fingerprint.
    pub closed spec fn grid(&self) -> nat {
        self.size as nat
    }

    /// Whether the grid has no more cells than the fingerprint has bits.
    /// Every fingerprint that this library makes is well formed.
    pub open spec fn well_formed(&self) -> bool {
        self.grid() * self.grid() <= 8 * self@.len()
    }

    /// The side length of the coefficient grid of the fingerprint.
    pub fn size(&self) -> (size: usize)
        ensures
            size == self.grid(),
    {
        self.size
    }

    /// The packed bytes of the fingerprint.
    pub fn as_bytes(&self) -> (bytes: &Vec<u8>)
        ensures
            bytes@ == self@,
    {
        &self.bits
    }

    /// Reads a fingerprint from hexadecimal text, two digits per byte.
    ///
    /// The text is accepted exactly when it has an even number of characters
    /// and all of them are hexadecimal digits, in either case. Text of odd
    /// length in bytes gives [`HashError::OddLength`], other text that is not
    /// accepted gives [`HashError::InvalidDigit`]. The grid size of the result
    /// is the integer square root of its number of bits.
    pub fn from_hex(hex: &str) -> (result: Result<ImageHash, HashError>)
        ensures
            match result {
                Ok(hash) => {
                    &&& hex_error(hex@) is None
                    &&& hash@ == hex_decode(hex@)
                    &&& is_isqrt(8 * hash@.len(), hash.grid())
                    &&& hash.well_formed()
                },
                Err(e) => hex_error(hex@) == Some(e),
            },
    {
        match decode(hex) {
            Ok(bits) => {
                let size = bit_count_root(bits.len());
                Ok(ImageHash { bits, size })
            },
            Err(e) => Err(e),
        }
    }

    /// Writes the fingerprint as lower-case hexadecimal text, two digits per
    /// byte, in the order of the packed bits.
    pub fn to_hex(&self) -> (hex: String)
        ensures
            hex@ == hex_encode(self@),
    {
        encode(&self.bits)
    }

    /// The Hamming distance to another fingerprint: the number of bit
    /// positions in which the two differ.
    ///
    /// Fingerprints of different byte lengths cannot be compared and give
    /// [`HashError::LengthMismatch`].
    pub fn distance(&self, other: &ImageHash) -> (result: Result<u32, HashError>)
        requires
            8 * self@.len() <= u32::MAX,
        ensures
            match result {
                Ok(d) => {
                    &&& self@.len() == other@.len()
                    &&& d == hamming(self@, other@)
                    &&& d <= 8 * self@.len()
                },
                Err(e) => self@.len() != other@.len() && e == HashError::LengthMismatch,
            },
    {
        let n = self.bits.len();
        if other.bits.len() != n {
            return Err(HashError::LengthMismatch);
        }
        let mut total: u32 = 0;
        let mut i: usize = 0;
        while i < n
            invariant
                n == self.bits@.len(),
                n == other.bits@.len(),
                8 * n <= u32::MAX,
                i <= n,
                total <= 8 * i,
                total == hamming(self.bits@.take(i as int), other.bits@.take(i as int)),
            decreases n - i,
        {
            let x = self.bits[i] ^ other.bits[i];
            let ones = count_ones(x);
            proof {
                let a = self.bits@.take(i + 1);
                let b = other.bits@.take(i + 1);
                assert(a.drop_last() =~= self.bits@.take(i as int));
                assert(b.drop_last() =~= other.bits@.take(i as int));
            }
            total = total + ones;
            i = i + 1;
        }
        assert(self.bits@.take(n as int) =~= self.bits@);
        assert(other.bits@.take(n as int) =~= other.bits@);
        Ok(total)
    }

    /// Whether the fingerprint lies within `threshold` bits of another.
    pub fn is_within(&self, other: &ImageHash, threshold: u32) -> (result: Result<bool, HashError>)
        requires
            8 * self@.len() <= u32::MAX,
        ensures
            match result {
                Ok(near) => self@.len() == other@.len() && near == (hamming(self@, other@)
                    <= threshold),
                Err(e) => self@.len() != other@.len() && e == HashError::LengthMismatch,
            },
    {
        match self.distance(other) {
            Ok(d) => Ok(d <= threshold),
            Err(e) => Err(e),
        }
    }

    /// Reading back the hexadecimal text of a fingerprint succeeds and gives
    /// the bytes of the fingerprint.
    pub proof fn lemma_hex_round_trip(&self)
        ensures
            hex_error(hex_encode(self@)) is None,
            hex_decode(hex_encode(self@)) == self@,
    {
        lemma_decode_encode(self@);
    }

    /// Packs a bit string into bytes, most significant bit first. The last
    /// byte is filled up with zero bits.
    pub fn bools_to_bytes(bools: &[bool]) -> (bytes: Vec<u8>)
        ensures
            bytes@ == pack_bits(bools@),
    {
        pack(bools)
    }

    /// The fingerprint of an image from the coefficients of its frequency
    /// transform.
    ///
    /// `coefficients` holds a `dct_size` by `dct_size` matrix row by row.
    /// Only the order of the coefficients matters, so each is given by an
    /// integer that is greater where the coefficient is greater. The
    /// fingerprint has one bit for each coefficient of the top-left
    /// `hash_size` by `hash_size` block: the bit is set where the coefficient
    /// is strictly greater than the median of the block, taken without the
    /// constant term in the corner, whose own bit is always clear.
    pub fn compute_phash(coefficients: &[i64], dct_size: usize, hash_size: usize) -> (hash:
        ImageHash)
        requires
            coefficients.len() == dct_size * dct_size,
            1 <= hash_size <= dct_size,
        ensures
            hash@ == pack_bits(threshold_bits(coefficients@, dct_size as int, hash_size as int)),
            hash@.len() == packed_len((hash_size * hash_size) as nat),
            hash.grid() == hash_size,
            hash.well_formed(),
    {
        assert(1 <= hash_size * hash_size <= dct_size * dct_size) by (nonlinear_arith)
            requires
                1 <= hash_size <= dct_size,
        ;
        let cells = hash_size * hash_size;
        let mut selected: Vec<i64> = Vec::new();
        let mut k: usize = 1;
        while k < cells
            invariant
                1 <= k <= cells,
                cells == hash_size * hash_size,
                coefficients.len() == dct_size * dct_size,
                1 <= hash_size <= dct_size,
                selected.len() == k - 1,
                forall|q: int|
                    0 <= q < k - 1 ==> #[trigger] selected@[q] == coefficients@[block_index(
                        q + 1,
                        dct_size as int,
                        hash_size as int,
                    )],
            decreases cells - k,
        {
            proof {
                lemma_block_index(k as int, dct_size as int, hash_size as int);
            }
            selected.push(coefficients[(k / hash_size) * dct_size + k % hash_size]);
            k = k + 1;
        }
        assert(selected@ =~= low_frequencies(coefficients@, dct_size as int, hash_size as int));
        let middle = if selected.len() > 0 {
            median_of(&selected)
        } else {
            0
        };
        let mut bools: Vec<bool> = Vec::new();
        bools.push(false);
        let mut k: usize = 1;
        while k < cells
            invariant
                1 <= k <= cells,
                cells == hash_size * hash_size,
                coefficients.len() == dct_size * dct_size,
                1 <= hash_size <= dct_size,
                bools.len() == k,
                cells > 1 ==> middle == median(
                    low_frequencies(coefficients@, dct_size as int, hash_size as int),
                ),
                forall|q: int|
                    0 <= q < k ==> #[trigger] bools@[q] == threshold_bits(
                        coefficients@,
                        dct_size as int,
                        hash_size as int,
                    )[q],
            decreases cells - k,
        {
            proof {
                lemma_block_index(k as int, dct_size as int, hash_size as int);
            }
            bools.push(coefficients[(k / hash_size) * dct_size + k % hash_size] > middle);
            k = k + 1;
        }
        assert(bools@ =~= threshold_bits(coefficients@, dct_size as int, hash_size as int));
        let bits = pack(bools.as_slice());
        ImageHash { bits, size: hash_size }
    }
}

/// What [`hamming_distance`] gives for two hexadecimal texts: the first
/// reason why one of them is rejected, or that they encode byte strings of
/// different lengths, or else the distance of the byte strings.
pub open spec fn distance_of_texts(hash1: Seq<char>, hash2: Seq<char>) -> Result<nat, HashError> {
    if hex_error(hash1) is Some {
        Err(hex_error(hash1)->Some_0)
    } else if hex_error(hash2) is Some {
        Err(hex_error(hash2)->Some_0)
    } else if hash1.len() != hash2.len() {
        Err(HashError::LengthMismatch)
    } else {
        Ok(hamming(hex_decode(hash1), hex_decode(hash2)))
    }
}

/// The Hamming distance of two fingerprints that are given as hexadecimal
/// text.
pub fn hamming_distance(hash1: &str, hash2: &str) -> (result: Result<u32, HashError>)
    requires
        4 * hash1@.len() <= u32::MAX,
    ensures
        match result {
            Ok(d) => distance_of_texts(hash1@, hash2@) == Ok::<nat, HashError>(d as nat),
            Err(e) => distance_of_texts(hash1@, hash2@) == Err::<nat, HashError>(e),
        },
{
    let h1 = match ImageHash::from_hex(hash1) {
        Ok(h) => h,
        Err(e) => {
            return Err(e);
        },
    };
    let h2 = match ImageHash::from_hex(hash2) {
        Ok(h) => h,
        Err(e) => {
            return Err(e);
        },
    };
    proof {
        lemma_hex_text_length(hash1@);
        lemma_hex_text_length(hash2@);
    }
    h1.distance(&h2)
}

} // verus!
