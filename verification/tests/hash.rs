use phash_rs::hash::{
    DCT_SIZE, DEFAULT_HASH_SIZE, THRESHOLD_IDENTICAL, THRESHOLD_SIMILAR,
    THRESHOLD_SOMEWHAT_SIMILAR, THRESHOLD_VERY_SIMILAR,
};
use phash_rs::{hamming_distance, HashAlgorithm, HashError, ImageHash};

#[test]
fn test_hex_roundtrip() {
    let hex = "abcdef0123456789";
    let hash = ImageHash::from_hex(hex).unwrap();
    assert_eq!(hash.to_hex(), hex);
}

#[test]
fn test_hamming_distance() {
    let h1 = ImageHash::from_hex("ff00ff00").unwrap();
    let h2 = ImageHash::from_hex("ff00ff00").unwrap();
    assert_eq!(h1.distance(&h2).unwrap(), 0);

    let h3 = ImageHash::from_hex("ff00ff01").unwrap();
    assert_eq!(h1.distance(&h3).unwrap(), 1);
}

#[test]
fn from_hex_reads_bytes_in_order() {
    let hash = ImageHash::from_hex("0a1b2c").unwrap();
    assert_eq!(hash.as_bytes(), &vec![0x0a, 0x1b, 0x2c]);
}

#[test]
fn from_hex_accepts_both_cases() {
    let upper = ImageHash::from_hex("ABCDEF09").unwrap();
    let mixed = ImageHash::from_hex("aBcDeF09").unwrap();
    assert_eq!(upper.as_bytes(), &vec![0xab, 0xcd, 0xef, 0x09]);
    assert_eq!(mixed.as_bytes(), upper.as_bytes());
    assert_eq!(upper.to_hex(), "abcdef09");
}

#[test]
fn from_hex_accepts_empty_text() {
    let hash = ImageHash::from_hex("").unwrap();
    assert!(hash.as_bytes().is_empty());
    assert_eq!(hash.to_hex(), "");
    assert_eq!(hash.size(), 0);
}

#[test]
fn from_hex_rejects_odd_length() {
    assert_eq!(ImageHash::from_hex("abc").err(), Some(HashError::OddLength));
    assert_eq!(ImageHash::from_hex("f").err(), Some(HashError::OddLength));
    // the length is wrong before any digit is: odd length wins
    assert_eq!(ImageHash::from_hex("zzz").err(), Some(HashError::OddLength));
    // the length counts bytes: this character takes three
    assert_eq!(ImageHash::from_hex("\u{20ac}").err(), Some(HashError::OddLength));
}

#[test]
fn from_hex_rejects_other_characters() {
    assert_eq!(ImageHash::from_hex("zz").err(), Some(HashError::InvalidDigit));
    assert_eq!(ImageHash::from_hex("fg").err(), Some(HashError::InvalidDigit));
    assert_eq!(ImageHash::from_hex("+f").err(), Some(HashError::InvalidDigit));
    assert_eq!(ImageHash::from_hex("-1").err(), Some(HashError::InvalidDigit));
    assert_eq!(ImageHash::from_hex(" ff ").err(), Some(HashError::InvalidDigit));
    assert_eq!(ImageHash::from_hex("ff\n0").err(), Some(HashError::InvalidDigit));
    assert_eq!(ImageHash::from_hex("\u{e9}\u{e9}").err(), Some(HashError::InvalidDigit));
    // the length counts bytes: these take two and four
    assert_eq!(ImageHash::from_hex("\u{e9}").err(), Some(HashError::InvalidDigit));
    assert_eq!(ImageHash::from_hex("a\u{e9}1").err(), Some(HashError::InvalidDigit));
    assert_eq!(ImageHash::from_hex("0x").err(), Some(HashError::InvalidDigit));
    // characters next to the digits in the code table
    assert_eq!(ImageHash::from_hex("/0").err(), Some(HashError::InvalidDigit));
    assert_eq!(ImageHash::from_hex(":0").err(), Some(HashError::InvalidDigit));
    assert_eq!(ImageHash::from_hex("@0").err(), Some(HashError::InvalidDigit));
    assert_eq!(ImageHash::from_hex("G0").err(), Some(HashError::InvalidDigit));
    assert_eq!(ImageHash::from_hex("`0").err(), Some(HashError::InvalidDigit));
    assert_eq!(ImageHash::from_hex("g0").err(), Some(HashError::InvalidDigit));
}

#[test]
fn from_hex_sets_the_grid_size() {
    assert_eq!(ImageHash::from_hex("abcdef0123456789").unwrap().size(), 8);
    assert_eq!(ImageHash::from_hex("ff00ff00").unwrap().size(), 5);
    assert_eq!(ImageHash::from_hex("ff").unwrap().size(), 2);
    assert_eq!(ImageHash::from_hex("ffff").unwrap().size(), 4);
    assert_eq!(ImageHash::from_hex("ffffff").unwrap().size(), 4);
    let thirty_two = "00".repeat(32);
    assert_eq!(ImageHash::from_hex(&thirty_two).unwrap().size(), 16);
}

#[test]
fn to_hex_writes_two_lower_case_digits_per_byte() {
    let hash = ImageHash::from_hex("000A0F10A0FF").unwrap();
    assert_eq!(hash.to_hex(), "000a0f10a0ff");
}

#[test]
fn every_byte_survives_the_round_trip() {
    let mut text = String::new();
    for b in 0..=255u8 {
        text.push_str(&format!("{:02x}", b));
    }
    let hash = ImageHash::from_hex(&text).unwrap();
    let bytes: Vec<u8> = (0..=255u8).collect();
    assert_eq!(hash.as_bytes(), &bytes);
    assert_eq!(hash.to_hex(), text);
    let again = ImageHash::from_hex(&hash.to_hex()).unwrap();
    assert_eq!(again.as_bytes(), hash.as_bytes());
}

#[test]
fn distance_to_itself_is_zero() {
    for hex in ["", "00", "ff", "abcdef0123456789", "ff00ff00"] {
        let hash = ImageHash::from_hex(hex).unwrap();
        assert_eq!(hash.distance(&hash), Ok(0));
    }
}

#[test]
fn distance_is_symmetric() {
    let a = ImageHash::from_hex("abcdef0123456789").unwrap();
    let b = ImageHash::from_hex("0123456789abcdef").unwrap();
    assert_eq!(a.distance(&b), b.distance(&a));
    // aa ee aa 66 aa ee aa 66: 4 + 6 + 4 + 4 + 4 + 6 + 4 + 4 bits
    assert_eq!(a.distance(&b), Ok(36));
}

#[test]
fn distance_is_at_most_the_number_of_bits() {
    let zeros = ImageHash::from_hex("0000000000000000").unwrap();
    let ones = ImageHash::from_hex("ffffffffffffffff").unwrap();
    assert_eq!(zeros.distance(&ones), Ok(64));
    let a = ImageHash::from_hex("a5").unwrap();
    let b = ImageHash::from_hex("5a").unwrap();
    assert_eq!(a.distance(&b), Ok(8));
}

#[test]
fn distance_counts_bits_not_bytes() {
    let a = ImageHash::from_hex("0f").unwrap();
    let b = ImageHash::from_hex("00").unwrap();
    assert_eq!(a.distance(&b), Ok(4));
    let c = ImageHash::from_hex("8001").unwrap();
    let d = ImageHash::from_hex("0000").unwrap();
    assert_eq!(c.distance(&d), Ok(2));
}

#[test]
fn flipping_one_bit_gives_distance_one() {
    let start: Vec<u8> = vec![0xab, 0xcd, 0xef, 0x01, 0x23, 0x45, 0x67, 0x89];
    let base = ImageHash::from_hex("abcdef0123456789").unwrap();
    let other = ImageHash::from_hex("0123456789abcdef").unwrap();
    let far = base.distance(&other).unwrap();
    for bit in 0..64usize {
        let mut bytes = start.clone();
        bytes[bit / 8] ^= 0x80u8 >> (bit % 8);
        let text: String = bytes.iter().map(|b| format!("{:02x}", b)).collect();
        let flipped = ImageHash::from_hex(&text).unwrap();
        assert_eq!(flipped.distance(&base), Ok(1));
        assert_eq!(base.distance(&flipped), Ok(1));
        let moved = flipped.distance(&other).unwrap();
        assert!(moved == far + 1 || moved + 1 == far);
    }
}

#[test]
fn distance_rejects_different_lengths() {
    let short = ImageHash::from_hex("ff00").unwrap();
    let long = ImageHash::from_hex("ff00ff00").unwrap();
    let empty = ImageHash::from_hex("").unwrap();
    assert_eq!(short.distance(&long), Err(HashError::LengthMismatch));
    assert_eq!(long.distance(&short), Err(HashError::LengthMismatch));
    assert_eq!(empty.distance(&short), Err(HashError::LengthMismatch));
    assert_eq!(short.distance(&empty), Err(HashError::LengthMismatch));
}

#[test]
fn is_within_compares_with_the_threshold() {
    let a = ImageHash::from_hex("ff00ff00").unwrap();
    let b = ImageHash::from_hex("ff00ff07").unwrap();
    assert_eq!(a.is_within(&b, 2), Ok(false));
    assert_eq!(a.is_within(&b, 3), Ok(true));
    assert_eq!(a.is_within(&b, 4), Ok(true));
    assert_eq!(a.is_within(&a, 0), Ok(true));
    let short = ImageHash::from_hex("ff").unwrap();
    assert_eq!(a.is_within(&short, 64), Err(HashError::LengthMismatch));
}

#[test]
fn hamming_distance_of_hex_texts() {
    assert_eq!(hamming_distance("ff00ff00", "ff00ff00"), Ok(0));
    assert_eq!(hamming_distance("ff00ff00", "ff00ff01"), Ok(1));
    assert_eq!(hamming_distance("FF00FF00", "ff00ff01"), Ok(1));
    assert_eq!(hamming_distance("", ""), Ok(0));
    assert_eq!(hamming_distance("00", "ff"), Ok(8));
}

#[test]
fn hamming_distance_reports_the_first_fault() {
    assert_eq!(hamming_distance("ff0", "ff00"), Err(HashError::OddLength));
    assert_eq!(hamming_distance("ff00", "ff0"), Err(HashError::OddLength));
    assert_eq!(hamming_distance("fg00", "ff00"), Err(HashError::InvalidDigit));
    assert_eq!(hamming_distance("ff00", "fg00"), Err(HashError::InvalidDigit));
    assert_eq!(hamming_distance("zz", "f"), Err(HashError::InvalidDigit));
    assert_eq!(hamming_distance("f", "zz"), Err(HashError::OddLength));
    assert_eq!(hamming_distance("ff", "ff00"), Err(HashError::LengthMismatch));
    assert_eq!(hamming_distance("ff00", "ff"), Err(HashError::LengthMismatch));
}

#[test]
fn bools_to_bytes_packs_most_significant_bit_first() {
    assert_eq!(ImageHash::bools_to_bytes(&[]), Vec::<u8>::new());
    assert_eq!(ImageHash::bools_to_bytes(&[true]), vec![0x80]);
    assert_eq!(ImageHash::bools_to_bytes(&[false, true]), vec![0x40]);
    assert_eq!(
        ImageHash::bools_to_bytes(&[true, false, true, false, true, false, true, false]),
        vec![0xaa]
    );
    assert_eq!(
        ImageHash::bools_to_bytes(&[false, false, false, false, false, false, false, true]),
        vec![0x01]
    );
    assert_eq!(ImageHash::bools_to_bytes(&[true; 8]), vec![0xff]);
}

#[test]
fn bools_to_bytes_pads_the_last_byte_with_zeros() {
    let mut bits = vec![true; 9];
    assert_eq!(ImageHash::bools_to_bytes(&bits), vec![0xff, 0x80]);
    bits.push(false);
    bits.push(true);
    assert_eq!(ImageHash::bools_to_bytes(&bits), vec![0xff, 0xa0]);
    assert_eq!(ImageHash::bools_to_bytes(&[false; 17]), vec![0, 0, 0]);
    assert_eq!(ImageHash::bools_to_bytes(&[true; 25]), vec![0xff, 0xff, 0xff, 0x80]);
}

#[test]
fn bools_to_bytes_each_position() {
    for i in 0..24usize {
        let mut bits = vec![false; 24];
        bits[i] = true;
        let mut expected = vec![0u8; 3];
        expected[i / 8] = 0x80 >> (i % 8);
        assert_eq!(ImageHash::bools_to_bytes(&bits), expected);
    }
}

#[test]
fn compute_phash_thresholds_against_the_median() {
    // a 2 by 2 matrix; the block is the whole matrix
    // without the corner: 5, 7, 6; in order 5, 6, 7; median 6
    let hash = ImageHash::compute_phash(&[100, 5, 7, 6], 2, 2);
    assert_eq!(hash.as_bytes(), &vec![0b0010_0000]);
    assert_eq!(hash.size(), 2);
}

#[test]
fn compute_phash_never_sets_the_corner_bit() {
    let hash = ImageHash::compute_phash(&[i64::MAX, -5, -7, -6], 2, 2);
    // in order -7, -6, -5; median -6; only -5 is greater
    assert_eq!(hash.as_bytes(), &vec![0b0100_0000]);
}

#[test]
fn compute_phash_takes_the_top_left_block() {
    // 4 by 4 matrix, 2 by 2 block: rows 0 and 1, columns 0 and 1
    let coefficients: Vec<i64> = vec![
        0, 10, 99, 99, //
        30, 20, 99, 99, //
        99, 99, 99, 99, //
        99, 99, 99, 99,
    ];
    // without the corner: 10, 30, 20; median 20; bits 0 0 1 0
    let hash = ImageHash::compute_phash(&coefficients, 4, 2);
    assert_eq!(hash.as_bytes(), &vec![0b0010_0000]);
}

#[test]
fn compute_phash_uses_the_upper_middle_of_an_even_count() {
    // 3 by 3 matrix, 3 by 3 block: eight values without the corner
    let coefficients: Vec<i64> = vec![0, 1, 2, 3, 4, 5, 6, 7, 8];
    // in order 1..=8, the element at index 4 is 5: greater are 6, 7, 8
    let hash = ImageHash::compute_phash(&coefficients, 3, 3);
    assert_eq!(hash.as_bytes(), &vec![0b0000_0011, 0b1000_0000]);
    assert_eq!(hash.size(), 3);
}

#[test]
fn compute_phash_is_strict_about_the_median() {
    // all equal: nothing is strictly greater than the median
    let hash = ImageHash::compute_phash(&[7; 16], 4, 4);
    assert_eq!(hash.as_bytes(), &vec![0, 0]);
    // ties with the median stay clear
    let hash = ImageHash::compute_phash(&[0, 1, 1, 2], 2, 2);
    assert_eq!(hash.as_bytes(), &vec![0b0001_0000]);
}

#[test]
fn compute_phash_of_a_single_cell() {
    let hash = ImageHash::compute_phash(&[42], 1, 1);
    assert_eq!(hash.as_bytes(), &vec![0]);
    assert_eq!(hash.size(), 1);
    let hash = ImageHash::compute_phash(&[5, 9, 9, 9], 2, 1);
    assert_eq!(hash.as_bytes(), &vec![0]);
}

#[test]
fn compute_phash_of_the_usual_sizes() {
    let side = DCT_SIZE;
    let grid = DEFAULT_HASH_SIZE;
    // the coefficient of row y and column x is y * 100 + x
    let mut coefficients = vec![0i64; side * side];
    for y in 0..side {
        for x in 0..side {
            coefficients[y * side + x] = (y * 100 + x) as i64;
        }
    }
    let hash = ImageHash::compute_phash(&coefficients, side, grid);
    assert_eq!(hash.as_bytes().len(), 8);
    assert_eq!(hash.size(), 8);
    // 63 values without the corner; the one at index 31 in order is that of
    // row 4, column 0, which is 400: rows 4 to 7 are greater, but for 400
    assert_eq!(hash.to_hex(), "000000007fffffff");
}

#[test]
fn compute_phash_depends_on_the_order_only() {
    let a = ImageHash::compute_phash(&[0, -3, 8, 1, 5, 2, 9, -1, 4], 3, 3);
    let b = ImageHash::compute_phash(&[50, -30, 80, 10, 51, 20, 900, -1, 40], 3, 3);
    assert_eq!(a.as_bytes(), b.as_bytes());
}

#[test]
fn algorithm_names() {
    assert_eq!(HashAlgorithm::from_name("phash"), Ok(HashAlgorithm::PHash));
    assert_eq!(HashAlgorithm::from_name("perceptual"), Ok(HashAlgorithm::PHash));
    assert_eq!(HashAlgorithm::from_name("PHASH"), Ok(HashAlgorithm::PHash));
    assert_eq!(HashAlgorithm::from_name("PHash"), Ok(HashAlgorithm::PHash));
    assert_eq!(HashAlgorithm::from_name("Perceptual"), Ok(HashAlgorithm::PHash));
}

#[test]
fn unknown_algorithm_names() {
    for name in ["", "ahash", "average", "dhash", "difference", "phash ", "p-hash", "md5"] {
        assert_eq!(HashAlgorithm::from_name(name), Err(HashError::UnknownAlgorithm));
    }
}

#[test]
fn lower_case_algorithm_names() {
    assert_eq!(HashAlgorithm::from_lowercase_name("phash"), Ok(HashAlgorithm::PHash));
    assert_eq!(HashAlgorithm::from_lowercase_name("perceptual"), Ok(HashAlgorithm::PHash));
    assert_eq!(HashAlgorithm::from_lowercase_name("PHASH"), Err(HashError::UnknownAlgorithm));
    assert_eq!(HashAlgorithm::from_lowercase_name("phas"), Err(HashError::UnknownAlgorithm));
}

#[test]
fn error_messages() {
    assert_eq!(HashError::OddLength.message(), "Invalid hex string length");
    assert_eq!(HashError::InvalidDigit.message(), "Invalid hex: invalid digit found in string");
    assert_eq!(HashError::LengthMismatch.message(), "Hash length mismatch");
    assert_eq!(HashError::UnknownAlgorithm.message(), "Unknown algorithm");
}

#[test]
fn recommended_thresholds() {
    assert_eq!(THRESHOLD_IDENTICAL, 0);
    assert_eq!(THRESHOLD_VERY_SIMILAR, 5);
    assert_eq!(THRESHOLD_SIMILAR, 10);
    assert_eq!(THRESHOLD_SOMEWHAT_SIMILAR, 15);
    assert_eq!(DCT_SIZE, 32);
    assert_eq!(DEFAULT_HASH_SIZE, 8);
}
