//! Hexadecimal text: two digits per byte, most significant digit first.

use vstd::prelude::*;
use vstd::string::*;
use vstd::utf8::{encode_utf8, is_ascii_chars, is_ascii_chars_encode_utf8};
use crate::error::HashError;

verus! {

/// The value of a hexadecimal digit in either case, or -1 for any other
/// character.
pub open spec fn hex_value(c: char) -> int {
    if '0' <= c <= '9' {
        c as int - 48
    } else if 'a' <= c <= 'f' {
        c as int - 87
    } else if 'A' <= c <= 'F' {
        c as int - 55
    } else {
        -1
    }
}

/// Whether every character of `text` is a hexadecimal digit.
pub open spec fn all_hex(text: Seq<char>) -> bool {
    forall|i: int| 0 <= i < text.len() ==> hex_value(#[trigger] text[i]) >= 0
}

/// The length of a text in bytes, which for a text of hexadecimal digits is
/// the number of its characters.
pub open spec fn byte_len(text: Seq<char>) -> nat {
    encode_utf8(text).len()
}

/// Why a text is no hexadecimal encoding of bytes, if it is none: its
/// length is odd, or else one of its characters is no hexadecimal digit.
pub open spec fn hex_error(text: Seq<char>) -> Option<HashError> {
    if byte_len(text) % 2 == 1 {
        Some(HashError::OddLength)
    } else if !all_hex(text) {
        Some(HashError::InvalidDigit)
    } else {
        None
    }
}

/// The lower-case hexadecimal digit of a value below 16.
pub open spec fn hex_digit(n: int) -> char {
    if n < 10 {
        (48 + n) as char
    } else {
        (87 + n) as char
    }
}

/// The bytes that a hexadecimal text of even length denotes.
pub open spec fn hex_decode(text: Seq<char>) -> Seq<u8> {
    Seq::new(
        text.len() / 2,
        |i: int| (16 * hex_value(text[2 * i]) + hex_value(text[2 * i + 1])) as u8,
    )
}

/// The lower-case hexadecimal text of a byte string.
pub open spec fn hex_encode(bytes: Seq<u8>) -> Seq<char> {
    Seq::new(
        2 * bytes.len(),
        |i: int|
            if i % 2 == 0 {
                hex_digit(bytes[i / 2] as int / 16)
            } else {
                hex_digit(bytes[i / 2] as int % 16)
            },
    )
}

/// A text of hexadecimal digits has as many bytes as characters.
pub proof fn lemma_hex_text_length(text: Seq<char>)
    requires
        all_hex(text),
    ensures
        byte_len(text) == text.len(),
{
    assert forall|i: int| 0 <= i < text.len() implies '\0' <= #[trigger] text[i] <= '\u{7f}' by {
        assert(hex_value(text[i]) >= 0);
    }
    is_ascii_chars_encode_utf8(text);
}

/// The hexadecimal text of a byte string is accepted as an encoding, and
/// decoding it gives the bytes back.
pub proof fn lemma_decode_encode(bytes: Seq<u8>)
    ensures
        hex_encode(bytes).len() == 2 * bytes.len(),
        hex_error(hex_encode(bytes)) is None,
        hex_decode(hex_encode(bytes)) == bytes,
{
    let text = hex_encode(bytes);
    assert forall|i: int| 0 <= i < text.len() implies hex_value(#[trigger] text[i]) >= 0 && '\0'
        <= text[i] <= '\u{7f}' by {
        let b = bytes[i / 2] as int;
        assert(0 <= b / 16 < 16 && 0 <= b % 16 < 16);
    }
    assert(is_ascii_chars(text));
    is_ascii_chars_encode_utf8(text);
    assert forall|i: int| 0 <= i < bytes.len() implies hex_decode(text)[i] == bytes[i] by {
        let b = bytes[i] as int;
        assert((2 * i) / 2 == i && (2 * i + 1) / 2 == i);
        assert(hex_value(text[2 * i]) == b / 16);
        assert(hex_value(text[2 * i + 1]) == b % 16);
    }
    assert(hex_decode(text) =~= bytes);
}

/// The one-character text of a hexadecimal digit.
fn digit_text(n: u8) -> (text: &'static str)
    requires
        n < 16,
    ensures
        text@ == seq![hex_digit(n as int)],
{
    proof {
        reveal_strlit("0");
        reveal_strlit("1");
        reveal_strlit("2");
        reveal_strlit("3");
        reveal_strlit("4");
        reveal_strlit("5");
        reveal_strlit("6");
        reveal_strlit("7");
        reveal_strlit("8");
        reveal_strlit("9");
        reveal_strlit("a");
        reveal_strlit("b");
        reveal_strlit("c");
        reveal_strlit("d");
        reveal_strlit("e");
        reveal_strlit("f");
    }
    let text = match n {
        0 => "0",
        1 => "1",
        2 => "2",
        3 => "3",
        4 => "4",
        5 => "5",
        6 => "6",
        7 => "7",
        8 => "8",
        9 => "9",
        10 => "a",
        11 => "b",
        12 => "c",
        13 => "d",
        14 => "e",
        _ => "f",
    };
    assert(text@ =~= seq![hex_digit(n as int)]);
    text
}

/// Writes a byte string as lower-case hexadecimal text.
pub fn encode(bytes: &Vec<u8>) -> (text: String)
    ensures
        text@ == hex_encode(bytes@),
{
    let mut text = String::new();
    let mut i: usize = 0;
    while i < bytes.len()
        invariant
            i <= bytes.len(),
            text@ == hex_encode(bytes@.take(i as int)),
        decreases bytes.len() - i,
    {
        let b = bytes[i];
        text.append(digit_text(b / 16));
        text.append(digit_text(b % 16));
        proof {
            let before = hex_encode(bytes@.take(i as int));
            let after = hex_encode(bytes@.take(i + 1));
            assert(text@ == before + seq![hex_digit(b as int / 16)] + seq![hex_digit(b as int % 16)]);
            assert(text@ =~= after) by {
                assert forall|k: int| 0 <= k < after.len() implies text@[k] == after[k] by {
                    if k < 2 * i {
                        assert(bytes@.take(i as int)[k / 2] == bytes@.take(i + 1)[k / 2]);
                    }
                }
            }
        }
        i = i + 1;
    }
    assert(bytes@.take(i as int) =~= bytes@);
    text
}

/// The value of an ASCII hexadecimal digit, if the byte is one.
fn digit_value(b: u8) -> (v: Option<u8>)
    requires
        b < 128,
    ensures
        match v {
            Some(d) => d < 16 && d == hex_value(b as char),
            None => hex_value(b as char) < 0,
        },
{
    if 48 <= b && b <= 57 {
        Some(b - 48)
    } else if 97 <= b && b <= 102 {
        Some(b - 87)
    } else if 65 <= b && b <= 70 {
        Some(b - 55)
    } else {
        None
    }
}

/// Reads hexadecimal text, in either case, as a byte string.
///
/// Text of odd length is rejected as [`HashError::OddLength`]; text of even
/// length with a character that is not a hexadecimal digit is rejected as
/// [`HashError::InvalidDigit`]. The length is taken in bytes.
pub fn decode(text: &str) -> (result: Result<Vec<u8>, HashError>)
    ensures
        match result {
            Ok(bytes) => hex_error(text@) is None && bytes@ == hex_decode(text@),
            Err(e) => hex_error(text@) == Some(e),
        },
{
    let raw = text.as_bytes();
    let n = raw.len();
    assert(n == byte_len(text@)) by {
        assert(text.spec_bytes() == encode_utf8(text@));
    }
    if n % 2 == 1 {
        return Err(HashError::OddLength);
    }
    if !text.is_ascii() {
        proof {
            let i = choose|i: int|
                0 <= i < text@.len() && !('\0' <= #[trigger] text@[i] <= '\u{7f}');
            assert(hex_value(text@[i]) < 0);
        }
        return Err(HashError::InvalidDigit);
    }
    broadcast use is_ascii_spec_bytes;

    proof {
        is_ascii_chars_encode_utf8(text@);
    }
    let mut bytes: Vec<u8> = Vec::new();
    let mut i: usize = 0;
    while i < n / 2
        invariant
            n == raw@.len(),
            n == text@.len(),
            n == byte_len(text@),
            n % 2 == 0,
            is_ascii(text),
            raw@ == Seq::new(text@.len(), |k: int| text@[k] as u8),
            i <= n / 2,
            bytes@.len() == i,
            forall|k: int| 0 <= k < 2 * i ==> hex_value(#[trigger] text@[k]) >= 0,
            forall|k: int| 0 <= k < i ==> #[trigger] bytes@[k] == hex_decode(text@)[k],
        decreases n / 2 - i,
    {
        let hi_raw = raw[2 * i];
        let lo_raw = raw[2 * i + 1];
        assert(hi_raw as char == text@[2 * i]);
        assert(lo_raw as char == text@[2 * i + 1]);
        let hi = digit_value(hi_raw);
        let lo = digit_value(lo_raw);
        match (hi, lo) {
            (Some(h), Some(l)) => {
                bytes.push(h * 16 + l);
            },
            _ => {
                return Err(HashError::InvalidDigit);
            },
        }
        i = i + 1;
    }
    assert(bytes@ =~= hex_decode(text@));
    Ok(bytes)
}

} // verus!
