//! Byte classification and hexadecimal rendering.
//!
//! The classifiers decide whether a run of bytes looks like printable text
//! and whether each byte could occur in a UTF-8 encoded file; both are
//! applied to every sliding window during trigram extraction.

use vstd::prelude::*;

verus! {

/// A byte is printable when it lies in `0x09 ..= 0x0d` (horizontal tab
/// through carriage return) or `0x20 ..= 0x7e` (space through tilde).
pub open spec fn byte_printable(b: u8) -> bool {
    (0x09 <= b && b <= 0x0d) || (0x20 <= b && b <= 0x7e)
}

/// A byte could appear in a UTF-8 stream when it matches one of the five
/// UTF-8 byte prefix classes `0xxxxxxx`, `10xxxxxx`, `110xxxxx`, `1110xxxx`
/// or `11110xxx`.
pub open spec fn byte_utf8_prefix(b: u8) -> bool {
    b & 0x80 == 0 || b & 0xc0 == 0x80 || b & 0xe0 == 0xc0 || b & 0xf0 == 0xe0 || b & 0xf8
        == 0xf0
}

/// Returns `true` if and only if every byte of `s` is printable: between
/// `0x09` (horizontal tab) and `0x0d` (carriage return), or between `0x20`
/// (space) and `0x7e` (tilde).
pub fn is_printable(s: &[u8]) -> (r: bool)
    ensures
        r == forall|i: int| 0 <= i < s@.len() ==> byte_printable(s@[i]),
{
    let mut k: usize = 0;
    while k < s.len()
        invariant
            0 <= k <= s@.len(),
            forall|i: int| 0 <= i < k ==> byte_printable(s@[i]),
        decreases s@.len() - k,
    {
        let b = s[k];
        if !((b > 0x08 && b < 0x0e) || (b >= 0x20 && b < 0x7f)) {
            assert(!byte_printable(s@[k as int]));
            return false;
        }
        k = k + 1;
    }
    true
}

/// Returns `true` if and only if every byte of `s` matches one of the five
/// UTF-8 byte prefix classes. This is a necessary but not sufficient
/// condition for `s` to be part of a valid UTF-8 encoding.
pub fn is_utf8(s: &[u8]) -> (r: bool)
    ensures
        r == forall|i: int| 0 <= i < s@.len() ==> byte_utf8_prefix(s@[i]),
{
    let mut k: usize = 0;
    while k < s.len()
        invariant
            0 <= k <= s@.len(),
            forall|i: int| 0 <= i < k ==> byte_utf8_prefix(s@[i]),
        decreases s@.len() - k,
    {
        let b = s[k];
        if !(b & 0x80 == 0 || b & 0xc0 == 0x80 || b & 0xe0 == 0xc0 || b & 0xf0 == 0xe0
            || b & 0xf8 == 0xf0) {
            assert(!byte_utf8_prefix(s@[k as int]));
            return false;
        }
        k = k + 1;
    }
    true
}

/// The lowercase hexadecimal digit for a value below 16.
pub open spec fn hex_digit(n: u8) -> char {
    if n == 0 {
        '0'
    } else if n == 1 {
        '1'
    } else if n == 2 {
        '2'
    } else if n == 3 {
        '3'
    } else if n == 4 {
        '4'
    } else if n == 5 {
        '5'
    } else if n == 6 {
        '6'
    } else if n == 7 {
        '7'
    } else if n == 8 {
        '8'
    } else if n == 9 {
        '9'
    } else if n == 10 {
        'a'
    } else if n == 11 {
        'b'
    } else if n == 12 {
        'c'
    } else if n == 13 {
        'd'
    } else if n == 14 {
        'e'
    } else {
        'f'
    }
}

/// The hexadecimal rendering of a byte string: two digits per byte, the
/// high nibble first.
pub open spec fn hex_of(s: Seq<u8>) -> Seq<char> {
    Seq::new(
        s.len() * 2,
        |i: int|
            if i % 2 == 0 {
                hex_digit(s[i / 2] >> 4u8)
            } else {
                hex_digit(s[i / 2] & 0x0fu8)
            },
    )
}

/// The one-character string for a hexadecimal digit.
fn hex_str(n: u8) -> (r: &'static str)
    requires
        n < 16,
    ensures
        r@ =~= seq![hex_digit(n)],
{
    proof {
        reveal_strlit("0");
        reveal_strlit("1");
        reveal_strlit("2");
        reveal_strlit("3");
        reveal_strlit("4");
        reveal_strlit("5");
        reveal_strlit("6");
        reveal_strlit("7");
        reveal_strlit("8");
        reveal_strlit("9");
        reveal_strlit("a");
        reveal_strlit("b");
        reveal_strlit("c");
        reveal_strlit("d");
        reveal_strlit("e");
        reveal_strlit("f");
    }
    if n == 0 {
        "0"
    } else if n == 1 {
        "1"
    } else if n == 2 {
        "2"
    } else if n == 3 {
        "3"
    } else if n == 4 {
        "4"
    } else if n == 5 {
        "5"
    } else if n == 6 {
        "6"
    } else if n == 7 {
        "7"
    } else if n == 8 {
        "8"
    } else if n == 9 {
        "9"
    } else if n == 10 {
        "a"
    } else if n == 11 {
        "b"
    } else if n == 12 {
        "c"
    } else if n == 13 {
        "d"
    } else if n == 14 {
        "e"
    } else {
        "f"
    }
}

/// Converts `s` into its hexadecimal string: two lowercase digits per
/// byte, high nibble first.
pub fn to_hex(s: &[u8]) -> (r: String)
    ensures
        r@ == hex_of(s@),
{
    let mut buf = String::new();
    let mut k: usize = 0;
    while k < s.len()
        invariant
            0 <= k <= s@.len(),
            buf@ =~= hex_of(s@).take(2 * k),
        decreases s@.len() - k,
    {
        let b = s[k];
        let hi = (b & 0xf0) >> 4;
        let lo = b & 0x0f;
        proof {
            assert((b & 0xf0) >> 4 == b >> 4 && (b & 0xf0) >> 4 < 16 && (b & 0x0f) < 16)
                by (bit_vector);
        }
        buf.append(hex_str(hi));
        buf.append(hex_str(lo));
        k = k + 1;
        proof {
            assert(buf@ =~= hex_of(s@).take(2 * k));
        }
    }
    proof {
        assert(buf@ =~= hex_of(s@));
    }
    buf
}

} // verus!
