//! Trigram extraction.
//!
//! A file's bytes are scanned with a sliding 3-byte window. A window that
//! fails the printable / UTF-8-prefix test marks the whole file as binary.
//! A window is kept when it decodes as UTF-8 and every decoded character
//! is alphanumeric; kept windows are stored with their ASCII letters
//! lowercased, each distinct trigram at most once per file.

use vstd::prelude::*;
use vstd::utf8::codepoint_width_2;
use vstd::utf8::codepoint_width_3;
use vstd::utf8::decode_first_codepoint;
use vstd::utf8::decode_first_scalar;
use vstd::utf8::decode_utf8;
use vstd::utf8::has_width_2_encoding;
use vstd::utf8::has_width_3_encoding;
use vstd::utf8::is_continuation_byte;
use vstd::utf8::is_leading_byte_width_1;
use vstd::utf8::is_leading_byte_width_2;
use vstd::utf8::is_leading_byte_width_3;
use vstd::utf8::is_scalar;
use vstd::utf8::length_of_first_scalar;
use vstd::utf8::pop_first_scalar;
use vstd::utf8::valid_first_scalar;
use vstd::utf8::valid_utf8;

use crate::encoding::byte_printable;
use crate::encoding::byte_utf8_prefix;
use crate::index_error::IndexError;

verus! {

/// A 3-byte trigram.
#[derive(PartialEq, Eq, Structural, Clone, Copy, Debug)]
pub struct Trigram {
    pub b0: u8,
    pub b1: u8,
    pub b2: u8,
}

impl View for Trigram {
    type V = Seq<u8>;

    open spec fn view(&self) -> Seq<u8> {
        seq![self.b0, self.b1, self.b2]
    }
}

/// Whether the character with this code point is alphanumeric, as the
/// Unicode character categories define it. Named, not defined: the
/// Unicode tables are outside this library.
pub uninterp spec fn codepoint_alphanumeric(cp: u32) -> bool;

/// An ASCII digit or letter.
pub open spec fn ascii_alnum(b: u8) -> bool {
    (0x30 <= b && b <= 0x39) || (0x41 <= b && b <= 0x5a) || (0x61 <= b && b <= 0x7a)
}

/// Whether a decoded character counts as alphanumeric: for ASCII by the
/// digit and letter ranges, beyond ASCII by the Unicode categories.
pub open spec fn char_alnum(c: char) -> bool {
    if (c as u32) < 0x80 {
        ascii_alnum((c as u32) as u8)
    } else {
        codepoint_alphanumeric(c as u32)
    }
}

/// ASCII uppercase letters map to lowercase by setting bit 5; every
/// other byte is unchanged.
pub open spec fn lower_byte(b: u8) -> u8 {
    if 0x41 <= b && b <= 0x5a {
        b | 0x20
    } else {
        b
    }
}

/// A 3-byte window with its ASCII letters lowercased.
pub open spec fn lower3(w: Seq<u8>) -> Seq<u8>
    recommends
        w.len() == 3,
{
    seq![lower_byte(w[0]), lower_byte(w[1]), lower_byte(w[2])]
}

/// Every byte of the window is printable and has a UTF-8 byte prefix.
pub open spec fn text_like(w: Seq<u8>) -> bool {
    forall|k: int| 0 <= k < w.len() ==> byte_printable(w[k]) && byte_utf8_prefix(w[k])
}

/// A window is kept when it is a complete UTF-8 encoding and every
/// decoded character is alphanumeric.
pub open spec fn keep_window(w: Seq<u8>) -> bool {
    valid_utf8(w) && (forall|k: int|
        0 <= k < decode_utf8(w).len() ==> char_alnum(#[trigger] decode_utf8(w)[k]))
}

/// The 3-byte window of `s` starting at byte `i`.
pub open spec fn window(s: Seq<u8>, i: int) -> Seq<u8> {
    s.subrange(i, i + 3)
}

/// How many 3-byte windows `s` has.
pub open spec fn window_count(s: Seq<u8>) -> int {
    if s.len() >= 3 {
        s.len() - 2
    } else {
        0
    }
}

/// A byte string is binary when some window of it fails the printable /
/// UTF-8-prefix test.
pub open spec fn is_binary(s: Seq<u8>) -> bool {
    exists|i: int| 0 <= i < window_count(s) && !text_like(#[trigger] window(s, i))
}

/// The distinct lowercased kept trigrams among the first `i` windows of
/// `s`, in order of first occurrence.
pub open spec fn extract_upto(s: Seq<u8>, i: int) -> Seq<Seq<u8>>
    decreases i,
{
    if i <= 0 {
        seq![]
    } else {
        let prev = extract_upto(s, i - 1);
        let w = window(s, i - 1);
        if keep_window(w) && !prev.contains(lower3(w)) {
            prev.push(lower3(w))
        } else {
            prev
        }
    }
}

/// The distinct lowercased kept trigrams of `s`, in order of first
/// occurrence.
pub open spec fn extract_spec(s: Seq<u8>) -> Seq<Seq<u8>> {
    extract_upto(s, window_count(s))
}

/// The views of a sequence of trigrams.
pub open spec fn trigram_views(v: Seq<Trigram>) -> Seq<Seq<u8>> {
    v.map_values(|t: Trigram| t@)
}

/// Relies on `char::from_u32`: it returns `Some` exactly for Unicode
/// scalar values, and the character it returns has the given code point.
pub assume_specification[ char::from_u32 ](i: u32) -> (r: Option<char>)
    ensures
        is_scalar(i) <==> r is Some,
        r matches Some(c) ==> c as u32 == i,
;

/// Relies on `char::is_alphanumeric`: whether the character lies in one
/// of the Unicode alphabetic or numeric categories. It depends on the
/// character alone; `codepoint_alphanumeric` names its result.
#[verifier::external_body]
fn char_is_alphanumeric(c: char) -> (r: bool)
    ensures
        r == codepoint_alphanumeric(c as u32),
{
    c.is_alphanumeric()
}

/// The shapes a 3-byte window may have as a complete UTF-8 encoding:
/// three ASCII bytes, an ASCII byte and a 2-byte character in either
/// order, or a single 3-byte character.
pub open spec fn window_shape_ok(b0: u8, b1: u8, b2: u8) -> bool {
    ||| (b0 < 0x80 && b1 < 0x80 && b2 < 0x80)
    ||| (b0 < 0x80 && 0xc2 <= b1 && b1 <= 0xdf && is_continuation_byte(b2))
    ||| (0xc2 <= b0 && b0 <= 0xdf && is_continuation_byte(b1) && b2 < 0x80)
    ||| (0xe0 <= b0 && b0 <= 0xef && is_continuation_byte(b1) && is_continuation_byte(b2) && (b0
        == 0xe0 ==> 0xa0 <= b1) && (b0 == 0xed ==> b1 <= 0x9f))
}

/// Case: three ASCII bytes decode to three characters, one per byte.
proof fn lemma_window_ascii3(b0: u8, b1: u8, b2: u8)
    requires
        b0 < 0x80,
        b1 < 0x80,
        b2 < 0x80,
    ensures
        valid_utf8(seq![b0, b1, b2]),
        decode_utf8(seq![b0, b1, b2]).len() == 3,
        decode_utf8(seq![b0, b1, b2])[0] as u32 == b0,
        decode_utf8(seq![b0, b1, b2])[1] as u32 == b1,
        decode_utf8(seq![b0, b1, b2])[2] as u32 == b2,
{
    let w = seq![b0, b1, b2];
    assert(b0 & 0x7f == b0 && b1 & 0x7f == b1 && b2 & 0x7f == b2) by (bit_vector)
        requires
            b0 < 0x80 && b1 < 0x80 && b2 < 0x80,
    ;
    assert(valid_first_scalar(w));
    let w1 = pop_first_scalar(w);
    assert(w1 =~= seq![b1, b2]);
    assert(valid_first_scalar(w1));
    let w2 = pop_first_scalar(w1);
    assert(w2 =~= seq![b2]);
    assert(valid_first_scalar(w2));
    let w3 = pop_first_scalar(w2);
    assert(w3 =~= Seq::<u8>::empty());
    assert(valid_utf8(w3));
    assert(valid_utf8(w2));
    assert(valid_utf8(w1));
    assert(valid_utf8(w));
    assert(decode_utf8(w3) =~= Seq::<char>::empty());
    assert(decode_utf8(w2) =~= seq![decode_first_scalar(w2) as char]);
    assert(decode_utf8(w1) =~= seq![decode_first_scalar(w1) as char] + decode_utf8(w2));
    assert(decode_utf8(w) =~= seq![decode_first_scalar(w) as char] + decode_utf8(w1));
    assert(decode_first_scalar(w) == b0 as u32);
    assert(decode_first_scalar(w1) == b1 as u32);
    assert(decode_first_scalar(w2) == b2 as u32);
}

/// Case: an ASCII byte followed by a 2-byte character.
proof fn lemma_window_a2(b0: u8, b1: u8, b2: u8)
    requires
        b0 < 0x80,
        0xc2 <= b1 && b1 <= 0xdf,
        is_continuation_byte(b2),
    ensures
        valid_utf8(seq![b0, b1, b2]),
        decode_utf8(seq![b0, b1, b2]).len() == 2,
        decode_utf8(seq![b0, b1, b2])[0] as u32 == b0,
        decode_utf8(seq![b0, b1, b2])[1] as u32 == codepoint_width_2(b1, b2),
        has_width_2_encoding(codepoint_width_2(b1, b2)),
{
    let w = seq![b0, b1, b2];
    assert(b0 & 0x7f == b0) by (bit_vector)
        requires
            b0 < 0x80,
    ;
    assert(0x80 <= ((((b1 & 0x1f) as u32) << 6) | ((b2 & 0x3f) as u32)) && ((((b1 & 0x1f) as u32)
        << 6) | ((b2 & 0x3f) as u32)) <= 0x7ff) by (bit_vector)
        requires
            0xc2 <= b1 && b1 <= 0xdf && 0x80 <= b2 && b2 <= 0xbf,
    ;
    assert(valid_first_scalar(w));
    let w1 = pop_first_scalar(w);
    assert(w1 =~= seq![b1, b2]);
    assert(has_width_2_encoding(codepoint_width_2(b1, b2)));
    assert(valid_first_scalar(w1));
    let w2 = pop_first_scalar(w1);
    assert(w2 =~= Seq::<u8>::empty());
    assert(valid_utf8(w2));
    assert(valid_utf8(w1));
    assert(valid_utf8(w));
    assert(decode_utf8(w2) =~= Seq::<char>::empty());
    assert(decode_utf8(w1) =~= seq![decode_first_scalar(w1) as char] + decode_utf8(w2));
    assert(decode_utf8(w) =~= seq![decode_first_scalar(w) as char] + decode_utf8(w1));
    assert(decode_first_scalar(w) == b0 as u32);
    assert(decode_first_scalar(w1) == codepoint_width_2(b1, b2));
}

/// Case: a 2-byte character followed by an ASCII byte.
proof fn lemma_window_2a(b0: u8, b1: u8, b2: u8)
    requires
        0xc2 <= b0 && b0 <= 0xdf,
        is_continuation_byte(b1),
        b2 < 0x80,
    ensures
        valid_utf8(seq![b0, b1, b2]),
        decode_utf8(seq![b0, b1, b2]).len() == 2,
        decode_utf8(seq![b0, b1, b2])[0] as u32 == codepoint_width_2(b0, b1),
        decode_utf8(seq![b0, b1, b2])[1] as u32 == b2,
        has_width_2_encoding(codepoint_width_2(b0, b1)),
{
    let w = seq![b0, b1, b2];
    assert(b2 & 0x7f == b2) by (bit_vector)
        requires
            b2 < 0x80,
    ;
    assert(0x80 <= ((((b0 & 0x1f) as u32) << 6) | ((b1 & 0x3f) as u32)) && ((((b0 & 0x1f) as u32)
        << 6) | ((b1 & 0x3f) as u32)) <= 0x7ff) by (bit_vector)
        requires
            0xc2 <= b0 && b0 <= 0xdf && 0x80 <= b1 && b1 <= 0xbf,
    ;
    assert(has_width_2_encoding(codepoint_width_2(b0, b1)));
    assert(length_of_first_scalar(w) == 2);
    assert(valid_first_scalar(w));
    let w1 = pop_first_scalar(w);
    assert(w1 =~= seq![b2]);
    assert(valid_first_scalar(w1));
    let w2 = pop_first_scalar(w1);
    assert(w2 =~= Seq::<u8>::empty());
    assert(valid_utf8(w2));
    assert(valid_utf8(w1));
    assert(valid_utf8(w));
    assert(decode_utf8(w2) =~= Seq::<char>::empty());
    assert(decode_utf8(w1) =~= seq![decode_first_scalar(w1) as char] + decode_utf8(w2));
    assert(decode_utf8(w) =~= seq![decode_first_scalar(w) as char] + decode_utf8(w1));
    assert(decode_first_scalar(w) == codepoint_width_2(b0, b1));
    assert(decode_first_scalar(w1) == b2 as u32);
}

/// Case: a single 3-byte character.
proof fn lemma_window_3(b0: u8, b1: u8, b2: u8)
    requires
        0xe0 <= b0 && b0 <= 0xef,
        is_continuation_byte(b1),
        is_continuation_byte(b2),
        b0 == 0xe0 ==> 0xa0 <= b1,
        b0 == 0xed ==> b1 <= 0x9f,
    ensures
        valid_utf8(seq![b0, b1, b2]),
        decode_utf8(seq![b0, b1, b2]).len() == 1,
        decode_utf8(seq![b0, b1, b2])[0] as u32 == codepoint_width_3(b0, b1, b2),
        has_width_3_encoding(codepoint_width_3(b0, b1, b2)),
{
    let w = seq![b0, b1, b2];
    assert({
        let cp = ((((b0 & 0x0f) as u32) << 12) | (((b1 & 0x3f) as u32) << 6)) | ((b2
            & 0x3f) as u32);
        0x800 <= cp && cp <= 0xffff && !(0xd800 <= cp && cp <= 0xdfff)
    }) by (bit_vector)
        requires
            0xe0 <= b0 && b0 <= 0xef && 0x80 <= b1 && b1 <= 0xbf && 0x80 <= b2 && b2 <= 0xbf && (b0
                == 0xe0 ==> 0xa0 <= b1) && (b0 == 0xed ==> b1 <= 0x9f),
    ;
    assert(codepoint_width_3(b0, b1, b2) == ((((b0 & 0x0f) as u32) << 12) | (((b1
        & 0x3f) as u32) << 6)) | ((b2 & 0x3f) as u32));
    assert(has_width_3_encoding(codepoint_width_3(b0, b1, b2)));
    assert(length_of_first_scalar(w) == 3);
    assert(valid_first_scalar(w));
    let w1 = pop_first_scalar(w);
    assert(w1 =~= Seq::<u8>::empty());
    assert(valid_utf8(w1));
    assert(valid_utf8(w));
    assert(decode_utf8(w1) =~= Seq::<char>::empty());
    assert(decode_utf8(w) =~= seq![decode_first_scalar(w) as char] + decode_utf8(w1));
    assert(decode_first_scalar(w) == codepoint_width_3(b0, b1, b2));
}

/// A window that matches none of the shapes is not a complete UTF-8
/// encoding.
proof fn lemma_window_invalid(b0: u8, b1: u8, b2: u8)
    requires
        !window_shape_ok(b0, b1, b2),
    ensures
        !valid_utf8(seq![b0, b1, b2]),
{
    let w = seq![b0, b1, b2];
    if valid_utf8(w) {
        assert(valid_first_scalar(w));
        if is_leading_byte_width_1(b0) {
            let w1 = pop_first_scalar(w);
            assert(w1 =~= seq![b1, b2]);
            assert(valid_utf8(w1));
            assert(valid_first_scalar(w1));
            if is_leading_byte_width_1(b1) {
                let w2 = pop_first_scalar(w1);
                assert(w2 =~= seq![b2]);
                assert(valid_utf8(w2));
                assert(valid_first_scalar(w2));
                assert(b2 < 0x80);
                assert(false);
            } else if is_leading_byte_width_2(b1) {
                // overlong unless b1 >= 0xc2
                assert(decode_first_codepoint(w1) == codepoint_width_2(b1, b2));
                assert((0xc0 <= b1 && b1 <= 0xc1 && 0x80 <= b2 && b2 <= 0xbf) ==> ((((b1
                    & 0x1f) as u32) << 6) | ((b2 & 0x3f) as u32)) < 0x80) by (bit_vector);
                assert(0xc2 <= b1);
                let w2 = pop_first_scalar(w1);
                assert(w2 =~= Seq::<u8>::empty());
                assert(false);
            } else {
                // a 3- or 4-byte lead cannot complete in the remaining two bytes
                assert(false);
            }
        } else if is_leading_byte_width_2(b0) {
            assert(decode_first_codepoint(w) == codepoint_width_2(b0, b1));
            assert((0xc0 <= b0 && b0 <= 0xc1 && 0x80 <= b1 && b1 <= 0xbf) ==> ((((b0
                & 0x1f) as u32) << 6) | ((b1 & 0x3f) as u32)) < 0x80) by (bit_vector);
            assert(0xc2 <= b0);
            let w1 = pop_first_scalar(w);
            assert(w1 =~= seq![b2]);
            assert(valid_utf8(w1));
            assert(valid_first_scalar(w1));
            assert(b2 < 0x80);
            assert(false);
        } else if is_leading_byte_width_3(b0) {
            assert(decode_first_codepoint(w) == codepoint_width_3(b0, b1, b2));
            let cp = codepoint_width_3(b0, b1, b2);
            assert({
                let cpv = ((((b0 & 0x0f) as u32) << 12) | (((b1 & 0x3f) as u32) << 6)) | ((b2
                    & 0x3f) as u32);
                ((b0 == 0xe0 && 0x80 <= b1 && b1 < 0xa0) ==> cpv < 0x800) && ((b0 == 0xed && 0xa0
                    <= b1 && b1 <= 0xbf) ==> (0xd800 <= cpv && cpv <= 0xdfff))
            }) by (bit_vector);
            assert(false);
        } else {
            // a 4-byte lead needs four bytes; anything else is no lead at all
            assert(false);
        }
    }
}

/// Whether a byte is an ASCII digit or letter.
fn ascii_alnum_byte(b: u8) -> (r: bool)
    ensures
        r == ascii_alnum(b),
{
    (0x30 <= b && b <= 0x39) || (0x41 <= b && b <= 0x5a) || (0x61 <= b && b <= 0x7a)
}

/// Lowercase an ASCII letter byte; other bytes pass through.
fn to_lower_byte(b: u8) -> (r: u8)
    ensures
        r == lower_byte(b),
{
    if 0x41 <= b && b <= 0x5a {
        b | 0x20
    } else {
        b
    }
}

/// Whether the byte passes both classifier predicates.
fn byte_text_like(b: u8) -> (r: bool)
    ensures
        r == (byte_printable(b) && byte_utf8_prefix(b)),
{
    ((b > 0x08 && b < 0x0e) || (b >= 0x20 && b < 0x7f)) && (b & 0x80 == 0 || b & 0xc0 == 0x80 || b
        & 0xe0 == 0xc0 || b & 0xf0 == 0xe0 || b & 0xf8 == 0xf0)
}

/// Whether the character with code point `cp` (beyond ASCII) is
/// alphanumeric.
fn codepoint_alnum(cp: u32) -> (r: bool)
    requires
        is_scalar(cp),
        0x80 <= cp,
    ensures
        r == codepoint_alphanumeric(cp),
{
    match char::from_u32(cp) {
        Some(c) => char_is_alphanumeric(c),
        None => {
            proof {
                assert(false);
            }
            false
        },
    }
}

/// Decide whether the window `[b0, b1, b2]` is kept: it must decode as
/// UTF-8 and every decoded character must be alphanumeric.
pub fn window_kept(b0: u8, b1: u8, b2: u8) -> (r: bool)
    ensures
        r == keep_window(seq![b0, b1, b2]),
{
    let ghost w = seq![b0, b1, b2];
    if b0 < 0x80 && b1 < 0x80 && b2 < 0x80 {
        let r = ascii_alnum_byte(b0) && ascii_alnum_byte(b1) && ascii_alnum_byte(b2);
        proof {
            lemma_window_ascii3(b0, b1, b2);
        }
        r
    } else if b0 < 0x80 && 0xc2 <= b1 && b1 <= 0xdf && 0x80 <= b2 && b2 <= 0xbf {
        let cp = (((b1 & 0x1f) as u32) << 6u32) | ((b2 & 0x3f) as u32);
        proof {
            lemma_window_a2(b0, b1, b2);
            assert(cp == codepoint_width_2(b1, b2));
        }
        let r = ascii_alnum_byte(b0) && codepoint_alnum(cp);
        r
    } else if 0xc2 <= b0 && b0 <= 0xdf && 0x80 <= b1 && b1 <= 0xbf && b2 < 0x80 {
        let cp = (((b0 & 0x1f) as u32) << 6u32) | ((b1 & 0x3f) as u32);
        proof {
            lemma_window_2a(b0, b1, b2);
            assert(cp == codepoint_width_2(b0, b1));
        }
        let r = codepoint_alnum(cp) && ascii_alnum_byte(b2);
        r
    } else if 0xe0 <= b0 && b0 <= 0xef && 0x80 <= b1 && b1 <= 0xbf && 0x80 <= b2 && b2 <= 0xbf && (
    b0 != 0xe0 || 0xa0 <= b1) && (b0 != 0xed || b1 <= 0x9f) {
        let cp = ((((b0 & 0x0f) as u32) << 12u32) | (((b1 & 0x3f) as u32) << 6u32)) | ((b2
            & 0x3f) as u32);
        proof {
            lemma_window_3(b0, b1, b2);
            assert(cp == codepoint_width_3(b0, b1, b2));
        }
        let r = codepoint_alnum(cp);
        r
    } else {
        proof {
            assert(!window_shape_ok(b0, b1, b2));
            lemma_window_invalid(b0, b1, b2);
        }
        false
    }
}

/// Whether `v` already holds a trigram with the bytes of `t`.
pub(crate) fn contains_trigram(v: &Vec<Trigram>, t: &Trigram) -> (r: bool)
    ensures
        r == trigram_views(v@).contains(t@),
{
    let mut j: usize = 0;
    while j < v.len()
        invariant
            0 <= j <= v@.len(),
            forall|k: int| 0 <= k < j ==> trigram_views(v@)[k] != t@,
        decreases v@.len() - j,
    {
        let u = v[j];
        if u.b0 == t.b0 && u.b1 == t.b1 && u.b2 == t.b2 {
            proof {
                assert(trigram_views(v@)[j as int] =~= t@);
                assert(trigram_views(v@).contains(t@));
            }
            return true;
        }
        proof {
            if trigram_views(v@)[j as int] == t@ {
                assert(v@[j as int]@ == t@);
                assert(v@[j as int]@[0] == t@[0] && v@[j as int]@[1] == t@[1] && v@[j as int]@[2]
                    == t@[2]);
                assert(false);
            }
        }
        j = j + 1;
    }
    proof {
        if trigram_views(v@).contains(t@) {
            let k = choose|k: int| 0 <= k < trigram_views(v@).len() && trigram_views(v@)[k] == t@;
            assert(false);
        }
    }
    false
}

/// Reads the bytes of a file and collects its distinct lowercased
/// alphanumeric trigrams, in order of first occurrence, or reports the
/// file as binary when a window fails the text test.
pub fn extract_trigrams(content: &[u8]) -> (r: Result<Vec<Trigram>, IndexError>)
    ensures
        match r {
            Ok(v) => !is_binary(content@) && trigram_views(v@) == extract_spec(content@),
            Err(e) => is_binary(content@) && e == IndexError::BinaryFile,
        },
{
    let mut out: Vec<Trigram> = Vec::new();
    if content.len() < 3 {
        proof {
            assert(trigram_views(out@) =~= extract_spec(content@));
        }
        return Ok(out);
    }
    let n = content.len() - 2;
    let mut i: usize = 0;
    while i < n
        invariant
            content@.len() >= 3,
            n == content@.len() - 2,
            0 <= i <= n,
            forall|j: int| 0 <= j < i ==> text_like(#[trigger] window(content@, j)),
            trigram_views(out@) == extract_upto(content@, i as int),
        decreases n - i,
    {
        let b0 = content[i];
        let b1 = content[i + 1];
        let b2 = content[i + 2];
        proof {
            assert(window(content@, i as int) =~= seq![b0, b1, b2]);
        }
        if !(byte_text_like(b0) && byte_text_like(b1) && byte_text_like(b2)) {
            proof {
                assert(!text_like(window(content@, i as int)));
                assert(is_binary(content@));
            }
            return Err(IndexError::BinaryFile);
        }
        if window_kept(b0, b1, b2) {
            let t = Trigram { b0: to_lower_byte(b0), b1: to_lower_byte(b1), b2: to_lower_byte(b2) };
            proof {
                assert(t@ =~= lower3(window(content@, i as int)));
            }
            if !contains_trigram(&out, &t) {
                out.push(t);
                proof {
                    assert(trigram_views(out@) =~= trigram_views(out@.drop_last()).push(t@));
                }
            }
        }
        i = i + 1;
        proof {
            assert(trigram_views(out@) =~= extract_upto(content@, i as int));
        }
    }
    proof {
        assert(!is_binary(content@));
        assert(trigram_views(out@) == extract_spec(content@));
    }
    Ok(out)
}

/// The query trigrams among the first `i` windows of a term's bytes:
/// every window whose three bytes are ASCII alphanumeric, lowercased.
/// Unlike a document's trigrams, duplicates are kept.
pub open spec fn query_upto(s: Seq<u8>, i: int) -> Seq<Seq<u8>>
    decreases i,
{
    if i <= 0 {
        seq![]
    } else {
        let prev = query_upto(s, i - 1);
        let w = window(s, i - 1);
        if ascii_alnum(w[0]) && ascii_alnum(w[1]) && ascii_alnum(w[2]) {
            prev.push(lower3(w))
        } else {
            prev
        }
    }
}

/// The query trigrams of a term's bytes.
pub open spec fn query_trigrams(s: Seq<u8>) -> Seq<Seq<u8>> {
    query_upto(s, window_count(s))
}

/// Appends to `buf` one lowercased trigram for every window of `bytes`
/// whose three bytes are all ASCII alphanumeric.
pub fn get_trigrams(bytes: &[u8], buf: &mut Vec<Trigram>)
    ensures
        trigram_views(final(buf)@) == trigram_views(old(buf)@) + query_trigrams(bytes@),
{
    if bytes.len() < 3 {
        proof {
            assert(trigram_views(buf@) =~= trigram_views(old(buf)@) + query_trigrams(bytes@));
        }
        return ;
    }
    let n = bytes.len() - 2;
    let mut i: usize = 0;
    while i < n
        invariant
            bytes@.len() >= 3,
            n == bytes@.len() - 2,
            0 <= i <= n,
            trigram_views(buf@) == trigram_views(old(buf)@) + query_upto(bytes@, i as int),
        decreases n - i,
    {
        let b0 = bytes[i];
        let b1 = bytes[i + 1];
        let b2 = bytes[i + 2];
        proof {
            assert(window(bytes@, i as int) =~= seq![b0, b1, b2]);
        }
        let ghost prev_buf = buf@;
        if ascii_alnum_byte(b0) && ascii_alnum_byte(b1) && ascii_alnum_byte(b2) {
            let t = Trigram { b0: to_lower_byte(b0), b1: to_lower_byte(b1), b2: to_lower_byte(b2) };
            proof {
                assert(t@ =~= lower3(window(bytes@, i as int)));
            }
            buf.push(t);
            proof {
                assert(trigram_views(buf@) =~= trigram_views(prev_buf).push(t@));
            }
        }
        i = i + 1;
        proof {
            assert(query_upto(bytes@, i as int) == (if ascii_alnum(window(bytes@, i - 1)[0])
                && ascii_alnum(window(bytes@, i - 1)[1]) && ascii_alnum(window(bytes@, i - 1)[2]) {
                query_upto(bytes@, i - 1).push(lower3(window(bytes@, i - 1)))
            } else {
                query_upto(bytes@, i - 1)
            }));
            assert(trigram_views(buf@) =~= trigram_views(old(buf)@) + query_upto(bytes@, i as int));
        }
    }
}

/// A file of fewer than three bytes yields no trigrams.
pub proof fn lemma_short_extract_empty(s: Seq<u8>)
    requires
        s.len() < 3,
    ensures
        extract_spec(s) == Seq::<Seq<u8>>::empty(),
        !is_binary(s),
{
    assert(extract_spec(s) =~= Seq::<Seq<u8>>::empty());
}

/// A zero byte anywhere in a file of at least three bytes makes the file
/// binary: some window holds it, and zero is not printable.
pub proof fn lemma_zero_byte_binary(s: Seq<u8>, p: int)
    requires
        s.len() >= 3,
        0 <= p < s.len(),
        s[p] == 0u8,
    ensures
        is_binary(s),
{
    let j = if p <= s.len() - 3 {
        p
    } else {
        s.len() - 3
    };
    assert(0 <= j < window_count(s));
    assert(window(s, j)[p - j] == 0u8);
    assert(!byte_printable(0u8));
    assert(!text_like(window(s, j)));
}

/// Distinct trigrams stay distinct: the extracted sequence never repeats
/// a trigram, for any input.
pub proof fn lemma_extract_no_duplicates(s: Seq<u8>, i: int)
    ensures
        extract_upto(s, i).no_duplicates(),
    decreases i,
{
    if i <= 0 {
    } else {
        lemma_extract_no_duplicates(s, i - 1);
        let prev = extract_upto(s, i - 1);
        let w = window(s, i - 1);
        if keep_window(w) && !prev.contains(lower3(w)) {
            let cur = prev.push(lower3(w));
            assert forall|a: int, b: int| 0 <= a < b < cur.len() implies cur[a] != cur[b] by {
                if b == cur.len() - 1 {
                    assert(cur[b] == lower3(w));
                    assert(cur[a] == prev[a]);
                    if cur[a] == lower3(w) {
                        assert(prev.contains(lower3(w)));
                    }
                }
            }
        }
    }
}

/// A window of three ASCII alphanumeric bytes is kept.
proof fn lemma_alnum_window_kept(b0: u8, b1: u8, b2: u8)
    requires
        ascii_alnum(b0),
        ascii_alnum(b1),
        ascii_alnum(b2),
    ensures
        keep_window(seq![b0, b1, b2]),
{
    lemma_window_ascii3(b0, b1, b2);
}

/// The distinct lowercased windows among the first `i`.
pub open spec fn lowered_windows_upto(s: Seq<u8>, i: int) -> Set<Seq<u8>> {
    Set::new(|w: Seq<u8>| exists|j: int| 0 <= j < i && #[trigger] lower3(window(s, j)) == w)
}

proof fn lemma_extract_upto_alnum_set(s: Seq<u8>, i: int)
    requires
        forall|k: int| 0 <= k < s.len() ==> ascii_alnum(s[k]),
        0 <= i <= window_count(s),
    ensures
        extract_upto(s, i).to_set() =~= lowered_windows_upto(s, i),
    decreases i,
{
    if i == 0 {
        assert(extract_upto(s, 0).to_set() =~= lowered_windows_upto(s, 0));
    } else {
        lemma_extract_upto_alnum_set(s, i - 1);
        let prev = extract_upto(s, i - 1);
        let w = window(s, i - 1);
        assert(w =~= seq![s[i - 1], s[i], s[i + 1]]);
        lemma_alnum_window_kept(s[i - 1], s[i], s[i + 1]);
        assert(keep_window(w));
        let cur = extract_upto(s, i);
        if prev.contains(lower3(w)) {
            assert(cur == prev);
            assert(cur.to_set() =~= lowered_windows_upto(s, i)) by {
                assert(prev.to_set().contains(lower3(w)));
            }
        } else {
            assert(cur == prev.push(lower3(w)));
            assert forall|a: Seq<u8>|
                cur.to_set().contains(a) == (prev.to_set().contains(a) || a == lower3(w)) by {
                if cur.contains(a) {
                    let k = choose|k: int| 0 <= k < cur.len() && cur[k] == a;
                    if k < prev.len() {
                        assert(prev[k] == a);
                        assert(prev.contains(a));
                    }
                }
                if prev.contains(a) {
                    let k = choose|k: int| 0 <= k < prev.len() && prev[k] == a;
                    assert(cur[k] == a);
                    assert(cur.contains(a));
                }
                if a == lower3(w) {
                    assert(cur[cur.len() - 1] == a);
                    assert(cur.contains(a));
                }
            }
            assert(cur.to_set() =~= prev.to_set().insert(lower3(w)));
            assert(cur.to_set() =~= lowered_windows_upto(s, i));
        }
    }
}

/// For a file whose bytes are all ASCII alphanumeric, the number of
/// extracted trigrams equals the number of distinct lowercased 3-byte
/// windows.
pub proof fn lemma_all_alnum_extract_count(s: Seq<u8>)
    requires
        forall|k: int| 0 <= k < s.len() ==> ascii_alnum(s[k]),
    ensures
        extract_spec(s).len() == lowered_windows_upto(s, window_count(s)).len(),
{
    lemma_extract_no_duplicates(s, window_count(s));
    if s.len() >= 3 {
        lemma_extract_upto_alnum_set(s, window_count(s));
    } else {
        assert(extract_spec(s) =~= Seq::<Seq<u8>>::empty());
        assert(extract_spec(s).to_set() =~= lowered_windows_upto(s, window_count(s)));
    }
    extract_spec(s).unique_seq_to_set();
}

} // verus!
