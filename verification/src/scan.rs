//! The lenient UTF-8 scanner.
//!
//! A byte sequence is walked one decoded unit at a time: either a
//! well-formed scalar encoding (1 to 4 bytes) or, where decoding fails, the
//! maximal subpart of an ill-formed sequence (1 to 3 bytes), which stands
//! for one replacement character.  All specifications are grounded in
//! `vstd::utf8`.

use vstd::prelude::*;
use vstd::utf8::decode_first_scalar;
use vstd::utf8::is_continuation_byte;
use vstd::utf8::is_leading_byte_width_1;
use vstd::utf8::is_leading_byte_width_2;
use vstd::utf8::is_leading_byte_width_3;
use vstd::utf8::is_leading_byte_width_4;
use vstd::utf8::length_of_first_scalar;
use vstd::utf8::not_overlong_encoding;
use vstd::utf8::not_surrogate;
use vstd::utf8::partial_valid_partial_invalid_utf8;
use vstd::utf8::partial_valid_utf8;
use vstd::utf8::partial_valid_utf8_extend;
use vstd::utf8::valid_first_scalar;
use vstd::utf8::valid_utf8;
use vstd::utf8::codepoint_width_2;
use vstd::utf8::codepoint_width_3;
use vstd::utf8::codepoint_width_4;
use vstd::utf8::decode_first_codepoint;
use vstd::utf8::is_scalar;

verus! {

/// The suffix of `s` that starts at position `i`.
pub open spec fn suffix(s: Seq<u8>, i: int) -> Seq<u8> {
    s.subrange(i, s.len() as int)
}

/// Length of the well-formed scalar encoding that starts at position `i`,
/// or 0 when no well-formed encoding starts there.
pub open spec fn scalar_len_at(s: Seq<u8>, i: int) -> int {
    if valid_first_scalar(suffix(s, i)) {
        length_of_first_scalar(suffix(s, i))
    } else {
        0
    }
}

/// The range a second byte must lie in so that, together with the leading
/// byte `b0`, it is still a prefix of some well-formed encoding.
pub open spec fn valid_second_byte(b0: u8, b1: u8) -> bool {
    if b0 == 0xE0 {
        0xA0 <= b1 <= 0xBF
    } else if b0 == 0xED {
        0x80 <= b1 <= 0x9F
    } else if b0 == 0xF0 {
        0x90 <= b1 <= 0xBF
    } else if b0 == 0xF4 {
        0x80 <= b1 <= 0x8F
    } else {
        is_continuation_byte(b1)
    }
}

/// Leading bytes that begin at least one well-formed multi-byte encoding.
pub open spec fn is_multibyte_lead(b0: u8) -> bool {
    0xC2 <= b0 <= 0xF4
}

/// Length of the maximal subpart of an ill-formed sequence at position `i`:
/// the longest prefix (1 to 3 bytes) of the remaining input that is still a
/// prefix of some well-formed encoding, or a single byte when there is none.
pub open spec fn subpart_len_at(s: Seq<u8>, i: int) -> int
    recommends
        0 <= i < s.len(),
        scalar_len_at(s, i) == 0,
{
    let b0 = s[i];
    if !is_multibyte_lead(b0) {
        1
    } else if i + 1 >= s.len() || !valid_second_byte(b0, s[i + 1]) {
        1
    } else if b0 <= 0xEF {
        2
    } else if i + 2 >= s.len() || !is_continuation_byte(s[i + 2]) {
        2
    } else {
        3
    }
}

/// Length of the decoded unit at position `i`: a well-formed scalar
/// encoding where one starts there, the maximal subpart otherwise.
pub open spec fn unit_len_at(s: Seq<u8>, i: int) -> int {
    if scalar_len_at(s, i) > 0 {
        scalar_len_at(s, i)
    } else {
        subpart_len_at(s, i)
    }
}

/// Basic bounds of the decoded unit at position `i`.
pub proof fn lemma_unit_len_bounds(s: Seq<u8>, i: int)
    requires
        0 <= i < s.len(),
    ensures
        1 <= unit_len_at(s, i) <= 4,
        i + unit_len_at(s, i) <= s.len(),
        scalar_len_at(s, i) > 0 ==> unit_len_at(s, i) == length_of_first_scalar(suffix(s, i)),
        scalar_len_at(s, i) == 0 ==> unit_len_at(s, i) <= 3,
{
    if valid_first_scalar(suffix(s, i)) {
        assert(suffix(s, i).len() == s.len() - i);
    }
}

proof fn lemma_width_2_ranges(b0: u8, b1: u8)
    by (bit_vector)
    requires
        0xC0 <= b0 <= 0xDF,
        0x80 <= b1 <= 0xBF,
    ensures
        ((((b0 & 0x1F) as u32) << 6) | ((b1 & 0x3F) as u32)) < 0x800,
        (0x80 <= ((((b0 & 0x1F) as u32) << 6) | ((b1 & 0x3F) as u32))) <==> 0xC2 <= b0,
{
}

proof fn lemma_width_3_ranges(b0: u8, b1: u8, b2: u8)
    by (bit_vector)
    requires
        0xE0 <= b0 <= 0xEF,
        0x80 <= b1 <= 0xBF,
        0x80 <= b2 <= 0xBF,
    ensures
        ((((b0 & 0x0F) as u32) << 12) | (((b1 & 0x3F) as u32) << 6) | ((b2 & 0x3F) as u32))
            <= 0xFFFF,
        (0x800 <= ((((b0 & 0x0F) as u32) << 12) | (((b1 & 0x3F) as u32) << 6) | ((b2
            & 0x3F) as u32)) && !(0xD800 <= ((((b0 & 0x0F) as u32) << 12) | (((b1
            & 0x3F) as u32) << 6) | ((b2 & 0x3F) as u32)) <= 0xDFFF)) <==> (if b0 == 0xE0 {
            0xA0 <= b1
        } else if b0 == 0xED {
            b1 <= 0x9F
        } else {
            true
        }),
{
}

proof fn lemma_width_4_ranges(b0: u8, b1: u8, b2: u8, b3: u8)
    by (bit_vector)
    requires
        0xF0 <= b0 <= 0xF7,
        0x80 <= b1 <= 0xBF,
        0x80 <= b2 <= 0xBF,
        0x80 <= b3 <= 0xBF,
    ensures
        (0x10000 <= ((((b0 & 0x07) as u32) << 18) | (((b1 & 0x3F) as u32) << 12) | (((b2
            & 0x3F) as u32) << 6) | ((b3 & 0x3F) as u32)) <= 0x10FFFF) <==> (if b0 == 0xF0 {
            0x90 <= b1
        } else if b0 <= 0xF3 {
            true
        } else if b0 == 0xF4 {
            b1 <= 0x8F
        } else {
            false
        }),
        0xD800 <= ((((b0 & 0x07) as u32) << 18) | (((b1 & 0x3F) as u32) << 12) | (((b2
            & 0x3F) as u32) << 6) | ((b3 & 0x3F) as u32)) ==> !(((((b0 & 0x07) as u32) << 18) | (((
        b1 & 0x3F) as u32) << 12) | (((b2 & 0x3F) as u32) << 6) | ((b3 & 0x3F) as u32)) <= 0xDFFF)
            || !(0x10000 <= ((((b0 & 0x07) as u32) << 18) | (((b1 & 0x3F) as u32) << 12) | (((b2
            & 0x3F) as u32) << 6) | ((b3 & 0x3F) as u32))),
{
}

/// Characterizes `scalar_len_at` by direct byte-range tests, so that an
/// executable scanner can decide it without computing codepoints.
pub proof fn lemma_scalar_len_at(s: Seq<u8>, i: int)
    requires
        0 <= i < s.len(),
    ensures
        scalar_len_at(s, i) == ({
            let b0 = s[i];
            if b0 <= 0x7F {
                1int
            } else if 0xC2 <= b0 <= 0xDF {
                if i + 1 < s.len() && is_continuation_byte(s[i + 1]) {
                    2int
                } else {
                    0int
                }
            } else if 0xE0 <= b0 <= 0xEF {
                if i + 2 < s.len() && valid_second_byte(b0, s[i + 1]) && is_continuation_byte(
                    s[i + 2],
                ) {
                    3int
                } else {
                    0int
                }
            } else if 0xF0 <= b0 <= 0xF4 {
                if i + 3 < s.len() && valid_second_byte(b0, s[i + 1]) && is_continuation_byte(
                    s[i + 2],
                ) && is_continuation_byte(s[i + 3]) {
                    4int
                } else {
                    0int
                }
            } else {
                0int
            }
        }),
{
    let t = suffix(s, i);
    assert(t.len() == s.len() - i);
    assert(forall|k: int| 0 <= k < t.len() ==> t[k] == s[i + k]);
    let b0 = s[i];
    if b0 <= 0x7F {
        assert(valid_first_scalar(t));
    } else if b0 <= 0xC1 {
        // A stray continuation byte, or a lead that only admits overlong
        // 2-byte encodings.
        if valid_first_scalar(t) {
            assert(is_leading_byte_width_2(b0) && is_continuation_byte(t[1]));
            lemma_width_2_ranges(b0, t[1]);
            assert(codepoint_width_2(b0, t[1]) == ((((b0 & 0x1F) as u32) << 6) | ((t[1]
                & 0x3F) as u32)));
            assert(false);
        }
    } else if b0 <= 0xDF {
        if i + 1 < s.len() && is_continuation_byte(s[i + 1]) {
            lemma_width_2_ranges(b0, s[i + 1]);
            assert(codepoint_width_2(b0, t[1]) == ((((b0 & 0x1F) as u32) << 6) | ((t[1]
                & 0x3F) as u32)));
            assert(valid_first_scalar(t));
            assert(length_of_first_scalar(t) == 2);
        } else {
            assert(!valid_first_scalar(t));
        }
    } else if b0 <= 0xEF {
        if i + 2 < s.len() && valid_second_byte(b0, s[i + 1]) && is_continuation_byte(s[i + 2]) {
            assert(is_continuation_byte(s[i + 1]));
            lemma_width_3_ranges(b0, s[i + 1], s[i + 2]);
            assert(codepoint_width_3(b0, t[1], t[2]) == ((((b0 & 0x0F) as u32) << 12) | (((t[1]
                & 0x3F) as u32) << 6) | ((t[2] & 0x3F) as u32)));
            assert(valid_first_scalar(t));
            assert(length_of_first_scalar(t) == 3);
        } else {
            if valid_first_scalar(t) {
                assert(is_continuation_byte(t[1]) && is_continuation_byte(t[2]));
                lemma_width_3_ranges(b0, t[1], t[2]);
                assert(codepoint_width_3(b0, t[1], t[2]) == ((((b0 & 0x0F) as u32) << 12) | (((t[1]
                    & 0x3F) as u32) << 6) | ((t[2] & 0x3F) as u32)));
                assert(false);
            }
        }
    } else if b0 <= 0xF4 {
        if i + 3 < s.len() && valid_second_byte(b0, s[i + 1]) && is_continuation_byte(s[i + 2])
            && is_continuation_byte(s[i + 3]) {
            assert(is_continuation_byte(s[i + 1]));
            lemma_width_4_ranges(b0, s[i + 1], s[i + 2], s[i + 3]);
            assert(codepoint_width_4(b0, t[1], t[2], t[3]) == ((((b0 & 0x07) as u32) << 18)
                | (((t[1] & 0x3F) as u32) << 12) | (((t[2] & 0x3F) as u32) << 6) | ((t[3]
                & 0x3F) as u32)));
            assert(valid_first_scalar(t));
            assert(length_of_first_scalar(t) == 4);
        } else {
            if valid_first_scalar(t) {
                assert(is_continuation_byte(t[1]) && is_continuation_byte(t[2])
                    && is_continuation_byte(t[3]));
                lemma_width_4_ranges(b0, t[1], t[2], t[3]);
                assert(codepoint_width_4(b0, t[1], t[2], t[3]) == ((((b0 & 0x07) as u32) << 18)
                    | (((t[1] & 0x3F) as u32) << 12) | (((t[2] & 0x3F) as u32) << 6) | ((t[3]
                    & 0x3F) as u32)));
                assert(false);
            }
        }
    } else {
        if valid_first_scalar(t) {
            if is_leading_byte_width_4(b0) {
                assert(is_continuation_byte(t[1]) && is_continuation_byte(t[2])
                    && is_continuation_byte(t[3]));
                lemma_width_4_ranges(b0, t[1], t[2], t[3]);
                assert(codepoint_width_4(b0, t[1], t[2], t[3]) == ((((b0 & 0x07) as u32) << 18)
                    | (((t[1] & 0x3F) as u32) << 12) | (((t[2] & 0x3F) as u32) << 6) | ((t[3]
                    & 0x3F) as u32)));
            }
            assert(false);
        }
    }
}

/// Reads the decoded-unit structure at position `i`: the length of the
/// well-formed scalar encoding starting there, or 0 when there is none.
pub(crate) fn scalar_len(b: &[u8], i: usize) -> (n: usize)
    requires
        i < b@.len(),
    ensures
        n == scalar_len_at(b@, i as int),
        n <= 4,
        i + n <= b@.len(),
{
    proof {
        lemma_scalar_len_at(b@, i as int);
        lemma_unit_len_bounds(b@, i as int);
    }
    let len = b.len();
    let b0 = b[i];
    if b0 <= 0x7F {
        1
    } else if 0xC2 <= b0 && b0 <= 0xDF {
        if i + 1 < len && is_cont(b[i + 1]) {
            2
        } else {
            0
        }
    } else if 0xE0 <= b0 && b0 <= 0xEF {
        if len - i > 2 && second_byte_ok(b0, b[i + 1]) && is_cont(b[i + 2]) {
            3
        } else {
            0
        }
    } else if 0xF0 <= b0 && b0 <= 0xF4 {
        if len - i > 3 && second_byte_ok(b0, b[i + 1]) && is_cont(b[i + 2]) && is_cont(b[i + 3]) {
            4
        } else {
            0
        }
    } else {
        0
    }
}

fn is_cont(b: u8) -> (r: bool)
    ensures
        r == is_continuation_byte(b),
{
    0x80 <= b && b <= 0xBF
}

fn second_byte_ok(b0: u8, b1: u8) -> (r: bool)
    ensures
        r == valid_second_byte(b0, b1),
{
    if b0 == 0xE0 {
        0xA0 <= b1 && b1 <= 0xBF
    } else if b0 == 0xED {
        0x80 <= b1 && b1 <= 0x9F
    } else if b0 == 0xF0 {
        0x90 <= b1 && b1 <= 0xBF
    } else if b0 == 0xF4 {
        0x80 <= b1 && b1 <= 0x8F
    } else {
        is_cont(b1)
    }
}

/// Reads the length of the maximal subpart of the ill-formed sequence at
/// position `i`.
pub(crate) fn subpart_len(b: &[u8], i: usize) -> (k: usize)
    requires
        i < b@.len(),
        scalar_len_at(b@, i as int) == 0,
    ensures
        k == subpart_len_at(b@, i as int),
        1 <= k <= 3,
        i + k <= b@.len(),
{
    let len = b.len();
    let b0 = b[i];
    if !(0xC2 <= b0 && b0 <= 0xF4) {
        1
    } else if len - i <= 1 || !second_byte_ok(b0, b[i + 1]) {
        1
    } else if b0 <= 0xEF {
        2
    } else if len - i <= 2 || !is_cont(b[i + 2]) {
        2
    } else {
        3
    }
}

/// The characters of the input under lenient decoding, read from position
/// `i` on: one character per well-formed scalar encoding, and one
/// replacement character per maximal subpart of an ill-formed sequence.
pub open spec fn lenient_chars_at(s: Seq<u8>, i: int) -> Seq<char>
    decreases s.len() - i,
    when 0 <= i <= s.len()
{
    if i >= s.len() {
        seq![]
    } else {
        let n = scalar_len_at(s, i);
        if n > 0 {
            seq![decode_first_scalar(suffix(s, i)) as char] + lenient_chars_at(s, i + n)
        } else {
            seq!['\u{FFFD}'] + lenient_chars_at(s, i + subpart_len_at(s, i))
        }
    }
}

/// The characters of the whole input under lenient decoding.
pub open spec fn lenient_chars(s: Seq<u8>) -> Seq<char> {
    lenient_chars_at(s, 0)
}

proof fn lemma_lenient_chars_at_of_valid(s: Seq<u8>, i: int)
    requires
        0 <= i <= s.len(),
        valid_utf8(suffix(s, i)),
    ensures
        lenient_chars_at(s, i) == vstd::utf8::decode_utf8(suffix(s, i)),
    decreases s.len() - i,
{
    let t = suffix(s, i);
    if i >= s.len() {
        assert(t.len() == 0);
    } else {
        assert(valid_first_scalar(t));
        let n = scalar_len_at(s, i);
        lemma_unit_len_bounds(s, i);
        assert(suffix(s, i + n) =~= vstd::utf8::pop_first_scalar(t));
        lemma_lenient_chars_at_of_valid(s, i + n);
    }
}

/// On well-formed UTF-8 input, lenient decoding yields exactly the decoded
/// character sequence — no replacement character is ever introduced — and
/// re-encoding that sequence reproduces the input bytes.
pub proof fn lemma_lenient_chars_of_valid(s: Seq<u8>)
    requires
        valid_utf8(s),
    ensures
        lenient_chars(s) == vstd::utf8::decode_utf8(s),
        vstd::utf8::encode_utf8(lenient_chars(s)) == s,
{
    assert(suffix(s, 0) =~= s);
    lemma_lenient_chars_at_of_valid(s, 0);
    vstd::utf8::decode_utf8_encode_utf8(s);
}

/// Relies on `char::from_u32` of std: the result is the character with the
/// given scalar value, and `None` exactly for non-scalar values
/// (surrogates and values above the Unicode range).
#[verifier::external_body]
fn char_from_u32(v: u32) -> (r: Option<char>)
    ensures
        is_scalar(v) ==> r == Some(v as char),
        !is_scalar(v) ==> r is None,
{
    char::from_u32(v)
}

/// Decodes the well-formed scalar encoding of length `n` at position `i`
/// to its scalar value.
pub(crate) fn decode_scalar_value(b: &[u8], i: usize, n: usize) -> (v: u32)
    requires
        i < b@.len(),
        n == scalar_len_at(b@, i as int),
        1 <= n,
    ensures
        v == decode_first_scalar(suffix(b@, i as int)),
        vstd::utf8::is_scalar(v),
{
    let ghost t = suffix(b@, i as int);
    proof {
        lemma_unit_len_bounds(b@, i as int);
        assert(forall|k: int| 0 <= k < t.len() ==> t[k] == b@[i + k]);
    }
    let b0 = b[i];
    let cp: u32 = if n == 1 {
        proof {
            assert(is_leading_byte_width_1(t[0]));
            assert((b0 & 0x7F) as u32 <= 0x7F && (b0 & 0x7F) == b0) by (bit_vector)
                requires
                    b0 <= 0x7F,
            ;
        }
        (b0 & 0x7F) as u32
    } else if n == 2 {
        let b1 = b[i + 1];
        proof {
            assert(!is_leading_byte_width_1(t[0]) && is_leading_byte_width_2(t[0]));
            lemma_width_2_ranges(b0, b1);
            assert(codepoint_width_2(b0, b1) == ((((b0 & 0x1F) as u32) << 6) | ((b1
                & 0x3F) as u32)));
        }
        (((b0 & 0x1F) as u32) << 6) | ((b1 & 0x3F) as u32)
    } else if n == 3 {
        let b1 = b[i + 1];
        let b2 = b[i + 2];
        proof {
            assert(!is_leading_byte_width_1(t[0]) && !is_leading_byte_width_2(t[0])
                && is_leading_byte_width_3(t[0]));
            lemma_width_3_ranges(b0, b1, b2);
            assert(codepoint_width_3(b0, b1, b2) == ((((b0 & 0x0F) as u32) << 12) | (((b1
                & 0x3F) as u32) << 6) | ((b2 & 0x3F) as u32)));
        }
        (((b0 & 0x0F) as u32) << 12) | (((b1 & 0x3F) as u32) << 6) | ((b2 & 0x3F) as u32)
    } else {
        let b1 = b[i + 1];
        let b2 = b[i + 2];
        let b3 = b[i + 3];
        proof {
            assert(!is_leading_byte_width_1(t[0]) && !is_leading_byte_width_2(t[0])
                && !is_leading_byte_width_3(t[0]) && is_leading_byte_width_4(t[0]));
            lemma_width_4_ranges(b0, b1, b2, b3);
            assert(codepoint_width_4(b0, b1, b2, b3) == ((((b0 & 0x07) as u32) << 18) | (((b1
                & 0x3F) as u32) << 12) | (((b2 & 0x3F) as u32) << 6) | ((b3 & 0x3F) as u32)));
        }
        (((b0 & 0x07) as u32) << 18) | (((b1 & 0x3F) as u32) << 12) | (((b2 & 0x3F) as u32) << 6)
            | ((b3 & 0x3F) as u32)
    };
    proof {
        assert(cp == decode_first_codepoint(t));
        assert(not_overlong_encoding(cp, n as int) && not_surrogate(cp));
        assert(is_scalar(cp));
    }
    cp
}

/// Decodes the well-formed scalar encoding of length `n` at position `i`.
fn decode_scalar(b: &[u8], i: usize, n: usize) -> (c: char)
    requires
        i < b@.len(),
        n == scalar_len_at(b@, i as int),
        1 <= n,
    ensures
        c == decode_first_scalar(suffix(b@, i as int)) as char,
{
    let cp = decode_scalar_value(b, i, n);
    let r = char_from_u32(cp);
    match r {
        Some(c) => c,
        None => {
            proof {
                assert(false);
            }
            '\u{FFFD}'
        },
    }
}

/// The characters of the input under lenient decoding: one character per
/// well-formed scalar encoding, one replacement character per maximal
/// subpart of an ill-formed sequence, in input order.
pub fn chars(subject: &[u8]) -> (r: Vec<char>)
    ensures
        r@ == lenient_chars(subject@),
{
    let ghost s = subject@;
    let mut out: Vec<char> = Vec::new();
    let mut i: usize = 0;
    while i < subject.len()
        invariant
            0 <= i <= s.len(),
            s == subject@,
            lenient_chars(s) == out@ + lenient_chars_at(s, i as int),
        decreases s.len() - i,
    {
        let ghost out0 = out@;
        let ghost i0 = i as int;
        let n = scalar_len(subject, i);
        if n > 0 {
            let c = decode_scalar(subject, i, n);
            out.push(c);
            i = i + n;
            proof {
                assert(out@ + lenient_chars_at(s, i as int) =~= out0 + lenient_chars_at(s, i0));
            }
        } else {
            let k = subpart_len(subject, i);
            out.push('\u{FFFD}');
            i = i + k;
            proof {
                assert(out@ + lenient_chars_at(s, i as int) =~= out0 + lenient_chars_at(s, i0));
            }
        }
    }
    proof {
        assert(out@ + lenient_chars_at(s, i as int) =~= out@);
    }
    out
}

/// True when every byte of `s` is ASCII.
pub open spec fn is_ascii_bytes(s: Seq<u8>) -> bool {
    forall|k: int| 0 <= k < s.len() ==> s[k] < 0x80
}

/// Whether every byte of the input is ASCII.
pub fn is_ascii(subject: &[u8]) -> (r: bool)
    ensures
        r == is_ascii_bytes(subject@),
{
    let mut i: usize = 0;
    while i < subject.len()
        invariant
            0 <= i <= subject@.len(),
            forall|k: int| 0 <= k < i ==> subject@[k] < 0x80,
        decreases subject@.len() - i,
    {
        if subject[i] >= 0x80 {
            return false;
        }
        i = i + 1;
    }
    true
}

/// Whether the whole input is well-formed UTF-8.
pub fn is_utf8(subject: &[u8]) -> (r: bool)
    ensures
        r == valid_utf8(subject@),
{
    let s = Ghost(subject@);
    let mut i: usize = 0;
    while i < subject.len()
        invariant
            0 <= i <= s@.len(),
            s@ == subject@,
            partial_valid_utf8(s@, i as int),
        decreases s@.len() - i,
    {
        let n = scalar_len(subject, i);
        if n == 0 {
            proof {
                assert(!valid_first_scalar(suffix(s@, i as int)));
                assert(suffix(s@, i as int).len() > 0);
                assert(!valid_utf8(suffix(s@, i as int)));
                partial_valid_partial_invalid_utf8(s@, i as int);
            }
            return false;
        }
        proof {
            partial_valid_utf8_extend(s@, i as int);
        }
        i = i + n;
    }
    proof {
        assert(s@.subrange(0, s@.len() as int) =~= s@);
    }
    true
}

} // verus!
