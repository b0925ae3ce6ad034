//! The field splitters.
//!
//! Fields are the maximal runs between maximal runs of Unicode whitespace,
//! with the input decoded leniently: an ill-formed unit stands for the
//! replacement character, which is not whitespace, and so always belongs to
//! a field.  [`fields`] returns the original bytes of each field;
//! [`split_whitespace`] returns each field as decoded text, with ill-formed
//! units replaced.

use vstd::prelude::*;
use vstd::slice::slice_subrange;
use vstd::slice::slice_to_vec;
use vstd::utf8::decode_first_scalar;
use crate::scan::chars;
use crate::scan::lemma_unit_len_bounds;
use crate::scan::lenient_chars;
use crate::scan::lenient_chars_at;
use crate::scan::scalar_len;
use crate::scan::scalar_len_at;
use crate::scan::subpart_len;
use crate::scan::suffix;
use crate::scan::unit_len_at;

verus! {

/// The scalar values with the Unicode `White_Space` property.
pub open spec fn is_ws_scalar(v: u32) -> bool {
    ||| v == 0x20
    ||| 0x09 <= v <= 0x0D
    ||| v == 0x85
    ||| v == 0xA0
    ||| v == 0x1680
    ||| 0x2000 <= v <= 0x200A
    ||| v == 0x2028
    ||| v == 0x2029
    ||| v == 0x202F
    ||| v == 0x205F
    ||| v == 0x3000
}

/// The characters with the Unicode `White_Space` property.
pub open spec fn is_ws_char(c: char) -> bool {
    is_ws_scalar(c as u32)
}

/// Whether the decoded unit at position `i` is a whitespace character.  An
/// ill-formed unit stands for the replacement character and never is.
pub open spec fn unit_is_ws(s: Seq<u8>, i: int) -> bool {
    scalar_len_at(s, i) > 0 && is_ws_scalar(decode_first_scalar(suffix(s, i)))
}

/// The fields of `s` from position `i` on, as byte ranges of the input,
/// with a field open since position `start` when `in_field` holds.
pub open spec fn fields_from(s: Seq<u8>, i: int, start: int, in_field: bool) -> Seq<Seq<u8>>
    decreases s.len() - i,
    when 0 <= start <= i <= s.len()
{
    if i >= s.len() {
        if in_field {
            seq![s.subrange(start, i)]
        } else {
            seq![]
        }
    } else {
        let u = unit_len_at(s, i);
        if unit_is_ws(s, i) {
            if in_field {
                seq![s.subrange(start, i)] + fields_from(s, i + u, 0, false)
            } else {
                fields_from(s, i + u, 0, false)
            }
        } else {
            if in_field {
                fields_from(s, i + u, start, true)
            } else {
                fields_from(s, i + u, i, true)
            }
        }
    }
}

/// The fields of `s`: its maximal nonempty non-whitespace runs, in order,
/// as bytes of the input.
pub open spec fn fields_seq(s: Seq<u8>) -> Seq<Seq<u8>> {
    fields_from(s, 0, 0, false)
}

fn is_ws_value(v: u32) -> (r: bool)
    ensures
        r == is_ws_scalar(v),
{
    v == 0x20 || (0x09 <= v && v <= 0x0D) || v == 0x85 || v == 0xA0 || v == 0x1680 || (0x2000 <= v
        && v <= 0x200A) || v == 0x2028 || v == 0x2029 || v == 0x202F || v == 0x205F || v == 0x3000
}

/// The fields of the input, separated by maximal runs of Unicode
/// whitespace: no field is empty, and surrounding or interior whitespace
/// runs never produce one.  Each field holds the original bytes.
pub fn fields(subject: &[u8]) -> (r: Vec<Vec<u8>>)
    ensures
        r@.map_values(|v: Vec<u8>| v@) == fields_seq(subject@),
{
    let ghost s = subject@;
    let mut out: Vec<Vec<u8>> = Vec::new();
    let ghost mut done: Seq<Seq<u8>> = seq![];
    let mut start: usize = 0;
    let mut in_field: bool = false;
    let mut i: usize = 0;
    while i < subject.len()
        invariant
            0 <= i <= s.len(),
            in_field ==> 0 <= start <= i,
            s == subject@,
            fields_seq(s) == done + fields_from(
                s,
                i as int,
                if in_field {
                    start as int
                } else {
                    0int
                },
                in_field,
            ),
            out@.map_values(|v: Vec<u8>| v@) == done,
        decreases s.len() - i,
    {
        proof {
            lemma_unit_len_bounds(s, i as int);
        }
        let n = scalar_len(subject, i);
        let ws: bool = if n > 0 {
            let v = crate::scan::decode_scalar_value(subject, i, n);
            is_ws_value(v)
        } else {
            false
        };
        let u = if n > 0 {
            n
        } else {
            subpart_len(subject, i)
        };
        proof {
            assert(u == unit_len_at(s, i as int));
            assert(ws == unit_is_ws(s, i as int));
        }
        if ws {
            if in_field {
                let ghost field = s.subrange(start as int, i as int);
                let piece: Vec<u8> = slice_to_vec(slice_subrange(subject, start, i));
                out.push(piece);
                proof {
                    let done0 = done;
                    done = done.push(field);
                    assert(out@.map_values(|v: Vec<u8>| v@) =~= done);
                    assert(done0 + fields_from(s, i as int, start as int, true) =~= done
                        + fields_from(s, i as int + u, 0, false));
                }
                in_field = false;
            }
            i = i + u;
        } else {
            if !in_field {
                start = i;
                in_field = true;
            }
            i = i + u;
        }
    }
    if in_field {
        let ghost field = s.subrange(start as int, i as int);
        let piece: Vec<u8> = slice_to_vec(slice_subrange(subject, start, i));
        out.push(piece);
        proof {
            let done0 = done;
            done = done.push(field);
            assert(out@.map_values(|v: Vec<u8>| v@) =~= done);
            assert(done0 + fields_from(s, i as int, start as int, true) =~= done);
        }
    } else {
        proof {
            assert(done + fields_from(s, i as int, 0, false) =~= done);
        }
    }
    out
}

/// The whitespace-separated fields of a character sequence, read from
/// position `i` on, with a field open since position `start` when
/// `in_field` holds.
pub open spec fn ws_fields_from(cs: Seq<char>, i: int, start: int, in_field: bool) -> Seq<Seq<char>>
    decreases cs.len() - i,
    when 0 <= start <= i <= cs.len()
{
    if i >= cs.len() {
        if in_field {
            seq![cs.subrange(start, i)]
        } else {
            seq![]
        }
    } else if is_ws_char(cs[i]) {
        if in_field {
            seq![cs.subrange(start, i)] + ws_fields_from(cs, i + 1, 0, false)
        } else {
            ws_fields_from(cs, i + 1, 0, false)
        }
    } else {
        if in_field {
            ws_fields_from(cs, i + 1, start, true)
        } else {
            ws_fields_from(cs, i + 1, i, true)
        }
    }
}

/// The fields of the leniently decoded text of `s`: its maximal nonempty
/// runs of non-whitespace characters, in order.
pub open spec fn split_whitespace_seq(s: Seq<u8>) -> Seq<Seq<char>> {
    ws_fields_from(lenient_chars(s), 0, 0, false)
}

proof fn lemma_fields_from_nonempty(s: Seq<u8>, i: int, start: int, in_field: bool, j: int)
    requires
        0 <= start <= i <= s.len(),
        in_field ==> start < i,
        0 <= j < fields_from(s, i, start, in_field).len(),
    ensures
        fields_from(s, i, start, in_field)[j].len() > 0,
    decreases s.len() - i,
{
    if i >= s.len() {
    } else {
        let u = unit_len_at(s, i);
        lemma_unit_len_bounds(s, i);
        if unit_is_ws(s, i) {
            if in_field {
                if j > 0 {
                    lemma_fields_from_nonempty(s, i + u, 0, false, j - 1);
                }
            } else {
                lemma_fields_from_nonempty(s, i + u, 0, false, j);
            }
        } else {
            if in_field {
                lemma_fields_from_nonempty(s, i + u, start, true, j);
            } else {
                lemma_fields_from_nonempty(s, i + u, i, true, j);
            }
        }
    }
}

/// No field is empty: leading, trailing and interior whitespace runs never
/// produce one.
pub proof fn lemma_fields_nonempty(s: Seq<u8>, j: int)
    requires
        0 <= j < fields_seq(s).len(),
    ensures
        fields_seq(s)[j].len() > 0,
{
    lemma_fields_from_nonempty(s, 0, 0, false, j);
}

proof fn lemma_ws_fields_from_nonempty(cs: Seq<char>, i: int, start: int, in_field: bool, j: int)
    requires
        0 <= start <= i <= cs.len(),
        in_field ==> start < i,
        0 <= j < ws_fields_from(cs, i, start, in_field).len(),
    ensures
        ws_fields_from(cs, i, start, in_field)[j].len() > 0,
    decreases cs.len() - i,
{
    if i >= cs.len() {
    } else if is_ws_char(cs[i]) {
        if in_field {
            if j > 0 {
                lemma_ws_fields_from_nonempty(cs, i + 1, 0, false, j - 1);
            }
        } else {
            lemma_ws_fields_from_nonempty(cs, i + 1, 0, false, j);
        }
    } else {
        if in_field {
            lemma_ws_fields_from_nonempty(cs, i + 1, start, true, j);
        } else {
            lemma_ws_fields_from_nonempty(cs, i + 1, i, true, j);
        }
    }
}

/// No decoded-text field is empty either.
pub proof fn lemma_split_whitespace_nonempty(s: Seq<u8>, j: int)
    requires
        0 <= j < split_whitespace_seq(s).len(),
    ensures
        split_whitespace_seq(s)[j].len() > 0,
{
    lemma_ws_fields_from_nonempty(lenient_chars(s), 0, 0, false, j);
}

proof fn lemma_ascii_unit(s: Seq<u8>, i: int)
    requires
        crate::scan::is_ascii_bytes(s),
        0 <= i < s.len(),
    ensures
        scalar_len_at(s, i) == 1,
        decode_first_scalar(suffix(s, i)) == s[i] as u32,
{
    let t = suffix(s, i);
    assert(t[0] == s[i]);
    assert(t[0] < 0x80);
    let b = t[0];
    assert((b & 0x7F) == b && ((b & 0x7F) as u32) <= 0x7F) by (bit_vector)
        requires
            b < 0x80,
    ;
    assert(vstd::utf8::valid_first_scalar(t));
}

proof fn lemma_ascii_chars_at(s: Seq<u8>, i: int)
    requires
        crate::scan::is_ascii_bytes(s),
        0 <= i <= s.len(),
    ensures
        lenient_chars_at(s, i) == Seq::new((s.len() - i) as nat, |k: int| s[i + k] as char),
    decreases s.len() - i,
{
    if i >= s.len() {
        assert(lenient_chars_at(s, i) =~= Seq::new(
            (s.len() - i) as nat,
            |k: int| s[i + k] as char,
        ));
    } else {
        lemma_ascii_unit(s, i);
        lemma_ascii_chars_at(s, i + 1);
        assert(lenient_chars_at(s, i) =~= Seq::new(
            (s.len() - i) as nat,
            |k: int| s[i + k] as char,
        ));
    }
}

/// A field of bytes, read as characters.
pub open spec fn field_chars(fd: Seq<u8>) -> Seq<char> {
    fd.map_values(|x: u8| x as char)
}

proof fn lemma_fields_agree_from(s: Seq<u8>, i: int, start: int, f: bool)
    requires
        crate::scan::is_ascii_bytes(s),
        0 <= start <= i <= s.len(),
    ensures
        ws_fields_from(lenient_chars_at(s, 0), i, start, f) == fields_from(
            s,
            i,
            start,
            f,
        ).map_values(|fd: Seq<u8>| field_chars(fd)),
    decreases s.len() - i,
{
    let cs = lenient_chars_at(s, 0);
    lemma_ascii_chars_at(s, 0);
    assert(cs.len() == s.len());
    assert(forall|k: int| 0 <= k < s.len() ==> cs[k] == s[k] as char);
    if i >= s.len() {
        if f {
            assert(cs.subrange(start, i) =~= field_chars(s.subrange(start, i)));
            assert(ws_fields_from(cs, i, start, f) =~= fields_from(s, i, start, f).map_values(
                |fd: Seq<u8>| field_chars(fd),
            ));
        } else {
            assert(ws_fields_from(cs, i, start, f) =~= fields_from(s, i, start, f).map_values(
                |fd: Seq<u8>| field_chars(fd),
            ));
        }
    } else {
        lemma_ascii_unit(s, i);
        assert(unit_len_at(s, i) == 1);
        assert((s[i] as char) as u32 == s[i] as u32);
        assert(unit_is_ws(s, i) == is_ws_char(cs[i]));
        if unit_is_ws(s, i) {
            lemma_fields_agree_from(s, i + 1, 0, false);
            if f {
                assert(cs.subrange(start, i) =~= field_chars(s.subrange(start, i)));
                assert(ws_fields_from(cs, i, start, f) =~= fields_from(s, i, start, f).map_values(
                    |fd: Seq<u8>| field_chars(fd),
                ));
            }
        } else {
            if f {
                lemma_fields_agree_from(s, i + 1, start, true);
            } else {
                lemma_fields_agree_from(s, i + 1, i, true);
            }
        }
    }
}

/// On ASCII input the two field splitters agree: the decoded-text fields
/// are exactly the byte fields, read as characters.
pub proof fn lemma_field_splitters_agree_on_ascii(s: Seq<u8>)
    requires
        crate::scan::is_ascii_bytes(s),
    ensures
        split_whitespace_seq(s) == fields_seq(s).map_values(|fd: Seq<u8>| field_chars(fd)),
{
    lemma_fields_agree_from(s, 0, 0, false);
}

/// Relies on `String::push` of std: appends exactly the given character at
/// the end of the string.
#[verifier::external_body]
fn string_push(s: &mut String, c: char)
    ensures
        final(s)@ == old(s)@.push(c),
{
    s.push(c);
}

/// The whitespace-separated fields of the input's leniently decoded text:
/// each ill-formed unit is replaced by the replacement character, and the
/// resulting characters are split on maximal runs of Unicode whitespace.
/// On well-formed ASCII input this agrees with [`fields`].
pub fn split_whitespace(subject: &[u8]) -> (r: Vec<String>)
    ensures
        r@.map_values(|t: String| t@) == split_whitespace_seq(subject@),
{
    let cv: Vec<char> = chars(subject);
    let ghost cs = cv@;
    let mut out: Vec<String> = Vec::new();
    let ghost mut done: Seq<Seq<char>> = seq![];
    let mut cur: String = String::new();
    let mut start: usize = 0;
    let mut in_field: bool = false;
    let mut i: usize = 0;
    while i < cv.len()
        invariant
            0 <= i <= cs.len(),
            in_field ==> 0 <= start <= i,
            cs == cv@,
            in_field ==> cur@ == cs.subrange(start as int, i as int),
            !in_field ==> cur@ == Seq::<char>::empty(),
            split_whitespace_seq(subject@) == done + ws_fields_from(
                cs,
                i as int,
                if in_field {
                    start as int
                } else {
                    0int
                },
                in_field,
            ),
            out@.map_values(|t: String| t@) == done,
        decreases cs.len() - i,
    {
        let c = cv[i];
        if is_ws_value(c as u32) {
            proof {
                assert(is_ws_char(cs[i as int]) == is_ws_scalar(c as u32));
            }
            if in_field {
                let ghost field = cs.subrange(start as int, i as int);
                out.push(cur);
                cur = String::new();
                proof {
                    let done0 = done;
                    done = done.push(field);
                    assert(out@.map_values(|t: String| t@) =~= done);
                    assert(done0 + ws_fields_from(cs, i as int, start as int, true) =~= done
                        + ws_fields_from(cs, i as int + 1, 0, false));
                }
                in_field = false;
            }
            i = i + 1;
        } else {
            proof {
                assert(is_ws_char(cs[i as int]) == is_ws_scalar(c as u32));
            }
            if !in_field {
                start = i;
                in_field = true;
            }
            string_push(&mut cur, c);
            proof {
                assert(cur@ =~= cs.subrange(start as int, i as int + 1));
            }
            i = i + 1;
        }
    }
    if in_field {
        let ghost field = cs.subrange(start as int, i as int);
        out.push(cur);
        proof {
            let done0 = done;
            done = done.push(field);
            assert(out@.map_values(|t: String| t@) =~= done);
            assert(done0 + ws_fields_from(cs, i as int, start as int, true) =~= done);
        }
    } else {
        proof {
            assert(done + ws_fields_from(cs, i as int, 0, false) =~= done);
        }
    }
    out
}

} // verus!
