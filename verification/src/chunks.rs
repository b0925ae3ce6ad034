//! The UTF-8 chunk decoder.
//!
//! A byte sequence is split into an alternating list of maximal well-formed
//! runs and maximal subparts of ill-formed sequences, covering the input
//! exactly once, in order.

use vstd::prelude::*;
use vstd::slice::slice_subrange;
use vstd::slice::slice_to_vec;
use vstd::utf8::valid_first_scalar;
use vstd::utf8::valid_utf8;
use vstd::utf8::valid_utf8_concat;
use vstd::utf8::pop_first_scalar;
use vstd::utf8::length_of_first_scalar;
use vstd::utf8::decode_first_scalar;
use vstd::utf8::decode_utf8;
use crate::scan::lemma_unit_len_bounds;
use crate::scan::lenient_chars;
use crate::scan::lenient_chars_at;
use crate::scan::scalar_len;
use crate::scan::scalar_len_at;
use crate::scan::subpart_len;
use crate::scan::subpart_len_at;
use crate::scan::suffix;

verus! {

/// The chunk list of `s` from position `i` on, with a well-formed run open
/// since position `run_start`.  Each chunk is a flag (true for a
/// well-formed run) and the bytes it covers.
pub open spec fn chunks_from(s: Seq<u8>, i: int, run_start: int) -> Seq<(bool, Seq<u8>)>
    decreases s.len() - i,
    when 0 <= run_start <= i <= s.len()
{
    if i >= s.len() {
        if run_start < i {
            seq![(true, s.subrange(run_start, i))]
        } else {
            seq![]
        }
    } else {
        let n = scalar_len_at(s, i);
        if n > 0 {
            chunks_from(s, i + n, run_start)
        } else {
            let k = subpart_len_at(s, i);
            let inv = (false, s.subrange(i, i + k));
            if run_start < i {
                seq![(true, s.subrange(run_start, i)), inv] + chunks_from(s, i + k, i + k)
            } else {
                seq![inv] + chunks_from(s, i + k, i + k)
            }
        }
    }
}

/// The chunk list of a whole byte sequence: maximal well-formed runs and
/// maximal ill-formed subparts, alternating, in input order.
pub open spec fn utf8_chunk_seq(s: Seq<u8>) -> Seq<(bool, Seq<u8>)> {
    chunks_from(s, 0, 0)
}

/// The bytes of the well-formed chunks of a chunk list, in order.
pub open spec fn valid_parts(cs: Seq<(bool, Seq<u8>)>) -> Seq<Seq<u8>>
    decreases cs.len(),
{
    if cs.len() == 0 {
        seq![]
    } else if cs[0].0 {
        seq![cs[0].1] + valid_parts(cs.drop_first())
    } else {
        valid_parts(cs.drop_first())
    }
}

/// The bytes of the ill-formed chunks of a chunk list, in order.
pub open spec fn invalid_parts(cs: Seq<(bool, Seq<u8>)>) -> Seq<Seq<u8>>
    decreases cs.len(),
{
    if cs.len() == 0 {
        seq![]
    } else if !cs[0].0 {
        seq![cs[0].1] + invalid_parts(cs.drop_first())
    } else {
        invalid_parts(cs.drop_first())
    }
}

/// The bytes of all chunks of a chunk list, in order.
pub open spec fn all_parts(cs: Seq<(bool, Seq<u8>)>) -> Seq<Seq<u8>>
    decreases cs.len(),
{
    if cs.len() == 0 {
        seq![]
    } else {
        seq![cs[0].1] + all_parts(cs.drop_first())
    }
}

/// The maximal well-formed runs of `s`, in order.
pub open spec fn valid_chunks(s: Seq<u8>) -> Seq<Seq<u8>> {
    valid_parts(utf8_chunk_seq(s))
}

/// The maximal ill-formed subparts of `s`, in order.
pub open spec fn invalid_chunks(s: Seq<u8>) -> Seq<Seq<u8>> {
    invalid_parts(utf8_chunk_seq(s))
}

proof fn lemma_valid_parts_push(cs: Seq<(bool, Seq<u8>)>, c: (bool, Seq<u8>))
    ensures
        valid_parts(cs.push(c)) == if c.0 {
            valid_parts(cs).push(c.1)
        } else {
            valid_parts(cs)
        },
        invalid_parts(cs.push(c)) == if !c.0 {
            invalid_parts(cs).push(c.1)
        } else {
            invalid_parts(cs)
        },
    decreases cs.len(),
{
    if cs.len() == 0 {
        reveal_with_fuel(valid_parts, 2);
        reveal_with_fuel(invalid_parts, 2);
        assert(cs.push(c).drop_first() =~= Seq::empty());
        assert(valid_parts(cs.push(c)) =~= if c.0 {
            valid_parts(cs).push(c.1)
        } else {
            valid_parts(cs)
        });
        assert(invalid_parts(cs.push(c)) =~= if !c.0 {
            invalid_parts(cs).push(c.1)
        } else {
            invalid_parts(cs)
        });
    } else {
        assert(cs.push(c).drop_first() =~= cs.drop_first().push(c));
        lemma_valid_parts_push(cs.drop_first(), c);
        if cs[0].0 {
            assert(valid_parts(cs.push(c)) =~= if c.0 {
                valid_parts(cs).push(c.1)
            } else {
                valid_parts(cs)
            });
        }
        if !cs[0].0 {
            assert(invalid_parts(cs.push(c)) =~= if !c.0 {
                invalid_parts(cs).push(c.1)
            } else {
                invalid_parts(cs)
            });
        }
    }
}

proof fn lemma_parts_prepend(c: (bool, Seq<u8>), cs: Seq<(bool, Seq<u8>)>)
    ensures
        all_parts(seq![c] + cs) == seq![c.1] + all_parts(cs),
        valid_parts(seq![c] + cs) == if c.0 {
            seq![c.1] + valid_parts(cs)
        } else {
            valid_parts(cs)
        },
        invalid_parts(seq![c] + cs) == if !c.0 {
            seq![c.1] + invalid_parts(cs)
        } else {
            invalid_parts(cs)
        },
{
    assert((seq![c] + cs)[0] == c);
    assert((seq![c] + cs).drop_first() =~= cs);
}

proof fn lemma_flatten_prepend<A>(x: Seq<A>, xs: Seq<Seq<A>>)
    ensures
        (seq![x] + xs).flatten() == x + xs.flatten(),
{
    assert((seq![x] + xs).first() == x);
    assert((seq![x] + xs).drop_first() =~= xs);
}

proof fn lemma_chunks_cover_from(s: Seq<u8>, i: int, rs: int)
    requires
        0 <= rs <= i <= s.len(),
    ensures
        all_parts(chunks_from(s, i, rs)).flatten() == s.subrange(rs, s.len() as int),
    decreases s.len() - i,
{
    reveal_with_fuel(all_parts, 2);
    if i >= s.len() {
        if rs < i {
            let run = s.subrange(rs, i);
            assert(seq![(true, run)].drop_first() =~= Seq::empty());
            lemma_flatten_prepend(run, seq![]);
            assert(seq![(true, run)] =~= seq![(true, run)] + Seq::empty());
            lemma_parts_prepend((true, run), seq![]);
            assert(run + Seq::<Seq<u8>>::empty().flatten() =~= s.subrange(rs, s.len() as int));
        } else {
            assert(s.subrange(rs, s.len() as int) =~= Seq::empty());
        }
    } else {
        let n = scalar_len_at(s, i);
        lemma_unit_len_bounds(s, i);
        if n > 0 {
            lemma_chunks_cover_from(s, i + n, rs);
        } else {
            let k = subpart_len_at(s, i);
            let run = s.subrange(rs, i);
            let part = s.subrange(i, i + k);
            let rest = chunks_from(s, i + k, i + k);
            lemma_chunks_cover_from(s, i + k, i + k);
            if rs < i {
                assert(seq![(true, run), (false, part)] + rest =~= seq![(true, run)] + (seq![
                    (false, part),
                ] + rest));
                lemma_parts_prepend((false, part), rest);
                lemma_parts_prepend((true, run), seq![(false, part)] + rest);
                lemma_flatten_prepend(part, all_parts(rest));
                lemma_flatten_prepend(run, seq![part] + all_parts(rest));
                assert(run + (part + s.subrange(i + k, s.len() as int)) =~= s.subrange(
                    rs,
                    s.len() as int,
                ));
            } else {
                lemma_parts_prepend((false, part), rest);
                lemma_flatten_prepend(part, all_parts(rest));
                assert(part + s.subrange(i + k, s.len() as int) =~= s.subrange(
                    rs,
                    s.len() as int,
                ));
            }
        }
    }
}

/// Concatenating the bytes of all chunks, well-formed and ill-formed alike,
/// in emitted order, reproduces the input exactly.
pub proof fn lemma_chunks_cover(s: Seq<u8>)
    ensures
        all_parts(utf8_chunk_seq(s)).flatten() == s,
{
    lemma_chunks_cover_from(s, 0, 0);
    assert(s.subrange(0, s.len() as int) =~= s);
}

proof fn lemma_chunks_shape_from(s: Seq<u8>, i: int, rs: int)
    requires
        0 <= rs <= i <= s.len(),
        valid_utf8(s.subrange(rs, i)),
    ensures
        forall|j: int|
            0 <= j < chunks_from(s, i, rs).len() ==> {
                let c = #[trigger] chunks_from(s, i, rs)[j];
                &&& c.0 ==> c.1.len() >= 1 && valid_utf8(c.1)
                &&& !c.0 ==> 1 <= c.1.len() <= 3
            },
    decreases s.len() - i,
{
    let cs = chunks_from(s, i, rs);
    if i >= s.len() {
        if rs < i {
            assert(cs[0] == (true, s.subrange(rs, i)));
            assert(s.subrange(rs, i).len() >= 1);
        }
    } else {
        let n = scalar_len_at(s, i);
        lemma_unit_len_bounds(s, i);
        if n > 0 {
            let t = suffix(s, i);
            let enc = s.subrange(i, i + n);
            assert(enc =~= t.subrange(0, n));
            assert(valid_first_scalar(enc) && length_of_first_scalar(enc) == n) by {
                assert(forall|m: int| 0 <= m < n ==> enc[m] == t[m]);
            }
            assert(valid_utf8(enc)) by {
                reveal_with_fuel(valid_utf8, 2);
                assert(pop_first_scalar(enc) =~= Seq::empty());
            }
            valid_utf8_concat(s.subrange(rs, i), enc);
            assert(s.subrange(rs, i) + enc =~= s.subrange(rs, i + n));
            lemma_chunks_shape_from(s, i + n, rs);
            let cs2 = chunks_from(s, i + n, rs);
            assert(cs == cs2);
            assert forall|j: int| 0 <= j < cs.len() implies {
                let c = #[trigger] cs[j];
                &&& c.0 ==> c.1.len() >= 1 && valid_utf8(c.1)
                &&& !c.0 ==> 1 <= c.1.len() <= 3
            } by {
                assert(cs[j] == cs2[j]);
            }
        } else {
            let k = subpart_len_at(s, i);
            assert(valid_utf8(s.subrange(i + k, i + k))) by {
                assert(s.subrange(i + k, i + k).len() == 0);
            }
            lemma_chunks_shape_from(s, i + k, i + k);
            let rest = chunks_from(s, i + k, i + k);
            let run = (true, s.subrange(rs, i));
            let part = (false, s.subrange(i, i + k));
            assert forall|j: int| 0 <= j < cs.len() implies {
                let c = #[trigger] cs[j];
                &&& c.0 ==> c.1.len() >= 1 && valid_utf8(c.1)
                &&& !c.0 ==> 1 <= c.1.len() <= 3
            } by {
                if rs < i {
                    assert(cs == seq![run, part] + rest);
                    if j >= 2 {
                        assert(cs[j] == rest[j - 2]);
                    }
                } else {
                    assert(cs == seq![part] + rest);
                    if j >= 1 {
                        assert(cs[j] == rest[j - 1]);
                    }
                }
            }
        }
    }
}

proof fn lemma_valid_parts_elems(cs: Seq<(bool, Seq<u8>)>, j: int)
    requires
        0 <= j < valid_parts(cs).len(),
    ensures
        exists|m: int| 0 <= m < cs.len() && #[trigger] cs[m].0 && cs[m].1 == valid_parts(cs)[j],
    decreases cs.len(),
{
    if cs.len() == 0 {
    } else if cs[0].0 {
        if j == 0 {
            assert(cs[0].0 && cs[0].1 == valid_parts(cs)[0]);
        } else {
            lemma_valid_parts_elems(cs.drop_first(), j - 1);
            let m0 = choose|m: int|
                0 <= m < cs.drop_first().len() && #[trigger] cs.drop_first()[m].0
                    && cs.drop_first()[m].1 == valid_parts(cs.drop_first())[j - 1];
            assert(cs[m0 + 1].0 && cs[m0 + 1].1 == valid_parts(cs)[j]);
        }
    } else {
        lemma_valid_parts_elems(cs.drop_first(), j);
        let m0 = choose|m: int|
            0 <= m < cs.drop_first().len() && #[trigger] cs.drop_first()[m].0
                && cs.drop_first()[m].1 == valid_parts(cs.drop_first())[j];
        assert(cs[m0 + 1].0 && cs[m0 + 1].1 == valid_parts(cs)[j]);
    }
}

proof fn lemma_invalid_parts_elems(cs: Seq<(bool, Seq<u8>)>, j: int)
    requires
        0 <= j < invalid_parts(cs).len(),
    ensures
        exists|m: int|
            0 <= m < cs.len() && !(#[trigger] cs[m].0) && cs[m].1 == invalid_parts(cs)[j],
    decreases cs.len(),
{
    if cs.len() == 0 {
    } else if !cs[0].0 {
        if j == 0 {
            assert(!cs[0].0 && cs[0].1 == invalid_parts(cs)[0]);
        } else {
            lemma_invalid_parts_elems(cs.drop_first(), j - 1);
            let m0 = choose|m: int|
                0 <= m < cs.drop_first().len() && !(#[trigger] cs.drop_first()[m].0)
                    && cs.drop_first()[m].1 == invalid_parts(cs.drop_first())[j - 1];
            assert(!cs[m0 + 1].0 && cs[m0 + 1].1 == invalid_parts(cs)[j]);
        }
    } else {
        lemma_invalid_parts_elems(cs.drop_first(), j);
        let m0 = choose|m: int|
            0 <= m < cs.drop_first().len() && !(#[trigger] cs.drop_first()[m].0)
                && cs.drop_first()[m].1 == invalid_parts(cs.drop_first())[j];
        assert(!cs[m0 + 1].0 && cs[m0 + 1].1 == invalid_parts(cs)[j]);
    }
}

/// Every ill-formed chunk covers 1, 2 or 3 bytes: never 0, never 4 or more.
pub proof fn lemma_invalid_chunk_len(s: Seq<u8>, j: int)
    requires
        0 <= j < invalid_chunks(s).len(),
    ensures
        1 <= invalid_chunks(s)[j].len() <= 3,
{
    assert(valid_utf8(s.subrange(0, 0))) by {
        assert(s.subrange(0, 0).len() == 0);
    }
    lemma_chunks_shape_from(s, 0, 0);
    lemma_invalid_parts_elems(utf8_chunk_seq(s), j);
}

/// Every well-formed chunk is nonempty and is itself well-formed UTF-8.
pub proof fn lemma_valid_chunk_wf(s: Seq<u8>, j: int)
    requires
        0 <= j < valid_chunks(s).len(),
    ensures
        valid_chunks(s)[j].len() >= 1,
        valid_utf8(valid_chunks(s)[j]),
{
    assert(valid_utf8(s.subrange(0, 0))) by {
        assert(s.subrange(0, 0).len() == 0);
    }
    lemma_chunks_shape_from(s, 0, 0);
    lemma_valid_parts_elems(utf8_chunk_seq(s), j);
}

proof fn lemma_chunks_of_valid(s: Seq<u8>, i: int, rs: int)
    requires
        0 <= rs <= i <= s.len(),
        valid_utf8(suffix(s, i)),
    ensures
        invalid_parts(chunks_from(s, i, rs)).len() == 0,
    decreases s.len() - i,
{
    if i >= s.len() {
        reveal_with_fuel(invalid_parts, 2);
    } else {
        let t = suffix(s, i);
        assert(t.len() > 0);
        assert(valid_first_scalar(t));
        let n = scalar_len_at(s, i);
        lemma_unit_len_bounds(s, i);
        assert(suffix(s, i + n) =~= pop_first_scalar(t));
        lemma_chunks_of_valid(s, i + n, rs);
    }
}

proof fn lemma_chunks_of_invalid(s: Seq<u8>, i: int, rs: int)
    requires
        0 <= rs <= i <= s.len(),
        !valid_utf8(suffix(s, i)),
    ensures
        invalid_parts(chunks_from(s, i, rs)).len() >= 1,
    decreases s.len() - i,
{
    if i >= s.len() {
        assert(suffix(s, i).len() == 0);
        assert(false);
    } else {
        let t = suffix(s, i);
        let n = scalar_len_at(s, i);
        lemma_unit_len_bounds(s, i);
        if n > 0 {
            assert(valid_first_scalar(t));
            assert(suffix(s, i + n) =~= pop_first_scalar(t));
            assert(!valid_utf8(suffix(s, i + n)));
            lemma_chunks_of_invalid(s, i + n, rs);
        } else {
            let k = subpart_len_at(s, i);
            let part = (false, s.subrange(i, i + k));
            let rest = chunks_from(s, i + k, i + k);
            lemma_parts_prepend(part, rest);
            if rs < i {
                let run = (true, s.subrange(rs, i));
                assert(seq![run, part] + rest =~= seq![run] + (seq![part] + rest));
                lemma_parts_prepend(run, seq![part] + rest);
            }
        }
    }
}

/// The input is well-formed UTF-8 exactly when the chunk decoder finds no
/// ill-formed chunk.
pub proof fn lemma_valid_iff_no_invalid_chunks(s: Seq<u8>)
    ensures
        valid_utf8(s) <==> invalid_chunks(s).len() == 0,
{
    assert(suffix(s, 0) =~= s);
    if valid_utf8(s) {
        lemma_chunks_of_valid(s, 0, 0);
    } else {
        lemma_chunks_of_invalid(s, 0, 0);
    }
}

/// The characters one chunk stands for under lenient decoding: its decoded
/// text for a well-formed chunk, one replacement character for an
/// ill-formed one.
pub open spec fn chunk_chars(c: (bool, Seq<u8>)) -> Seq<char> {
    if c.0 {
        decode_utf8(c.1)
    } else {
        seq!['\u{FFFD}']
    }
}

proof fn lemma_lenient_split_valid_run(s: Seq<u8>, rs: int, i: int)
    requires
        0 <= rs <= i <= s.len(),
        valid_utf8(s.subrange(rs, i)),
    ensures
        lenient_chars_at(s, rs) == decode_utf8(s.subrange(rs, i)) + lenient_chars_at(s, i),
    decreases i - rs,
{
    let run = s.subrange(rs, i);
    if rs == i {
        assert(run.len() == 0);
        assert(decode_utf8(run) + lenient_chars_at(s, i) =~= lenient_chars_at(s, rs));
    } else {
        assert(valid_first_scalar(run));
        let n = length_of_first_scalar(run);
        let t = suffix(s, rs);
        assert(forall|m: int| 0 <= m < run.len() ==> run[m] == t[m]);
        assert(valid_first_scalar(t) && length_of_first_scalar(t) == n && decode_first_scalar(t)
            == decode_first_scalar(run));
        assert(scalar_len_at(s, rs) == n);
        assert(pop_first_scalar(run) =~= s.subrange(rs + n, i));
        lemma_lenient_split_valid_run(s, rs + n, i);
        assert(lenient_chars_at(s, rs) =~= decode_utf8(run) + lenient_chars_at(s, i));
    }
}

proof fn lemma_chars_chunks_from(s: Seq<u8>, i: int, rs: int)
    requires
        0 <= rs <= i <= s.len(),
        valid_utf8(s.subrange(rs, i)),
    ensures
        lenient_chars_at(s, rs) == chunks_from(s, i, rs).map_values(
            |c: (bool, Seq<u8>)| chunk_chars(c),
        ).flatten(),
    decreases s.len() - i,
{
    let run = s.subrange(rs, i);
    if i >= s.len() {
        lemma_lenient_split_valid_run(s, rs, i);
        if rs < i {
            let cs = chunks_from(s, i, rs);
            assert(cs =~= seq![(true, run)]);
            assert(cs.map_values(|c: (bool, Seq<u8>)| chunk_chars(c)) =~= seq![decode_utf8(run)]);
            lemma_flatten_prepend(decode_utf8(run), seq![]);
            assert(seq![decode_utf8(run)] =~= seq![decode_utf8(run)]
                + Seq::<Seq<char>>::empty());
            assert(lenient_chars_at(s, rs) =~= decode_utf8(run) + Seq::<char>::empty());
        } else {
            assert(lenient_chars_at(s, rs) =~= Seq::<char>::empty());
        }
    } else {
        let n = scalar_len_at(s, i);
        lemma_unit_len_bounds(s, i);
        if n > 0 {
            let t = suffix(s, i);
            let enc = s.subrange(i, i + n);
            assert(enc =~= t.subrange(0, n));
            assert(valid_first_scalar(enc) && length_of_first_scalar(enc) == n) by {
                assert(forall|m: int| 0 <= m < n ==> enc[m] == t[m]);
            }
            assert(valid_utf8(enc)) by {
                reveal_with_fuel(valid_utf8, 2);
                assert(pop_first_scalar(enc) =~= Seq::empty());
            }
            valid_utf8_concat(run, enc);
            assert(run + enc =~= s.subrange(rs, i + n));
            lemma_chars_chunks_from(s, i + n, rs);
        } else {
            let k = subpart_len_at(s, i);
            lemma_lenient_split_valid_run(s, rs, i);
            assert(valid_utf8(s.subrange(i + k, i + k))) by {
                assert(s.subrange(i + k, i + k).len() == 0);
            }
            lemma_chars_chunks_from(s, i + k, i + k);
            let rest = chunks_from(s, i + k, i + k);
            let restc = rest.map_values(|c: (bool, Seq<u8>)| chunk_chars(c));
            let part = (false, s.subrange(i, i + k));
            assert(lenient_chars_at(s, i) == seq!['\u{FFFD}'] + lenient_chars_at(s, i + k));
            if rs < i {
                let cs = chunks_from(s, i, rs);
                assert(cs =~= seq![(true, run)] + (seq![part] + rest));
                assert(cs.map_values(|c: (bool, Seq<u8>)| chunk_chars(c)) =~= seq![
                    decode_utf8(run),
                ] + (seq![seq!['\u{FFFD}']] + restc));
                lemma_flatten_prepend(seq!['\u{FFFD}'], restc);
                lemma_flatten_prepend(decode_utf8(run), seq![seq!['\u{FFFD}']] + restc);
                assert(lenient_chars_at(s, rs) =~= decode_utf8(run) + (seq!['\u{FFFD}']
                    + restc.flatten()));
            } else {
                let cs = chunks_from(s, i, rs);
                assert(run.len() == 0);
                assert(cs =~= seq![part] + rest);
                assert(cs.map_values(|c: (bool, Seq<u8>)| chunk_chars(c)) =~= seq![
                    seq!['\u{FFFD}'],
                ] + restc);
                lemma_flatten_prepend(seq!['\u{FFFD}'], restc);
                assert(lenient_chars_at(s, rs) =~= seq!['\u{FFFD}'] + restc.flatten());
            }
        }
    }
}

/// Lenient decoding follows the chunk structure: each well-formed chunk
/// contributes its decoded characters and each ill-formed chunk exactly one
/// replacement character, in chunk order.
pub proof fn lemma_chars_follow_chunks(s: Seq<u8>)
    ensures
        lenient_chars(s) == utf8_chunk_seq(s).map_values(
            |c: (bool, Seq<u8>)| chunk_chars(c),
        ).flatten(),
{
    assert(valid_utf8(s.subrange(0, 0))) by {
        assert(s.subrange(0, 0).len() == 0);
    }
    lemma_chars_chunks_from(s, 0, 0);
}

/// Splits the input into maximal well-formed runs and maximal ill-formed
/// subparts: the first list holds every (nonempty) well-formed run, the
/// second every ill-formed subpart, each in input order.
pub fn utf8_chunks(subject: &[u8]) -> (r: (Vec<Vec<u8>>, Vec<Vec<u8>>))
    ensures
        r.0@.map_values(|v: Vec<u8>| v@) == valid_chunks(subject@),
        r.1@.map_values(|v: Vec<u8>| v@) == invalid_chunks(subject@),
{
    let ghost s = subject@;
    let mut out_v: Vec<Vec<u8>> = Vec::new();
    let mut out_i: Vec<Vec<u8>> = Vec::new();
    let ghost mut done: Seq<(bool, Seq<u8>)> = seq![];
    let mut run_start: usize = 0;
    let mut i: usize = 0;
    while i < subject.len()
        invariant
            0 <= run_start <= i <= s.len(),
            s == subject@,
            utf8_chunk_seq(s) == done + chunks_from(s, i as int, run_start as int),
            out_v@.map_values(|v: Vec<u8>| v@) == valid_parts(done),
            out_i@.map_values(|v: Vec<u8>| v@) == invalid_parts(done),
        decreases s.len() - i,
    {
        let n = scalar_len(subject, i);
        if n > 0 {
            i = i + n;
        } else {
            let ghost done0 = done;
            if run_start < i {
                let run: Vec<u8> = slice_to_vec(slice_subrange(subject, run_start, i));
                proof {
                    let c = (true, s.subrange(run_start as int, i as int));
                    lemma_valid_parts_push(done, c);
                    done = done.push(c);
                }
                out_v.push(run);
                proof {
                    assert(out_v@.map_values(|v: Vec<u8>| v@) =~= valid_parts(done));
                    assert(out_i@.map_values(|v: Vec<u8>| v@) =~= invalid_parts(done));
                }
            }
            let k = subpart_len(subject, i);
            let part: Vec<u8> = slice_to_vec(slice_subrange(subject, i, i + k));
            proof {
                let c = (false, s.subrange(i as int, i as int + k as int));
                lemma_valid_parts_push(done, c);
                done = done.push(c);
            }
            out_i.push(part);
            proof {
                assert(out_v@.map_values(|v: Vec<u8>| v@) =~= valid_parts(done));
                assert(out_i@.map_values(|v: Vec<u8>| v@) =~= invalid_parts(done));
                let rest = chunks_from(s, i as int + k as int, i as int + k as int);
                if run_start < i {
                    assert(done0 + chunks_from(s, i as int, run_start as int) =~= done + rest);
                } else {
                    assert(done0 + chunks_from(s, i as int, run_start as int) =~= done + rest);
                }
            }
            i = i + k;
            run_start = i;
        }
    }
    if run_start < i {
        let run: Vec<u8> = slice_to_vec(slice_subrange(subject, run_start, i));
        proof {
            let c = (true, s.subrange(run_start as int, i as int));
            lemma_valid_parts_push(done, c);
            let done0 = done;
            done = done.push(c);
            assert(done0 + chunks_from(s, i as int, run_start as int) =~= done);
        }
        out_v.push(run);
        proof {
            assert(out_v@.map_values(|v: Vec<u8>| v@) =~= valid_parts(done));
            assert(out_i@.map_values(|v: Vec<u8>| v@) =~= invalid_parts(done));
        }
    } else {
        proof {
            assert(done + chunks_from(s, i as int, run_start as int) =~= done);
        }
    }
    (out_v, out_i)
}

} // verus!
