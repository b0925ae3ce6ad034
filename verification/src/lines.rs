//! The line splitter.
//!
//! Only `\n` and `\r\n` are recognized as line terminators; no other Unicode
//! line terminator ends a line.  A final unterminated run, if nonempty, is
//! the last line.

use vstd::prelude::*;
use vstd::slice::slice_subrange;
use vstd::slice::slice_to_vec;

verus! {

/// The lines of `s` from position `i` on, terminators included, with the
/// current line open since position `start`.  A line ends after each `\n`;
/// a nonempty final run without `\n` is the last line.
pub open spec fn lines_wt_from(s: Seq<u8>, start: int, i: int) -> Seq<Seq<u8>>
    decreases s.len() - i,
    when 0 <= start <= i <= s.len()
{
    if i >= s.len() {
        if start < i {
            seq![s.subrange(start, i)]
        } else {
            seq![]
        }
    } else if s[i] == 0x0A {
        seq![s.subrange(start, i + 1)] + lines_wt_from(s, i + 1, i + 1)
    } else {
        lines_wt_from(s, start, i + 1)
    }
}

/// The lines of `s`, each including its terminator where one is present.
pub open spec fn lines_with_terminator_seq(s: Seq<u8>) -> Seq<Seq<u8>> {
    lines_wt_from(s, 0, 0)
}

/// A line with its terminator removed: a trailing `\n` is dropped, together
/// with a `\r` immediately before it.  A line that does not end in `\n`
/// (only possible for an unterminated last line) is kept whole.
pub open spec fn strip_line_terminator(line: Seq<u8>) -> Seq<u8> {
    if line.len() >= 1 && line[line.len() - 1] == 0x0A {
        if line.len() >= 2 && line[line.len() - 2] == 0x0D {
            line.take(line.len() - 2)
        } else {
            line.take(line.len() - 1)
        }
    } else {
        line
    }
}

/// The lines of `s` without their terminators.
pub open spec fn lines_seq(s: Seq<u8>) -> Seq<Seq<u8>> {
    lines_with_terminator_seq(s).map_values(|l: Seq<u8>| strip_line_terminator(l))
}

/// Output mode of [`lines`]: keep or strip the matched terminator bytes.
#[derive(Clone, Copy, PartialEq, Eq, Structural, Debug)]
pub enum LineMode {
    NoTerminator,
    WithTerminator,
}

/// The lines of the input.  With `LineMode::WithTerminator` each line keeps
/// its terminator and the lines concatenate back to the input exactly; with
/// `LineMode::NoTerminator` the terminator bytes are stripped.
pub fn lines(subject: &[u8], mode: LineMode) -> (r: Vec<Vec<u8>>)
    ensures
        mode == LineMode::WithTerminator ==> r@.map_values(|v: Vec<u8>| v@)
            == lines_with_terminator_seq(subject@),
        mode == LineMode::NoTerminator ==> r@.map_values(|v: Vec<u8>| v@) == lines_seq(subject@),
{
    let ghost s = subject@;
    let mut out: Vec<Vec<u8>> = Vec::new();
    let ghost mut done: Seq<Seq<u8>> = seq![];
    let mut start: usize = 0;
    let mut i: usize = 0;
    while i < subject.len()
        invariant
            0 <= start <= i <= s.len(),
            s == subject@,
            forall|k: int| start <= k < i ==> s[k] != 0x0A,
            lines_with_terminator_seq(s) == done + lines_wt_from(s, start as int, i as int),
            mode == LineMode::WithTerminator ==> out@.map_values(|v: Vec<u8>| v@) == done,
            mode == LineMode::NoTerminator ==> out@.map_values(|v: Vec<u8>| v@)
                == done.map_values(|l: Seq<u8>| strip_line_terminator(l)),
        decreases s.len() - i,
    {
        if subject[i] == 0x0A {
            let ghost full = s.subrange(start as int, i as int + 1);
            let piece: Vec<u8> = match mode {
                LineMode::WithTerminator => slice_to_vec(slice_subrange(subject, start, i + 1)),
                LineMode::NoTerminator => {
                    let end = if i > start && subject[i - 1] == 0x0D {
                        i - 1
                    } else {
                        i
                    };
                    let p = slice_to_vec(slice_subrange(subject, start, end));
                    proof {
                        assert(p@ =~= strip_line_terminator(full));
                    }
                    p
                },
            };
            out.push(piece);
            proof {
                let done0 = done;
                done = done.push(full);
                assert(done0 + lines_wt_from(s, start as int, i as int) =~= done + lines_wt_from(
                    s,
                    i as int + 1,
                    i as int + 1,
                ));
                assert(done =~= done0.push(full));
                if mode == LineMode::WithTerminator {
                    assert(piece@ == full);
                    assert(out@.map_values(|v: Vec<u8>| v@) =~= done0.map_values(
                        |l: Seq<u8>| l,
                    ).push(full));
                    assert(done0.map_values(|l: Seq<u8>| l) =~= done0);
                    assert(out@.map_values(|v: Vec<u8>| v@) =~= done);
                } else {
                    assert(piece@ == strip_line_terminator(full));
                    assert(out@.map_values(|v: Vec<u8>| v@) =~= done0.map_values(
                        |l: Seq<u8>| strip_line_terminator(l),
                    ).push(strip_line_terminator(full)));
                    assert(done.map_values(|l: Seq<u8>| strip_line_terminator(l))
                        =~= done0.map_values(|l: Seq<u8>| strip_line_terminator(l)).push(
                        strip_line_terminator(full),
                    ));
                    assert(out@.map_values(|v: Vec<u8>| v@) =~= done.map_values(
                        |l: Seq<u8>| strip_line_terminator(l),
                    ));
                }
            }
            i = i + 1;
            start = i;
        } else {
            i = i + 1;
        }
    }
    if start < i {
        let ghost full = s.subrange(start as int, i as int);
        let piece: Vec<u8> = slice_to_vec(slice_subrange(subject, start, i));
        proof {
            assert(full.len() >= 1 && full[full.len() - 1] == s[i as int - 1]);
            assert(s[i as int - 1] != 0x0A);
            assert(strip_line_terminator(full) == full);
        }
        out.push(piece);
        proof {
            let done0 = done;
            done = done.push(full);
            assert(done0 + lines_wt_from(s, start as int, i as int) =~= done);
            assert(piece@ == full);
            if mode == LineMode::WithTerminator {
                assert(out@.map_values(|v: Vec<u8>| v@) =~= done0.map_values(
                    |l: Seq<u8>| l,
                ).push(full));
                assert(done0.map_values(|l: Seq<u8>| l) =~= done0);
                assert(out@.map_values(|v: Vec<u8>| v@) =~= done);
            } else {
                assert(out@.map_values(|v: Vec<u8>| v@) =~= done0.map_values(
                    |l: Seq<u8>| strip_line_terminator(l),
                ).push(strip_line_terminator(full)));
                assert(done.map_values(|l: Seq<u8>| strip_line_terminator(l))
                    =~= done0.map_values(|l: Seq<u8>| strip_line_terminator(l)).push(
                    strip_line_terminator(full),
                ));
                assert(out@.map_values(|v: Vec<u8>| v@) =~= done.map_values(
                    |l: Seq<u8>| strip_line_terminator(l),
                ));
            }
        }
    } else {
        proof {
            assert(done + lines_wt_from(s, start as int, i as int) =~= done);
        }
    }
    out
}

proof fn lemma_lines_cover_from(s: Seq<u8>, start: int, i: int)
    requires
        0 <= start <= i <= s.len(),
    ensures
        lines_wt_from(s, start, i).flatten() == s.subrange(start, s.len() as int),
    decreases s.len() - i,
{
    if i >= s.len() {
        if start < i {
            let run = s.subrange(start, i);
            assert(seq![run].drop_first() =~= Seq::<Seq<u8>>::empty());
            assert(run + Seq::<Seq<u8>>::empty().flatten() =~= s.subrange(start, s.len() as int));
        } else {
            assert(s.subrange(start, s.len() as int) =~= Seq::empty());
        }
    } else if s[i] == 0x0A {
        let line = s.subrange(start, i + 1);
        let rest = lines_wt_from(s, i + 1, i + 1);
        lemma_lines_cover_from(s, i + 1, i + 1);
        assert((seq![line] + rest).first() == line);
        assert((seq![line] + rest).drop_first() =~= rest);
        assert(line + s.subrange(i + 1, s.len() as int) =~= s.subrange(start, s.len() as int));
    } else {
        lemma_lines_cover_from(s, start, i + 1);
    }
}

/// Concatenating the lines with their terminators, in order, reproduces the
/// input exactly.
pub proof fn lemma_lines_cover(s: Seq<u8>)
    ensures
        lines_with_terminator_seq(s).flatten() == s,
{
    lemma_lines_cover_from(s, 0, 0);
    assert(s.subrange(0, s.len() as int) =~= s);
}

/// Each stripped line is the corresponding full line with its terminator
/// bytes removed: the full line is the stripped line followed by nothing,
/// by `\n`, or by `\r\n`.
pub proof fn lemma_lines_strip(s: Seq<u8>, j: int)
    requires
        0 <= j < lines_with_terminator_seq(s).len(),
    ensures
        lines_seq(s).len() == lines_with_terminator_seq(s).len(),
        lines_seq(s)[j] == strip_line_terminator(lines_with_terminator_seq(s)[j]),
        ({
            let full = lines_with_terminator_seq(s)[j];
            let bare = lines_seq(s)[j];
            ||| full == bare
            ||| full == bare + seq![0x0Au8]
            ||| full == bare + seq![0x0Du8, 0x0Au8]
        }),
{
    let full = lines_with_terminator_seq(s)[j];
    let bare = strip_line_terminator(full);
    if full.len() >= 1 && full[full.len() - 1] == 0x0A {
        if full.len() >= 2 && full[full.len() - 2] == 0x0D {
            assert(full =~= bare + seq![0x0Du8, 0x0Au8]);
        } else {
            assert(full =~= bare + seq![0x0Au8]);
        }
    }
}

} // verus!
