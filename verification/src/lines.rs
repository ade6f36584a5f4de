//! Splitting text into lines the way `str::lines` does, on the text's UTF-8 bytes:
//! a line ends at a line feed, or at a carriage return followed by a line feed; the
//! last line needs no line ending.
use vstd::prelude::*;

verus! {

/// The line feed byte, `\n`.
pub const LF: u8 = 10;

/// The carriage return byte, `\r`.
pub const CR: u8 = 13;

/// The bytes after the last line feed of `s` (all of `s` when it holds none).
pub open spec fn open_line(s: Seq<u8>) -> Seq<u8>
    decreases s.len(),
{
    if s.len() == 0 {
        seq![]
    } else if s.last() == LF {
        seq![]
    } else {
        open_line(s.drop_last()).push(s.last())
    }
}

/// A line without the carriage return that may precede its line feed.
pub open spec fn strip_cr(line: Seq<u8>) -> Seq<u8> {
    if line.len() > 0 && line.last() == CR {
        line.drop_last()
    } else {
        line
    }
}

/// The lines of `s` that a line feed ends, in order, without their line endings.
pub open spec fn closed_lines(s: Seq<u8>) -> Seq<Seq<u8>>
    decreases s.len(),
{
    if s.len() == 0 {
        seq![]
    } else if s.last() == LF {
        closed_lines(s.drop_last()).push(strip_cr(open_line(s.drop_last())))
    } else {
        closed_lines(s.drop_last())
    }
}

/// The lines of `s`: those a line feed ends, then the unterminated rest if it is not
/// empty (kept as it is, a trailing carriage return included).
pub open spec fn lines(s: Seq<u8>) -> Seq<Seq<u8>> {
    if open_line(s).len() == 0 {
        closed_lines(s)
    } else {
        closed_lines(s).push(open_line(s))
    }
}

/// Lines joined back together with a line feed between each two.
pub open spec fn join_lines(ls: Seq<Seq<u8>>) -> Seq<u8>
    decreases ls.len(),
{
    if ls.len() == 0 {
        seq![]
    } else if ls.len() == 1 {
        ls[0]
    } else {
        join_lines(ls.drop_last()) + seq![LF] + ls.last()
    }
}

/// The open line of `s`, when not empty, ends with the last byte of `s`.
pub proof fn lemma_open_line_last(s: Seq<u8>)
    ensures
        open_line(s).len() > 0 ==> s.len() > 0 && open_line(s).last() == s.last() && s.last() != LF,
        open_line(s).len() <= s.len(),
    decreases s.len(),
{
    if s.len() > 0 {
        lemma_open_line_last(s.drop_last());
    }
}

/// No line of `s` holds a line feed.
pub proof fn lemma_lines_have_no_line_feed(s: Seq<u8>)
    ensures
        forall|i: int, j: int|
            0 <= i < lines(s).len() && 0 <= j < lines(s)[i].len() ==> #[trigger] lines(s)[i][j]
                != LF,
    decreases s.len(),
{
    lemma_open_line_no_lf(s);
    lemma_closed_lines_no_lf(s);
}

proof fn lemma_open_line_no_lf(s: Seq<u8>)
    ensures
        forall|j: int| 0 <= j < open_line(s).len() ==> #[trigger] open_line(s)[j] != LF,
    decreases s.len(),
{
    if s.len() > 0 {
        let p = s.drop_last();
        lemma_open_line_no_lf(p);
        if s.last() != LF {
            assert forall|j: int| 0 <= j < open_line(s).len() implies #[trigger] open_line(s)[j]
                != LF by {
                if j < open_line(p).len() {
                    assert(open_line(s)[j] == open_line(p)[j]);
                }
            }
        }
    }
}

proof fn lemma_closed_lines_no_lf(s: Seq<u8>)
    ensures
        forall|i: int, j: int|
            0 <= i < closed_lines(s).len() && 0 <= j < closed_lines(s)[i].len()
                ==> #[trigger] closed_lines(s)[i][j] != LF,
    decreases s.len(),
{
    if s.len() > 0 {
        let p = s.drop_last();
        lemma_closed_lines_no_lf(p);
        lemma_open_line_no_lf(p);
        if s.last() == LF {
            let l = strip_cr(open_line(p));
            assert forall|j: int| 0 <= j < l.len() implies l[j] != LF by {
                assert(l[j] == open_line(p)[j]);
            }
            assert forall|i: int, j: int|
                0 <= i < closed_lines(s).len() && 0 <= j < closed_lines(s)[i].len()
                    implies #[trigger] closed_lines(s)[i][j] != LF by {
                if i < closed_lines(p).len() {
                    assert(closed_lines(s)[i] == closed_lines(p)[i]);
                } else {
                    assert(closed_lines(s)[i] == l);
                }
            }
        }
    }
}

/// Joining the closed lines of `s` back, followed by a line feed and the open line,
/// gives `s` again, when `s` holds no carriage return.
proof fn lemma_closed_lines_join(s: Seq<u8>)
    requires
        forall|j: int| 0 <= j < s.len() ==> s[j] != CR,
    ensures
        closed_lines(s).len() == 0 ==> open_line(s) == s,
        closed_lines(s).len() > 0 ==> join_lines(closed_lines(s)) + seq![LF] + open_line(s) == s,
    decreases s.len(),
{
    if s.len() > 0 {
        let p = s.drop_last();
        assert forall|j: int| 0 <= j < p.len() implies p[j] != CR by {
            assert(p[j] == s[j]);
        }
        lemma_closed_lines_join(p);
        lemma_open_line_last(p);
        if s.last() == LF {
            assert(strip_cr(open_line(p)) == open_line(p));
            let cl = closed_lines(s);
            assert(cl.drop_last() =~= closed_lines(p));
            if closed_lines(p).len() == 0 {
                assert(join_lines(cl) == open_line(p));
                assert(join_lines(cl) + seq![LF] + open_line(s) =~= s);
            } else {
                assert(join_lines(cl) + seq![LF] + open_line(s) =~= s);
            }
        } else {
            if closed_lines(p).len() == 0 {
                assert(open_line(s) =~= s);
            } else {
                assert(closed_lines(s) == closed_lines(p));
                assert(s =~= p.push(s.last()));
                assert(join_lines(closed_lines(s)) + seq![LF] + open_line(s) =~= (join_lines(
                    closed_lines(p),
                ) + seq![LF] + open_line(p)).push(s.last()));
            }
        }
    }
}

/// Joining the lines of a text with line feeds gives the text back, when the text
/// holds no carriage return and does not end with a line feed.
pub proof fn lemma_join_lines_of_lines(s: Seq<u8>)
    requires
        forall|j: int| 0 <= j < s.len() ==> s[j] != CR,
        s.len() > 0 ==> s.last() != LF,
    ensures
        join_lines(lines(s)) == s,
{
    lemma_closed_lines_join(s);
    lemma_open_line_last(s);
    let cl = closed_lines(s);
    if open_line(s).len() == 0 {
        if cl.len() > 0 {
            assert(s.len() > 0);
            assert((join_lines(cl) + seq![LF] + open_line(s)).last() == LF);
        }
    } else {
        let ls = cl.push(open_line(s));
        assert(ls.drop_last() =~= cl);
        if cl.len() == 0 {
            assert(join_lines(ls) == open_line(s));
        }
    }
}

/// A byte that `s` does not hold is in none of its lines.
pub proof fn lemma_lines_avoid(s: Seq<u8>, x: u8)
    requires
        forall|j: int| 0 <= j < s.len() ==> #[trigger] s[j] != x,
    ensures
        forall|i: int, j: int|
            0 <= i < lines(s).len() && 0 <= j < lines(s)[i].len() ==> #[trigger] lines(s)[i][j]
                != x,
{
    lemma_open_line_avoid(s, x);
    lemma_closed_lines_avoid(s, x);
}

proof fn lemma_open_line_avoid(s: Seq<u8>, x: u8)
    requires
        forall|j: int| 0 <= j < s.len() ==> #[trigger] s[j] != x,
    ensures
        forall|j: int| 0 <= j < open_line(s).len() ==> #[trigger] open_line(s)[j] != x,
    decreases s.len(),
{
    if s.len() > 0 {
        let p = s.drop_last();
        assert forall|j: int| 0 <= j < p.len() implies #[trigger] p[j] != x by {
            assert(p[j] == s[j]);
        }
        lemma_open_line_avoid(p, x);
        if s.last() != LF {
            assert forall|j: int| 0 <= j < open_line(s).len() implies #[trigger] open_line(s)[j]
                != x by {
                if j < open_line(p).len() {
                    assert(open_line(s)[j] == open_line(p)[j]);
                }
            }
        }
    }
}

proof fn lemma_closed_lines_avoid(s: Seq<u8>, x: u8)
    requires
        forall|j: int| 0 <= j < s.len() ==> #[trigger] s[j] != x,
    ensures
        forall|i: int, j: int|
            0 <= i < closed_lines(s).len() && 0 <= j < closed_lines(s)[i].len()
                ==> #[trigger] closed_lines(s)[i][j] != x,
    decreases s.len(),
{
    if s.len() > 0 {
        let p = s.drop_last();
        assert forall|j: int| 0 <= j < p.len() implies #[trigger] p[j] != x by {
            assert(p[j] == s[j]);
        }
        lemma_closed_lines_avoid(p, x);
        lemma_open_line_avoid(p, x);
        if s.last() == LF {
            let l = strip_cr(open_line(p));
            assert forall|j: int| 0 <= j < l.len() implies l[j] != x by {
                assert(l[j] == open_line(p)[j]);
            }
            assert forall|i: int, j: int|
                0 <= i < closed_lines(s).len() && 0 <= j < closed_lines(s)[i].len()
                    implies #[trigger] closed_lines(s)[i][j] != x by {
                if i < closed_lines(p).len() {
                    assert(closed_lines(s)[i] == closed_lines(p)[i]);
                } else {
                    assert(closed_lines(s)[i] == l);
                }
            }
        }
    }
}

/// A non-empty text that does not end with a line feed has at least one line.
pub proof fn lemma_lines_nonempty(s: Seq<u8>)
    requires
        s.len() > 0,
        s.last() != LF,
    ensures
        lines(s).len() > 0,
{
    assert(open_line(s).len() > 0);
}

/// Appending bytes without a line feed adds no closed line and extends the open one.
pub proof fn lemma_append_open(x: Seq<u8>, l: Seq<u8>)
    requires
        forall|j: int| 0 <= j < l.len() ==> #[trigger] l[j] != LF,
    ensures
        closed_lines(x + l) == closed_lines(x),
        open_line(x + l) == open_line(x) + l,
    decreases l.len(),
{
    if l.len() == 0 {
        assert(x + l =~= x);
        assert(open_line(x) + l =~= open_line(x));
    } else {
        let l0 = l.drop_last();
        assert forall|j: int| 0 <= j < l0.len() implies #[trigger] l0[j] != LF by {
            assert(l0[j] == l[j]);
        }
        lemma_append_open(x, l0);
        assert((x + l).drop_last() =~= x + l0);
        assert((x + l).last() == l.last());
        assert(open_line(x) + l =~= (open_line(x) + l0).push(l.last()));
    }
}

} // verus!
