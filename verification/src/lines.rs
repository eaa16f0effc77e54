//! Splitting byte text into lines.
//!
//! A line break is a single line-feed byte; a carriage return directly
//! before it belongs to the line and is stripped separately, so both
//! bare and carriage-return line endings are read. Text after the last
//! line break forms a final line; an empty tail is not a line.

use vstd::prelude::*;

verus! {

pub const LINE_FEED: u8 = 0x0A;

pub const CARRIAGE_RETURN: u8 = 0x0D;

/// Lines of `s` from position `i` on, `cur` being the part of the
/// current line already read.
pub open spec fn split_from(s: Seq<u8>, i: int, cur: Seq<u8>) -> Seq<Seq<u8>>
    decreases s.len() - i,
{
    if i < 0 || i >= s.len() {
        if cur.len() == 0 {
            seq![]
        } else {
            seq![cur]
        }
    } else if s[i] == LINE_FEED {
        seq![cur] + split_from(s, i + 1, seq![])
    } else {
        split_from(s, i + 1, cur.push(s[i]))
    }
}

/// The lines of a byte text, split at line-feed bytes.
pub open spec fn split_lines(s: Seq<u8>) -> Seq<Seq<u8>> {
    split_from(s, 0, seq![])
}

/// A line with one trailing carriage return removed.
pub open spec fn strip_cr_spec(l: Seq<u8>) -> Seq<u8> {
    if l.len() > 0 && l.last() == CARRIAGE_RETURN {
        l.drop_last()
    } else {
        l
    }
}

/// Reading bytes that hold no line break only extends the current line.
proof fn lemma_split_from_skip(s: Seq<u8>, i: int, j: int, cur: Seq<u8>)
    requires
        0 <= i <= j <= s.len(),
        forall|k: int| i <= k < j ==> s[k] != LINE_FEED,
    ensures
        split_from(s, i, cur) == split_from(s, j, cur + s.subrange(i, j)),
    decreases j - i,
{
    if i == j {
        assert(cur + s.subrange(i, j) =~= cur);
    } else {
        lemma_split_from_skip(s, i + 1, j, cur.push(s[i]));
        assert(cur.push(s[i]) + s.subrange(i + 1, j) =~= cur + s.subrange(i, j));
    }
}

/// Line splitting only looks at the bytes from the current position on.
proof fn lemma_split_from_suffix(s: Seq<u8>, t: Seq<u8>, i: int, j: int, cur: Seq<u8>)
    requires
        0 <= i <= s.len(),
        0 <= j <= t.len(),
        s.subrange(i, s.len() as int) == t.subrange(j, t.len() as int),
    ensures
        split_from(s, i, cur) == split_from(t, j, cur),
    decreases s.len() - i,
{
    let su = s.subrange(i, s.len() as int);
    let tu = t.subrange(j, t.len() as int);
    if i >= s.len() {
        assert(j >= t.len()) by {
            assert(tu.len() == su.len());
        };
    } else {
        assert(su.len() == tu.len());
        assert(j < t.len());
        assert(s[i] == su[0] && t[j] == tu[0]);
        assert(s.subrange(i + 1, s.len() as int) =~= su.subrange(1, su.len() as int));
        assert(t.subrange(j + 1, t.len() as int) =~= tu.subrange(1, tu.len() as int));
        assert(s.subrange(i + 1, s.len() as int) == t.subrange(j + 1, t.len() as int));
        if s[i] == LINE_FEED {
            lemma_split_from_suffix(s, t, i + 1, j + 1, seq![]);
        } else {
            lemma_split_from_suffix(s, t, i + 1, j + 1, cur.push(s[i]));
        }
    }
}

/// A break-free line followed by a line feed splits off as the first
/// line, whatever follows.
pub proof fn lemma_split_prepend_line(l: Seq<u8>, rest: Seq<u8>)
    requires
        forall|k: int| 0 <= k < l.len() ==> l[k] != LINE_FEED,
    ensures
        split_lines(l + seq![LINE_FEED] + rest) == seq![l] + split_lines(rest),
{
    let s = l + seq![LINE_FEED] + rest;
    let n = l.len() as int;
    assert(s.subrange(0, n) =~= l);
    assert(forall|k: int| 0 <= k < n ==> s[k] != LINE_FEED);
    lemma_split_from_skip(s, 0, n, seq![]);
    assert(Seq::<u8>::empty() + s.subrange(0, n) =~= l);
    assert(s[n] == LINE_FEED);
    assert(split_from(s, n, l) == seq![l] + split_from(s, n + 1, seq![]));
    assert(s.subrange(n + 1, s.len() as int) =~= rest.subrange(0, rest.len() as int));
    assert(rest.subrange(0, rest.len() as int) =~= rest);
    lemma_split_from_suffix(s, rest, n + 1, 0, seq![]);
}

/// Every byte of every split line occurs in the current line or in the
/// unread tail of the text.
proof fn lemma_split_from_bytes(s: Seq<u8>, i: int, cur: Seq<u8>)
    requires
        0 <= i <= s.len(),
    ensures
        forall|li: int, k: int|
            0 <= li < split_from(s, i, cur).len() && 0 <= k < split_from(s, i, cur)[li].len()
                ==> cur.contains(#[trigger] split_from(s, i, cur)[li][k]) || s.subrange(
                i,
                s.len() as int,
            ).contains(split_from(s, i, cur)[li][k]),
    decreases s.len() - i,
{
    let r = split_from(s, i, cur);
    let tail = s.subrange(i, s.len() as int);
    if i >= s.len() {
        assert forall|li: int, k: int| 0 <= li < r.len() && 0 <= k < r[li].len() implies
            cur.contains(#[trigger] r[li][k]) || tail.contains(r[li][k]) by {
            assert(r[li] == cur);
            assert(cur[k] == r[li][k]);
        };
    } else if s[i] == LINE_FEED {
        lemma_split_from_bytes(s, i + 1, seq![]);
        let rr = split_from(s, i + 1, seq![]);
        assert forall|li: int, k: int| 0 <= li < r.len() && 0 <= k < r[li].len() implies
            cur.contains(#[trigger] r[li][k]) || tail.contains(r[li][k]) by {
            if li == 0 {
                assert(r[0] == cur);
                assert(cur[k] == r[0][k]);
            } else {
                assert(r[li] == rr[li - 1]);
                assert(Seq::<u8>::empty().contains(rr[li - 1][k]) || s.subrange(
                    i + 1,
                    s.len() as int,
                ).contains(rr[li - 1][k]));
                let w = choose|w: int|
                    0 <= w < s.subrange(i + 1, s.len() as int).len() && #[trigger] s.subrange(
                        i + 1,
                        s.len() as int,
                    )[w] == rr[li - 1][k];
                assert(tail[w + 1] == rr[li - 1][k]);
            }
        };
    } else {
        lemma_split_from_bytes(s, i + 1, cur.push(s[i]));
        let rr = split_from(s, i + 1, cur.push(s[i]));
        assert(r == rr);
        assert forall|li: int, k: int| 0 <= li < r.len() && 0 <= k < r[li].len() implies
            cur.contains(#[trigger] r[li][k]) || tail.contains(r[li][k]) by {
            assert(cur.push(s[i]).contains(rr[li][k]) || s.subrange(i + 1, s.len() as int).contains(
                rr[li][k],
            ));
            if cur.push(s[i]).contains(rr[li][k]) {
                let w = choose|w: int|
                    0 <= w < cur.push(s[i]).len() && #[trigger] cur.push(s[i])[w] == rr[li][k];
                if w < cur.len() {
                    assert(cur[w] == rr[li][k]);
                } else {
                    assert(tail[0] == s[i]);
                }
            } else {
                let w = choose|w: int|
                    0 <= w < s.subrange(i + 1, s.len() as int).len() && #[trigger] s.subrange(
                        i + 1,
                        s.len() as int,
                    )[w] == rr[li][k];
                assert(tail[w + 1] == rr[li][k]);
            }
        };
    }
}

proof fn lemma_split_from_no_nl(s: Seq<u8>, i: int, cur: Seq<u8>)
    requires
        0 <= i <= s.len(),
        forall|k: int| 0 <= k < cur.len() ==> cur[k] != LINE_FEED,
    ensures
        forall|li: int, k: int|
            0 <= li < split_from(s, i, cur).len() && 0 <= k < split_from(s, i, cur)[li].len()
                ==> #[trigger] split_from(s, i, cur)[li][k] != LINE_FEED,
    decreases s.len() - i,
{
    let r = split_from(s, i, cur);
    if i >= s.len() {
        assert forall|li: int, k: int| 0 <= li < r.len() && 0 <= k < r[li].len() implies
            #[trigger] r[li][k] != LINE_FEED by {
            assert(r[li] == cur);
        };
    } else if s[i] == LINE_FEED {
        lemma_split_from_no_nl(s, i + 1, seq![]);
        let rr = split_from(s, i + 1, seq![]);
        assert forall|li: int, k: int| 0 <= li < r.len() && 0 <= k < r[li].len() implies
            #[trigger] r[li][k] != LINE_FEED by {
            if li == 0 {
                assert(r[0] == cur);
            } else {
                assert(r[li] == rr[li - 1]);
            }
        };
    } else {
        assert(forall|k: int|
            0 <= k < cur.push(s[i]).len() ==> #[trigger] cur.push(s[i])[k] != LINE_FEED);
        lemma_split_from_no_nl(s, i + 1, cur.push(s[i]));
        let rr = split_from(s, i + 1, cur.push(s[i]));
        assert(r == rr);
        assert forall|li: int, k: int| 0 <= li < r.len() && 0 <= k < r[li].len() implies
            #[trigger] r[li][k] != LINE_FEED by {
            assert(r[li][k] == rr[li][k]);
        };
    }
}

/// No line of a split text holds a line feed.
pub proof fn lemma_split_lines_no_nl(s: Seq<u8>)
    ensures
        forall|li: int, k: int|
            0 <= li < split_lines(s).len() && 0 <= k < split_lines(s)[li].len()
                ==> #[trigger] split_lines(s)[li][k] != LINE_FEED,
{
    lemma_split_from_no_nl(s, 0, seq![]);
}

/// Every byte of every line of a split text occurs in the text.
pub proof fn lemma_split_lines_bytes(s: Seq<u8>)
    ensures
        forall|li: int, k: int|
            0 <= li < split_lines(s).len() && 0 <= k < split_lines(s)[li].len() ==> s.contains(
                #[trigger] split_lines(s)[li][k],
            ),
{
    lemma_split_from_bytes(s, 0, seq![]);
    assert(s.subrange(0, s.len() as int) =~= s);
}

/// Split a byte text into its lines.
pub fn split_lines_exec(s: &[u8]) -> (r: Vec<Vec<u8>>)
    ensures
        r.deep_view() == split_lines(s@),
{
    let mut out: Vec<Vec<u8>> = Vec::new();
    let mut cur: Vec<u8> = Vec::new();
    let mut i: usize = 0;
    while i < s.len()
        invariant
            i <= s@.len(),
            split_lines(s@) == out.deep_view() + split_from(s@, i as int, cur@),
        decreases s@.len() - i,
    {
        if s[i] == LINE_FEED {
            let ghost prev = out.deep_view();
            let ghost line = cur@;
            out.push(cur);
            cur = Vec::new();
            proof {
                assert(out.deep_view() =~~= prev.push(line));
                assert(prev.push(line) + split_from(s@, i + 1, seq![]) =~= prev + (seq![line]
                    + split_from(s@, i + 1, seq![])));
            }
        } else {
            cur.push(s[i]);
        }
        i = i + 1;
    }
    if cur.len() > 0 {
        let ghost prev = out.deep_view();
        let ghost line = cur@;
        out.push(cur);
        proof {
            assert(out.deep_view() =~~= prev.push(line));
            assert(prev.push(line) =~= prev + seq![line]);
        }
    } else {
        proof {
            assert(out.deep_view() + split_from(s@, i as int, cur@) =~= out.deep_view());
        }
    }
    out
}

/// Remove one trailing carriage return, if any.
pub fn strip_cr(l: &mut Vec<u8>)
    ensures
        final(l)@ == strip_cr_spec(old(l)@),
{
    if l.len() > 0 {
        let last = l[l.len() - 1];
        if last == CARRIAGE_RETURN {
            l.pop();
            proof {
                assert(l@ =~= old(l)@.drop_last());
            }
        }
    }
}

} // verus!
