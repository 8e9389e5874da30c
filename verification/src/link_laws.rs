//! Laws of wikilink extraction over whole texts: joining two texts with a
//! line break joins their links, and a closed fenced block adds none.
use vstd::prelude::*;
use crate::text::{lemma_next_newline, lines, lines_from, next_newline, strip_cr, trim};
use crate::parser::{body_lines_from, fences_before, is_fence};
use crate::wikilinks::{
    in_link_part, lemma_part_end, lemma_wikilink_at_end, link_close, link_tail, links_from,
    links_in_lines, part_end, spec_wikilinks, wikilink_at, LinkPart, LinkView,
};

verus! {

/// Whether a fenced code block is open after the lines of `ls` from index
/// `i` on, `in_code` telling whether one is open before line `i`.
pub open spec fn code_after(ls: Seq<Seq<char>>, i: int, in_code: bool) -> bool
    decreases ls.len() - i,
{
    if i < 0 || i >= ls.len() {
        in_code
    } else if is_fence(ls[i]) {
        code_after(ls, i + 1, !in_code)
    } else {
        code_after(ls, i + 1, in_code)
    }
}

/// The wikilinks of the lines `ls` that lie outside fenced code blocks,
/// `in_code` telling whether a block is open before the first line.
pub open spec fn body_links(ls: Seq<Seq<char>>, in_code: bool) -> Seq<LinkView> {
    links_in_lines(body_lines_from(ls, 0, in_code), 0)
}

// ---- a trailing carriage return changes no link ----
proof fn lemma_part_end_push(l: Seq<char>, i: int, k: LinkPart)
    requires
        0 <= i <= l.len(),
    ensures
        part_end(l.push('\r'), i, k) == if part_end(l, i, k) < l.len() {
            part_end(l, i, k)
        } else {
            l.len() + 1int
        },
    decreases l.len() - i,
{
    let big = l.push('\r');
    if i < l.len() {
        assert(big[i] == l[i]);
        if in_link_part(l[i], k) {
            lemma_part_end_push(l, i + 1, k);
        }
    } else {
        assert(big[i] == '\r');
        assert(in_link_part('\r', k));
        assert(part_end(big, i + 1, k) == i + 1);
    }
}

proof fn lemma_link_close_push(
    l: Seq<char>,
    target: Seq<char>,
    heading: Option<Seq<char>>,
    alias: Option<Seq<char>>,
    r: int,
)
    requires
        0 <= r <= l.len() + 1,
    ensures
        link_close(l.push('\r'), target, heading, alias, r) == if r <= l.len() {
            link_close(l, target, heading, alias, r)
        } else {
            None
        },
{
    let big = l.push('\r');
    if r + 1 < l.len() {
        assert(big[r] == l[r] && big[r + 1] == l[r + 1]);
    } else if r + 1 == l.len() {
        assert(big[r + 1] == '\r');
    }
}

proof fn lemma_link_tail_push(l: Seq<char>, target: Seq<char>, heading: Option<Seq<char>>, q: int)
    requires
        0 <= q <= l.len() + 1,
    ensures
        link_tail(l.push('\r'), target, heading, q) == if q <= l.len() {
            link_tail(l, target, heading, q)
        } else {
            None
        },
{
    let big = l.push('\r');
    if q < l.len() && l[q] == '|' {
        assert(big[q] == '|');
        lemma_part_end(l, q + 1, LinkPart::Alias);
        lemma_part_end_push(l, q + 1, LinkPart::Alias);
        let e = part_end(l, q + 1, LinkPart::Alias);
        if e < l.len() {
            assert(big.subrange(q + 1, e) =~= l.subrange(q + 1, e));
            lemma_link_close_push(l, target, heading, Some(trim(l.subrange(q + 1, e))), e);
        }
    } else {
        if q < l.len() {
            assert(big[q] == l[q]);
        } else if q == l.len() {
            assert(big[q] == '\r');
        }
        lemma_link_close_push(l, target, heading, None, q);
    }
}

proof fn lemma_wikilink_at_push(l: Seq<char>, p: int)
    requires
        0 <= p <= l.len(),
    ensures
        wikilink_at(l.push('\r'), p) == if p < l.len() {
            wikilink_at(l, p)
        } else {
            None
        },
{
    let big = l.push('\r');
    if p == l.len() {
        assert(big[p] == '\r');
    } else if p + 1 < l.len() && l[p] == '[' && l[p + 1] == '[' {
        assert(big[p] == '[' && big[p + 1] == '[');
        lemma_part_end(l, p + 2, LinkPart::Target);
        lemma_part_end_push(l, p + 2, LinkPart::Target);
        let e1 = part_end(l, p + 2, LinkPart::Target);
        if e1 < l.len() {
            assert(big.subrange(p + 2, e1) =~= l.subrange(p + 2, e1));
            assert(big[e1] == l[e1]);
            let target = trim(l.subrange(p + 2, e1));
            if l[e1] == '#' {
                lemma_part_end(l, e1 + 1, LinkPart::Heading);
                lemma_part_end_push(l, e1 + 1, LinkPart::Heading);
                let e2 = part_end(l, e1 + 1, LinkPart::Heading);
                if e2 < l.len() {
                    assert(big.subrange(e1 + 1, e2) =~= l.subrange(e1 + 1, e2));
                    lemma_link_tail_push(l, target, Some(trim(l.subrange(e1 + 1, e2))), e2);
                }
            } else {
                lemma_link_tail_push(l, target, None, e1);
            }
        }
    } else if p + 1 < l.len() {
        assert(big[p] == l[p] && big[p + 1] == l[p + 1]);
    } else {
        assert(big[p + 1] == '\r');
    }
}

proof fn lemma_links_from_push(l: Seq<char>, p: int)
    requires
        0 <= p,
    ensures
        links_from(l.push('\r'), p) == links_from(l, p),
    decreases l.len() + 1 - p,
{
    let big = l.push('\r');
    if p < l.len() {
        lemma_wikilink_at_push(l, p);
        lemma_wikilink_at_end(l, p);
        match wikilink_at(l, p) {
            Some((_, e)) => lemma_links_from_push(l, e),
            None => lemma_links_from_push(l, p + 1),
        }
    } else if p == l.len() {
        lemma_wikilink_at_push(l, p);
        assert(links_from(big, p + 1) == Seq::<LinkView>::empty());
    }
}

/// Removing a line's trailing carriage return changes neither its links
/// nor whether it is a fence.
proof fn lemma_strip_cr_line(l: Seq<char>)
    ensures
        links_from(strip_cr(l), 0) == links_from(l, 0),
        is_fence(strip_cr(l)) == is_fence(l),
{
    if l.len() > 0 && l.last() == '\r' {
        assert(l =~= l.drop_last().push('\r'));
        lemma_links_from_push(l.drop_last(), 0);
    }
}

// ---- lists of lines ----
proof fn lemma_body_lines_shift(x: Seq<Seq<char>>, y: Seq<Seq<char>>, j: int, c: bool)
    requires
        0 <= j <= y.len(),
    ensures
        body_lines_from(x + y, x.len() + j, c) == body_lines_from(y, j, c),
        code_after(x + y, x.len() + j, c) == code_after(y, j, c),
    decreases y.len() - j,
{
    if j < y.len() {
        assert((x + y)[x.len() + j] == y[j]);
        lemma_body_lines_shift(x, y, j + 1, !c);
        lemma_body_lines_shift(x, y, j + 1, c);
    }
}

proof fn lemma_body_lines_concat(x: Seq<Seq<char>>, y: Seq<Seq<char>>, i: int, c: bool)
    requires
        0 <= i <= x.len(),
    ensures
        body_lines_from(x + y, i, c) == body_lines_from(x, i, c) + body_lines_from(
            y,
            0,
            code_after(x, i, c),
        ),
        code_after(x + y, i, c) == code_after(y, 0, code_after(x, i, c)),
    decreases x.len() - i,
{
    if i == x.len() {
        lemma_body_lines_shift(x, y, 0, c);
        assert(body_lines_from(x, i, c) + body_lines_from(y, 0, c) =~= body_lines_from(y, 0, c));
    } else {
        assert((x + y)[i] == x[i]);
        lemma_body_lines_concat(x, y, i + 1, !c);
        lemma_body_lines_concat(x, y, i + 1, c);
        if !is_fence(x[i]) && !c {
            assert(body_lines_from(x + y, i, c) =~= body_lines_from(x, i, c) + body_lines_from(
                y,
                0,
                code_after(x, i, c),
            ));
        }
    }
}

proof fn lemma_links_in_lines_shift(x: Seq<Seq<char>>, y: Seq<Seq<char>>, j: int)
    requires
        0 <= j <= y.len(),
    ensures
        links_in_lines(x + y, x.len() + j) == links_in_lines(y, j),
    decreases y.len() - j,
{
    if j < y.len() {
        assert((x + y)[x.len() + j] == y[j]);
        lemma_links_in_lines_shift(x, y, j + 1);
    }
}

proof fn lemma_links_in_lines_concat(x: Seq<Seq<char>>, y: Seq<Seq<char>>, i: int)
    requires
        0 <= i <= x.len(),
    ensures
        links_in_lines(x + y, i) == links_in_lines(x, i) + links_in_lines(y, 0),
    decreases x.len() - i,
{
    if i == x.len() {
        lemma_links_in_lines_shift(x, y, 0);
        assert(links_in_lines(x, i) + links_in_lines(y, 0) =~= links_in_lines(y, 0));
    } else {
        assert((x + y)[i] == x[i]);
        lemma_links_in_lines_concat(x, y, i + 1);
        assert(links_in_lines(x + y, i) =~= links_in_lines(x, i) + links_in_lines(y, 0));
    }
}

/// The links of two runs of lines, the second read in the code-block state
/// the first leaves.
proof fn lemma_body_links_concat(x: Seq<Seq<char>>, y: Seq<Seq<char>>, c: bool)
    ensures
        body_links(x + y, c) == body_links(x, c) + body_links(y, code_after(x, 0, c)),
        code_after(x + y, 0, c) == code_after(y, 0, code_after(x, 0, c)),
{
    lemma_body_lines_concat(x, y, 0, c);
    lemma_links_in_lines_concat(body_lines_from(x, 0, c), body_lines_from(y, 0, code_after(x, 0, c)), 0);
}

proof fn lemma_one_line(l: Seq<char>, c: bool)
    ensures
        body_links(seq![l], c) == if is_fence(l) || c {
            Seq::<LinkView>::empty()
        } else {
            links_from(l, 0)
        },
        code_after(seq![l], 0, c) == (c != is_fence(l)),
{
    let ls = seq![l];
    assert(body_lines_from(ls, 1, !c) == Seq::<Seq<char>>::empty());
    assert(body_lines_from(ls, 1, c) == Seq::<Seq<char>>::empty());
    assert(code_after(ls, 1, !c) == !c);
    assert(code_after(ls, 1, c) == c);
    if !is_fence(l) && !c {
        assert(body_lines_from(ls, 0, c) =~= seq![l]);
        assert(links_in_lines(seq![l], 1) == Seq::<LinkView>::empty());
        assert(links_in_lines(seq![l], 0) =~= links_from(l, 0));
    }
}

/// Lines that hold no fence, read inside a code block, give no links and
/// leave the block open.
proof fn lemma_no_fence_in_code(x: Seq<Seq<char>>, i: int)
    requires
        0 <= i <= x.len(),
        forall|k: int| 0 <= k < x.len() ==> !is_fence(#[trigger] x[k]),
    ensures
        body_lines_from(x, i, true) == Seq::<Seq<char>>::empty(),
        code_after(x, i, true),
    decreases x.len() - i,
{
    if i < x.len() {
        lemma_no_fence_in_code(x, i + 1);
    }
}

/// A code block is open after `x` exactly when an odd number of its lines
/// are fences (reading from a closed state).
proof fn lemma_code_after_parity(x: Seq<Seq<char>>, i: int, c: bool)
    requires
        0 <= i <= x.len(),
    ensures
        code_after(x, i, c) == (c != ((fences_before(x, x.len() as int) - fences_before(x, i)) % 2 == 1)),
    decreases x.len() - i,
{
    if i < x.len() {
        assert(fences_before(x, i + 1) == fences_before(x, i) + if is_fence(x[i]) {
            1nat
        } else {
            0nat
        });
        lemma_code_after_parity(x, i + 1, !c);
        lemma_code_after_parity(x, i + 1, c);
    }
}

// ---- the lines of joined texts ----
proof fn lemma_next_newline_shift(pre: Seq<char>, b: Seq<char>, i: int)
    requires
        0 <= i <= b.len(),
    ensures
        next_newline(pre + b, pre.len() + i) == pre.len() + next_newline(b, i),
    decreases b.len() - i,
{
    if i < b.len() {
        assert((pre + b)[pre.len() + i] == b[i]);
        lemma_next_newline_shift(pre, b, i + 1);
    }
}

proof fn lemma_lines_shift(pre: Seq<char>, b: Seq<char>, i: int)
    requires
        0 <= i <= b.len(),
    ensures
        lines_from(pre + b, pre.len() + i) == lines_from(b, i),
    decreases b.len() - i,
{
    if i < b.len() {
        let s = pre + b;
        let p = pre.len() as int;
        lemma_next_newline_shift(pre, b, i);
        lemma_next_newline(b, i);
        let j = next_newline(b, i);
        assert(s.subrange(p + i, p + j) =~= b.subrange(i, j));
        if j < b.len() {
            lemma_lines_shift(pre, b, j + 1);
        }
    }
}

/// Before the line break that ends `t`, the text `t + b` finds its line
/// breaks where `t` does.
proof fn lemma_next_newline_prefix(t: Seq<char>, b: Seq<char>, i: int)
    requires
        t.len() > 0,
        t.last() == '\n',
        0 <= i < t.len(),
    ensures
        next_newline(t + b, i) == next_newline(t, i),
        next_newline(t, i) < t.len(),
    decreases t.len() - i,
{
    assert((t + b)[i] == t[i]);
    if t[i] != '\n' {
        lemma_next_newline_prefix(t, b, i + 1);
    }
}

proof fn lemma_lines_join_from(a: Seq<char>, b: Seq<char>, i: int)
    requires
        0 <= i <= a.len(),
    ensures
        lines_from(a.push('\n') + b, i) == lines_from(a.push('\n'), i) + lines_from(b, 0),
    decreases a.len() - i,
{
    let t = a.push('\n');
    let s = t + b;
    let m = a.len() as int;
    lemma_next_newline_prefix(t, b, i);
    lemma_next_newline(t, i);
    let j = next_newline(t, i);
    assert(s.subrange(i, j) =~= t.subrange(i, j));
    if j < m {
        lemma_lines_join_from(a, b, j + 1);
        assert(lines_from(s, i) =~= lines_from(t, i) + lines_from(b, 0));
    } else {
        assert(j == m);
        lemma_lines_shift(t, b, 0);
        assert(lines_from(t, m + 1) == Seq::<Seq<char>>::empty());
        assert(lines_from(s, i) =~= lines_from(t, i) + lines_from(b, 0));
    }
}

/// The lines of `a + "\n" + b`: those of `a` ended by a line break, then
/// those of `b`.
proof fn lemma_lines_join(a: Seq<char>, b: Seq<char>)
    ensures
        lines(a + seq!['\n'] + b) == lines(a.push('\n')) + lines(b),
{
    assert(a + seq!['\n'] + b =~= a.push('\n') + b);
    lemma_lines_join_from(a, b, 0);
}

proof fn lemma_next_newline_push(a: Seq<char>, i: int)
    requires
        0 <= i <= a.len(),
    ensures
        next_newline(a.push('\n'), i) == next_newline(a, i),
    decreases a.len() - i,
{
    if i < a.len() {
        assert(a.push('\n')[i] == a[i]);
        if a[i] != '\n' {
            lemma_next_newline_push(a, i + 1);
        }
    } else {
        assert(a.push('\n')[i] == '\n');
    }
}

/// Ending a text with a line break adds an empty last line when it already
/// ended with one, else strips the last line's carriage return.
proof fn lemma_lines_closed_from(a: Seq<char>, i: int)
    requires
        0 <= i < a.len(),
    ensures
        lines_from(a, i).len() > 0,
        a.last() == '\n' ==> lines_from(a.push('\n'), i) == lines_from(a, i).push(
            Seq::<char>::empty(),
        ),
        a.last() != '\n' ==> lines_from(a.push('\n'), i) == lines_from(a, i).drop_last().push(
            strip_cr(lines_from(a, i).last()),
        ),
    decreases a.len() - i,
{
    let t = a.push('\n');
    let m = a.len() as int;
    lemma_next_newline_push(a, i);
    lemma_next_newline(a, i);
    let j = next_newline(a, i);
    assert(t.subrange(i, j) =~= a.subrange(i, j));
    let h = strip_cr(a.subrange(i, j));
    if j < m {
        if j + 1 < m {
            lemma_lines_closed_from(a, j + 1);
            let rest = lines_from(a, j + 1);
            assert(lines_from(a, i) == seq![h] + rest);
            assert(lines_from(t, i) == seq![h] + lines_from(t, j + 1));
            if a.last() == '\n' {
                assert((seq![h] + rest).push(Seq::<char>::empty()) =~= seq![h] + rest.push(
                    Seq::<char>::empty(),
                ));
            } else {
                assert((seq![h] + rest).drop_last().push(strip_cr((seq![h] + rest).last())) =~= seq![h]
                    + rest.drop_last().push(strip_cr(rest.last())));
            }
        } else {
            assert(a.last() == '\n');
            assert(lines_from(a, m) == Seq::<Seq<char>>::empty());
            lemma_next_newline(t, m);
            assert(t[m] == '\n');
            assert(next_newline(t, m) == m);
            assert(t.subrange(m, m) =~= Seq::<char>::empty());
            assert(lines_from(t, m + 1) == Seq::<Seq<char>>::empty());
            assert(lines_from(t, m) =~= seq![Seq::<char>::empty()]);
            assert(lines_from(t, i) =~= lines_from(a, i).push(Seq::<char>::empty()));
        }
    } else {
        assert(a[m - 1] != '\n');
        assert(lines_from(a, i) == seq![a.subrange(i, j)]);
        assert(lines_from(t, m + 1) == Seq::<Seq<char>>::empty());
        assert(lines_from(t, i) =~= seq![strip_cr(a.subrange(i, j))]);
        assert(lines_from(a, i).drop_last().push(strip_cr(lines_from(a, i).last())) =~= seq![
            strip_cr(a.subrange(i, j)),
        ]);
    }
}

/// Ending a text with a line break changes neither its links nor the
/// code-block state it leaves.
proof fn lemma_closed_links(a: Seq<char>, c: bool)
    ensures
        body_links(lines(a.push('\n')), c) == body_links(lines(a), c),
        code_after(lines(a.push('\n')), 0, c) == code_after(lines(a), 0, c),
{
    let t = a.push('\n');
    let e = Seq::<char>::empty();
    lemma_one_line(e, c);
    assert(links_from(e, 0) == Seq::<LinkView>::empty());
    if a.len() == 0 {
        lemma_next_newline(t, 0);
        assert(t[0] == '\n');
        assert(t.subrange(0, 0) =~= e);
        assert(lines_from(t, 1) == Seq::<Seq<char>>::empty());
        assert(lines(t) =~= seq![e]);
        assert(lines(a) == Seq::<Seq<char>>::empty());
        assert(!is_fence(e));
        assert(body_lines_from(lines(a), 0, c) == Seq::<Seq<char>>::empty());
        assert(links_in_lines(Seq::<Seq<char>>::empty(), 0) == Seq::<LinkView>::empty());
    } else {
        lemma_lines_closed_from(a, 0);
        let la = lines(a);
        if a.last() == '\n' {
            lemma_body_links_concat(la, seq![e], c);
            lemma_one_line(e, code_after(la, 0, c));
            assert(la.push(e) =~= la + seq![e]);
            assert(body_links(la, c) + Seq::<LinkView>::empty() =~= body_links(la, c));
        } else {
            let x = la.drop_last();
            let l = la.last();
            assert(la =~= x + seq![l]);
            assert(lines(t) =~= x + seq![strip_cr(l)]);
            lemma_body_links_concat(x, seq![l], c);
            lemma_body_links_concat(x, seq![strip_cr(l)], c);
            lemma_strip_cr_line(l);
            lemma_one_line(l, code_after(x, 0, c));
            lemma_one_line(strip_cr(l), code_after(x, 0, c));
        }
    }
}

/// The links of `a + "\n" + b`, read from code-block state `c`: those of
/// `a`, then those of `b` read in the state `a` leaves.
proof fn lemma_body_links_join(a: Seq<char>, b: Seq<char>, c: bool)
    ensures
        body_links(lines(a + seq!['\n'] + b), c) == body_links(lines(a), c) + body_links(
            lines(b),
            code_after(lines(a), 0, c),
        ),
{
    lemma_lines_join(a, b);
    lemma_body_links_concat(lines(a.push('\n')), lines(b), c);
    lemma_closed_links(a, c);
}

/// Joining two notes with a line break joins their wikilinks, in order,
/// when the first leaves no fenced code block open (an even number of its
/// lines start with three backticks).
pub proof fn lemma_wikilinks_join(a: Seq<char>, b: Seq<char>)
    requires
        fences_before(lines(a), lines(a).len() as int) % 2 == 0,
    ensures
        spec_wikilinks(a + seq!['\n'] + b) == spec_wikilinks(a) + spec_wikilinks(b),
{
    lemma_body_links_join(a, b, false);
    lemma_code_after_parity(lines(a), 0, false);
}

/// A closed fenced code block, set between two parts of a note that leaves
/// no block open before it, adds no wikilinks and changes no others.
pub proof fn lemma_wikilinks_fenced_block(a: Seq<char>, c: Seq<char>, b: Seq<char>)
    requires
        fences_before(lines(a), lines(a).len() as int) % 2 == 0,
        forall|k: int| 0 <= k < lines(c).len() ==> !is_fence(#[trigger] lines(c)[k]),
    ensures
        spec_wikilinks(
            a + seq!['\n', '`', '`', '`', '\n'] + c + seq!['\n', '`', '`', '`', '\n'] + b,
        ) == spec_wikilinks(a + seq!['\n'] + b),
{
    let f = seq!['`', '`', '`'];
    let n = seq!['\n'];
    let b1 = f + n + b;
    let c1 = c + n + b1;
    let f1 = f + n + c1;
    assert(a + seq!['\n', '`', '`', '`', '\n'] + c + seq!['\n', '`', '`', '`', '\n'] + b =~= a + n
        + f1);
    // the fence line alone
    lemma_next_newline(f, 0);
    assert(next_newline(f, 0) == 3);
    assert(f.subrange(0, 3) =~= f);
    assert(lines(f) =~= seq![f]);
    assert(is_fence(f));
    lemma_one_line(f, false);
    lemma_one_line(f, true);
    // c, read inside the block
    lemma_no_fence_in_code(lines(c), 0);
    assert(links_in_lines(Seq::<Seq<char>>::empty(), 0) == Seq::<LinkView>::empty());
    lemma_body_links_join(a, f1, false);
    lemma_code_after_parity(lines(a), 0, false);
    lemma_body_links_join(f, c1, false);
    lemma_body_links_join(c, b1, true);
    lemma_body_links_join(f, b, true);
    lemma_wikilinks_join(a, b);
    assert(Seq::<LinkView>::empty() + body_links(lines(b), false) =~= body_links(lines(b), false));
    assert(Seq::<LinkView>::empty() + body_links(lines(b1), true) =~= body_links(lines(b1), true));
    assert(Seq::<LinkView>::empty() + body_links(lines(c1), true) =~= body_links(lines(c1), true));
}

} // verus!
