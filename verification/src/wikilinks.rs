//! Wikilinks: `[[target#heading|alias]]` links between notes.
use vstd::prelude::*;
use crate::text::{
    chars_of, copy_range, lemma_trim, lines, no_outer_space, opt_view, seq_views, string_of, trim,
    trim_chars,
};
use crate::parser::{body_line_chars, spec_body_lines};

verus! {

/// A `[[target#heading|alias]]` link between notes.
#[derive(Debug, Clone)]
pub struct WikiLink {
    pub target: String,
    pub heading: Option<String>,
    pub alias: Option<String>,
}

/// A wikilink as character sequences.
pub struct LinkView {
    pub target: Seq<char>,
    pub heading: Option<Seq<char>>,
    pub alias: Option<Seq<char>>,
}


impl View for WikiLink {
    type V = LinkView;

    open spec fn view(&self) -> LinkView {
        LinkView { target: self.target@, heading: opt_view(self.heading), alias: opt_view(self.alias) }
    }
}

pub open spec fn link_views(v: Seq<WikiLink>) -> Seq<LinkView> {
    v.map_values(|l: WikiLink| l@)
}

/// The three parts of a wikilink and the characters each may hold:
/// a target holds no `]`, `|` or `#`; a heading no `]` or `|`; an alias no `]`.
pub enum LinkPart {
    Target,
    Heading,
    Alias,
}

pub open spec fn in_link_part(c: char, k: LinkPart) -> bool {
    match k {
        LinkPart::Target => c != ']' && c != '|' && c != '#',
        LinkPart::Heading => c != ']' && c != '|',
        LinkPart::Alias => c != ']',
    }
}

/// The end of the longest run of `k` characters in `l` starting at `i`.
pub open spec fn part_end(l: Seq<char>, i: int, k: LinkPart) -> int
    decreases l.len() - i,
{
    if 0 <= i < l.len() && in_link_part(l[i], k) {
        part_end(l, i + 1, k)
    } else {
        i
    }
}

pub proof fn lemma_part_end(l: Seq<char>, i: int, k: LinkPart)
    requires
        0 <= i <= l.len(),
    ensures
        i <= part_end(l, i, k) <= l.len(),
        forall|j: int| i <= j < part_end(l, i, k) ==> in_link_part(#[trigger] l[j], k),
        part_end(l, i, k) < l.len() ==> !in_link_part(l[part_end(l, i, k)], k),
    decreases l.len() - i,
{
    if i < l.len() && in_link_part(l[i], k) {
        lemma_part_end(l, i + 1, k);
    }
}

/// The closing `]]` at `r`; the link spans up to `r + 2`.
pub open spec fn link_close(
    l: Seq<char>,
    target: Seq<char>,
    heading: Option<Seq<char>>,
    alias: Option<Seq<char>>,
    r: int,
) -> Option<(LinkView, int)> {
    if 0 <= r && r + 1 < l.len() && l[r] == ']' && l[r + 1] == ']' {
        Some((LinkView { target, heading, alias }, r + 2))
    } else {
        None
    }
}

/// An optional `|alias` at `q`, then the closing brackets.
pub open spec fn link_tail(
    l: Seq<char>,
    target: Seq<char>,
    heading: Option<Seq<char>>,
    q: int,
) -> Option<(LinkView, int)> {
    if 0 <= q < l.len() && l[q] == '|' {
        let e = part_end(l, q + 1, LinkPart::Alias);
        if e == q + 1 {
            None
        } else {
            link_close(l, target, heading, Some(trim(l.subrange(q + 1, e))), e)
        }
    } else {
        link_close(l, target, heading, None, q)
    }
}

/// The wikilink that the pattern `\[\[([^\]|#]+)(?:#([^\]|]+))?(?:\|([^\]]+))?\]\]`
/// matches at position `p` of line `l`, with its parts trimmed, and the
/// position after it.
pub open spec fn wikilink_at(l: Seq<char>, p: int) -> Option<(LinkView, int)> {
    if !(0 <= p && p + 1 < l.len() && l[p] == '[' && l[p + 1] == '[') {
        None
    } else {
        let e1 = part_end(l, p + 2, LinkPart::Target);
        if e1 == p + 2 {
            None
        } else {
            let target = trim(l.subrange(p + 2, e1));
            if e1 < l.len() && l[e1] == '#' {
                let e2 = part_end(l, e1 + 1, LinkPart::Heading);
                if e2 == e1 + 1 {
                    None
                } else {
                    link_tail(l, target, Some(trim(l.subrange(e1 + 1, e2))), e2)
                }
            } else {
                link_tail(l, target, None, e1)
            }
        }
    }
}

pub proof fn lemma_wikilink_at_end(l: Seq<char>, p: int)
    ensures
        wikilink_at(l, p) matches Some((_, e)) ==> p < e <= l.len(),
{
    if 0 <= p && p + 1 < l.len() && l[p] == '[' && l[p + 1] == '[' {
        lemma_part_end(l, p + 2, LinkPart::Target);
        let e1 = part_end(l, p + 2, LinkPart::Target);
        if e1 < l.len() && l[e1] == '#' {
            lemma_part_end(l, e1 + 1, LinkPart::Heading);
            let e2 = part_end(l, e1 + 1, LinkPart::Heading);
            if e2 < l.len() {
                lemma_part_end(l, e2 + 1, LinkPart::Alias);
            }
        } else if e1 < l.len() {
            lemma_part_end(l, e1 + 1, LinkPart::Alias);
        }
    }
}

/// The wikilinks of line `l` found from position `p` on, left to right,
/// each search resuming after the previous link.
pub open spec fn links_from(l: Seq<char>, p: int) -> Seq<LinkView>
    decreases l.len() - p,
{
    if p < 0 || p >= l.len() {
        seq![]
    } else {
        match wikilink_at(l, p) {
            Some((lk, e)) => {
                proof {
                    lemma_wikilink_at_end(l, p);
                }
                seq![lk] + links_from(l, e)
            },
            None => links_from(l, p + 1),
        }
    }
}

/// The wikilinks of the lines `ls` from index `i` on.
pub open spec fn links_in_lines(ls: Seq<Seq<char>>, i: int) -> Seq<LinkView>
    decreases ls.len() - i,
{
    if i < 0 || i >= ls.len() {
        seq![]
    } else {
        links_from(ls[i], 0) + links_in_lines(ls, i + 1)
    }
}

/// The wikilinks of a note, in order, outside fenced code blocks.
pub open spec fn spec_wikilinks(content: Seq<char>) -> Seq<LinkView> {
    links_in_lines(spec_body_lines(content), 0)
}

fn link_part_end(l: &Vec<char>, i: usize, k: LinkPart) -> (e: usize)
    requires
        i <= l.len(),
    ensures
        e == part_end(l@, i as int, k),
{
    let mut e = i;
    loop
        invariant
            i <= e <= l.len(),
            part_end(l@, e as int, k) == part_end(l@, i as int, k),
        ensures
            part_end(l@, e as int, k) == e,
        decreases l.len() - e,
    {
        if e >= l.len() {
            break;
        }
        let c = l[e];
        let inside = match k {
            LinkPart::Target => c != ']' && c != '|' && c != '#',
            LinkPart::Heading => c != ']' && c != '|',
            LinkPart::Alias => c != ']',
        };
        assert(inside == in_link_part(l@[e as int], k));
        if !inside {
            break;
        }
        e = e + 1;
    }
    e
}

fn trimmed_string(l: &Vec<char>, lo: usize, hi: usize) -> (s: String)
    requires
        lo <= hi <= l.len(),
    ensures
        s@ == trim(l@.subrange(lo as int, hi as int)),
{
    let part = copy_range(l, lo, hi);
    let t = trim_chars(&part);
    string_of(&t)
}

fn close_link(
    l: &Vec<char>,
    target: String,
    heading: Option<String>,
    alias: Option<String>,
    r: usize,
) -> (res: Option<(WikiLink, usize)>)
    requires
        r <= l.len(),
    ensures
        match res {
            Some((lk, e)) => link_close(l@, target@, opt_view(heading), opt_view(alias), r as int)
                == Some((lk@, e as int)),
            None => link_close(l@, target@, opt_view(heading), opt_view(alias), r as int) is None,
        },
{
    if r < l.len() && r + 1 < l.len() && l[r] == ']' && l[r + 1] == ']' {
        Some((WikiLink { target, heading, alias }, r + 2))
    } else {
        None
    }
}

fn tail_link(l: &Vec<char>, target: String, heading: Option<String>, q: usize) -> (res: Option<
    (WikiLink, usize),
>)
    requires
        q <= l.len(),
    ensures
        match res {
            Some((lk, e)) => link_tail(l@, target@, opt_view(heading), q as int) == Some(
                (lk@, e as int),
            ),
            None => link_tail(l@, target@, opt_view(heading), q as int) is None,
        },
{
    if q < l.len() && l[q] == '|' {
        let e = link_part_end(l, q + 1, LinkPart::Alias);
        proof {
            lemma_part_end(l@, q + 1, LinkPart::Alias);
        }
        if e == q + 1 {
            None
        } else {
            let alias = trimmed_string(l, q + 1, e);
            close_link(l, target, heading, Some(alias), e)
        }
    } else {
        close_link(l, target, heading, None, q)
    }
}

/// The wikilink starting at position `p` of line `l`, and where it ends.
fn link_at(l: &Vec<char>, p: usize) -> (res: Option<(WikiLink, usize)>)
    requires
        p <= l.len(),
    ensures
        match res {
            Some((lk, e)) => wikilink_at(l@, p as int) == Some((lk@, e as int)),
            None => wikilink_at(l@, p as int) is None,
        },
{
    if !(p < l.len() && p + 1 < l.len() && l[p] == '[' && l[p + 1] == '[') {
        return None;
    }
    let e1 = link_part_end(l, p + 2, LinkPart::Target);
    proof {
        lemma_part_end(l@, p + 2, LinkPart::Target);
    }
    if e1 == p + 2 {
        return None;
    }
    let target = trimmed_string(l, p + 2, e1);
    if e1 < l.len() && l[e1] == '#' {
        let e2 = link_part_end(l, e1 + 1, LinkPart::Heading);
        proof {
            lemma_part_end(l@, e1 + 1, LinkPart::Heading);
        }
        if e2 == e1 + 1 {
            None
        } else {
            let heading = trimmed_string(l, e1 + 1, e2);
            tail_link(l, target, Some(heading), e2)
        }
    } else {
        tail_link(l, target, None, e1)
    }
}

/// Appends the wikilinks of line `l` to `out`.
fn push_line_links(l: &Vec<char>, out: &mut Vec<WikiLink>)
    ensures
        link_views(final(out)@) == link_views(old(out)@) + links_from(l@, 0),
{
    let mut p: usize = 0;
    while p < l.len()
        invariant
            p <= l.len(),
            link_views(out@) + links_from(l@, p as int) == link_views(old(out)@) + links_from(
                l@,
                0,
            ),
        decreases l.len() - p,
    {
        let ghost before = link_views(out@);
        match link_at(l, p) {
            Some((lk, e)) => {
                proof {
                    lemma_wikilink_at_end(l@, p as int);
                }
                out.push(lk);
                assert(link_views(out@) =~= before + seq![lk@]);
                assert(link_views(out@) + links_from(l@, e as int) =~= before + links_from(
                    l@,
                    p as int,
                ));
                p = e;
            },
            None => {
                p = p + 1;
            },
        }
    }
    assert(links_from(l@, p as int) =~= seq![]);
    assert(link_views(out@) + links_from(l@, p as int) =~= link_views(out@));
}

/// The wikilinks of a note, left to right, skipping fenced code blocks.
pub fn extract_wikilinks(content: &str) -> (links: Vec<WikiLink>)
    ensures
        link_views(links@) == spec_wikilinks(content@),
        forall|k: int| 0 <= k < links.len() ==> link_shaped(#[trigger] links@[k]@),
{
    proof {
        lemma_wikilinks_shaped(content@);
    }
    let chars = chars_of(content);
    let ls = body_line_chars(&chars);
    let mut links: Vec<WikiLink> = Vec::new();
    let mut i: usize = 0;
    while i < ls.len()
        invariant
            i <= ls.len(),
            seq_views(ls@) == spec_body_lines(content@),
            link_views(links@) + links_in_lines(seq_views(ls@), i as int) == spec_wikilinks(
                content@,
            ),
        decreases ls.len() - i,
    {
        let ghost before = link_views(links@);
        assert(seq_views(ls@)[i as int] == ls[i as int]@);
        push_line_links(&ls[i], &mut links);
        assert(link_views(links@) + links_in_lines(seq_views(ls@), i + 1) =~= before
            + links_in_lines(seq_views(ls@), i as int));
        i = i + 1;
    }
    assert(links_in_lines(seq_views(ls@), i as int) =~= seq![]);
    assert(link_views(links@) + links_in_lines(seq_views(ls@), i as int) =~= link_views(links@));
    assert forall|k: int| 0 <= k < links.len() implies link_shaped(#[trigger] links@[k]@) by {
        assert(link_views(links@)[k] == links@[k]@);
    }
    links
}


/// Every character of `t` may stand in part `k` of a wikilink.
pub open spec fn all_in_part(t: Seq<char>, k: LinkPart) -> bool {
    forall|j: int| 0 <= j < t.len() ==> in_link_part(#[trigger] t[j], k)
}

/// The shape of a wikilink found in a note: each part is trimmed and holds
/// only the characters its part allows.
pub open spec fn link_shaped(lk: LinkView) -> bool {
    &&& all_in_part(lk.target, LinkPart::Target) && no_outer_space(lk.target)
    &&& (lk.heading matches Some(h) ==> all_in_part(h, LinkPart::Heading) && no_outer_space(h))
    &&& (lk.alias matches Some(a) ==> all_in_part(a, LinkPart::Alias) && no_outer_space(a))
}

/// A trimmed run of part-`k` characters is trimmed and of part `k`.
proof fn lemma_trimmed_part(l: Seq<char>, a: int, e: int, k: LinkPart)
    requires
        0 <= a <= e <= l.len(),
        forall|j: int| a <= j < e ==> in_link_part(#[trigger] l[j], k),
    ensures
        all_in_part(trim(l.subrange(a, e)), k),
        no_outer_space(trim(l.subrange(a, e))),
{
    let s = l.subrange(a, e);
    lemma_trim(s);
    let (i, j) = choose|i: int, j: int| 0 <= i <= j <= s.len() && trim(s) == s.subrange(i, j);
    assert forall|q: int| 0 <= q < trim(s).len() implies in_link_part(#[trigger] trim(s)[q], k) by {
        assert(trim(s)[q] == l[a + i + q]);
    }
}

proof fn lemma_wikilink_at_shaped(l: Seq<char>, p: int)
    ensures
        wikilink_at(l, p) matches Some((lk, _)) ==> link_shaped(lk),
{
    if 0 <= p && p + 1 < l.len() && l[p] == '[' && l[p + 1] == '[' {
        lemma_part_end(l, p + 2, LinkPart::Target);
        let e1 = part_end(l, p + 2, LinkPart::Target);
        lemma_trimmed_part(l, p + 2, e1, LinkPart::Target);
        let mut q = e1;
        if e1 < l.len() && l[e1] == '#' {
            lemma_part_end(l, e1 + 1, LinkPart::Heading);
            let e2 = part_end(l, e1 + 1, LinkPart::Heading);
            lemma_trimmed_part(l, e1 + 1, e2, LinkPart::Heading);
            q = e2;
        }
        if q < l.len() && l[q] == '|' {
            lemma_part_end(l, q + 1, LinkPart::Alias);
            let e3 = part_end(l, q + 1, LinkPart::Alias);
            lemma_trimmed_part(l, q + 1, e3, LinkPart::Alias);
        }
    }
}

proof fn lemma_links_from_shaped(l: Seq<char>, p: int)
    ensures
        forall|i: int| 0 <= i < links_from(l, p).len() ==> link_shaped(#[trigger] links_from(l, p)[i]),
    decreases l.len() - p,
{
    if 0 <= p < l.len() {
        lemma_wikilink_at_shaped(l, p);
        lemma_wikilink_at_end(l, p);
        match wikilink_at(l, p) {
            Some((lk, e)) => {
                lemma_links_from_shaped(l, e);
                assert(links_from(l, p) == seq![lk] + links_from(l, e));
                assert forall|i: int| 0 <= i < links_from(l, p).len() implies link_shaped(
                    #[trigger] links_from(l, p)[i],
                ) by {
                    if i > 0 {
                        assert(links_from(l, p)[i] == links_from(l, e)[i - 1]);
                    }
                }
            },
            None => {
                lemma_links_from_shaped(l, p + 1);
                assert(links_from(l, p) == links_from(l, p + 1));
            },
        }
    }
}

proof fn lemma_links_in_lines_shaped(ls: Seq<Seq<char>>, i: int)
    ensures
        forall|k: int|
            0 <= k < links_in_lines(ls, i).len() ==> link_shaped(#[trigger] links_in_lines(ls, i)[k]),
    decreases ls.len() - i,
{
    if 0 <= i < ls.len() {
        lemma_links_from_shaped(ls[i], 0);
        lemma_links_in_lines_shaped(ls, i + 1);
        let a = links_from(ls[i], 0);
        assert forall|k: int| 0 <= k < links_in_lines(ls, i).len() implies link_shaped(
            #[trigger] links_in_lines(ls, i)[k],
        ) by {
            if k >= a.len() {
                assert(links_in_lines(ls, i)[k] == links_in_lines(ls, i + 1)[k - a.len()]);
            } else {
                assert(links_in_lines(ls, i)[k] == a[k]);
            }
        }
    }
}

/// Every wikilink of a note has the shape of the link pattern's parts.
pub proof fn lemma_wikilinks_shaped(content: Seq<char>)
    ensures
        forall|k: int| 0 <= k < spec_wikilinks(content).len() ==> link_shaped(#[trigger] spec_wikilinks(content)[k]),
{
    lemma_links_in_lines_shaped(spec_body_lines(content), 0);
}

} // verus!
